//! The borrow tracker: every borrow that was created, which of them are
//! still active, and the exclusivity rule that decides whether a new one may
//! be created.

use vstd::prelude::*;
use crate::model::{Borrow, BorrowKind, ErrorKind, ResourceHandle, Span};
use crate::rules;

verus! {

pub struct BorrowTracker {
    borrows: Vec<Borrow>,
}

impl View for BorrowTracker {
    type V = Seq<Borrow>;

    /// All borrows in order of creation, released ones included.
    closed spec fn view(&self) -> Seq<Borrow> {
        self.borrows@
    }
}

/// Whether `span` fits a resource of `len` elements.
pub fn span_fits(span: Option<Span>, len: u64) -> (fits: bool)
    ensures
        fits == rules::span_fits(span, len),
{
    match span {
        Some(s) => s.start <= s.end && s.end <= len,
        None => true,
    }
}

impl BorrowTracker {
    pub fn new() -> (tracker: Self)
        ensures
            tracker@ == Seq::<Borrow>::empty(),
    {
        BorrowTracker { borrows: Vec::new() }
    }

    /// The records themselves, for inspection.
    pub fn records(&self) -> (records: &Vec<Borrow>)
        ensures
            records@ == self@,
    {
        &self.borrows
    }

    /// Is any borrow of handle `target` active?
    pub fn has_active(&self, target: usize) -> (found: bool)
        ensures
            found == rules::has_active(self@, target),
    {
        let mut i: usize = 0;
        while i < self.borrows.len()
            invariant
                i <= self.borrows.len(),
                forall|j: int| 0 <= j < i ==> !rules::active_on(self.borrows@, j, target),
            decreases self.borrows.len() - i,
        {
            let b = self.borrows[i];
            if b.active && b.target == target {
                assert(rules::active_on(self.borrows@, i as int, target));
                return true;
            }
            i += 1;
        }
        false
    }

    /// Is any exclusive borrow of handle `target` active?
    pub fn has_exclusive(&self, target: usize) -> (found: bool)
        ensures
            found == rules::has_exclusive(self@, target),
    {
        let mut i: usize = 0;
        while i < self.borrows.len()
            invariant
                i <= self.borrows.len(),
                forall|j: int|
                    0 <= j < i ==> !(#[trigger] rules::active_on(self.borrows@, j, target)
                        && self.borrows@[j].kind is Exclusive),
            decreases self.borrows.len() - i,
        {
            let b = self.borrows[i];
            if b.active && b.target == target && b.kind == BorrowKind::Exclusive {
                assert(rules::active_on(self.borrows@, i as int, target));
                return true;
            }
            i += 1;
        }
        false
    }

    /// Would an access of kind `kind` to handle `target` clash with an
    /// active borrow?
    pub fn conflicts(&self, target: usize, kind: BorrowKind) -> (clash: bool)
        ensures
            clash == rules::conflicts(self@, target, kind),
    {
        match kind {
            BorrowKind::Shared => self.has_exclusive(target),
            BorrowKind::Exclusive => self.has_active(target),
        }
    }

    /// Creates a borrow of `handle` in `slot` if the exclusivity rule and the
    /// bounds of `span` allow it, and returns its record. A refused request
    /// leaves the tracker as it was.
    pub fn borrow(
        &mut self,
        slot: u64,
        handle: ResourceHandle,
        kind: BorrowKind,
        scope: u64,
        span: Option<Span>,
    ) -> (result: Result<Borrow, ErrorKind>)
        ensures
            match result {
                Ok(b) => {
                    &&& rules::borrow_check(old(self)@, handle, kind, span) is Ok
                    &&& final(self)@ == rules::lent(old(self)@, slot, handle, kind, scope, span)
                    &&& b == final(self)@.last()
                },
                Err(e) => {
                    &&& rules::borrow_check(old(self)@, handle, kind, span) == Err::<(), ErrorKind>(e)
                    &&& final(self)@ == old(self)@
                },
            },
    {
        if self.conflicts(handle.id, kind) {
            return Err(ErrorKind::BorrowConflict);
        }
        if !span_fits(span, handle.len) {
            return Err(ErrorKind::OutOfBounds);
        }
        let b = Borrow { slot, target: handle.id, kind, scope, span, active: true };
        self.borrows.push(b);
        Ok(b)
    }

    /// Creates a shared borrow of `handle` in `slot`. Refused with
    /// `BorrowConflict` while an exclusive borrow of the handle is active,
    /// and with `OutOfBounds` if `span` does not fit.
    pub fn borrow_shared(&mut self, slot: u64, handle: ResourceHandle, scope: u64, span: Option<
        Span,
    >) -> (result: Result<Borrow, ErrorKind>)
        ensures
            match result {
                Ok(b) => {
                    &&& rules::borrow_check(old(self)@, handle, BorrowKind::Shared, span) is Ok
                    &&& final(self)@ == rules::lent(
                        old(self)@,
                        slot,
                        handle,
                        BorrowKind::Shared,
                        scope,
                        span,
                    )
                    &&& b == final(self)@.last()
                },
                Err(e) => {
                    &&& rules::borrow_check(old(self)@, handle, BorrowKind::Shared, span) == Err::<
                        (),
                        ErrorKind,
                    >(e)
                    &&& final(self)@ == old(self)@
                },
            },
    {
        self.borrow(slot, handle, BorrowKind::Shared, scope, span)
    }

    /// Creates an exclusive borrow of `handle` in `slot`. Refused with
    /// `BorrowConflict` while any borrow of the handle is active, and with
    /// `OutOfBounds` if `span` does not fit.
    pub fn borrow_exclusive(&mut self, slot: u64, handle: ResourceHandle, scope: u64, span: Option<
        Span,
    >) -> (result: Result<Borrow, ErrorKind>)
        ensures
            match result {
                Ok(b) => {
                    &&& rules::borrow_check(old(self)@, handle, BorrowKind::Exclusive, span) is Ok
                    &&& final(self)@ == rules::lent(
                        old(self)@,
                        slot,
                        handle,
                        BorrowKind::Exclusive,
                        scope,
                        span,
                    )
                    &&& b == final(self)@.last()
                },
                Err(e) => {
                    &&& rules::borrow_check(old(self)@, handle, BorrowKind::Exclusive, span)
                        == Err::<(), ErrorKind>(e)
                    &&& final(self)@ == old(self)@
                },
            },
    {
        self.borrow(slot, handle, BorrowKind::Exclusive, scope, span)
    }

    /// Index of the borrow that `slot` holds: the latest active one created
    /// in it.
    pub fn active_in(&self, slot: u64) -> (found: Option<usize>)
        ensures
            match found {
                Some(i) => rules::active_in(self@, slot) == Some(i as int) && i < self@.len(),
                None => rules::active_in(self@, slot) is None,
            },
    {
        let mut k: usize = self.borrows.len();
        while k > 0
            invariant
                k <= self.borrows.len(),
                rules::active_in(self.borrows@, slot) == rules::active_in_below(
                    self.borrows@,
                    slot,
                    k as int,
                ),
            decreases k,
        {
            let b = self.borrows[k - 1];
            if b.slot == slot && b.active {
                return Some(k - 1);
            }
            k -= 1;
        }
        None
    }

    /// The borrow that `slot` holds, if it holds one.
    pub fn held_in(&self, slot: u64) -> (found: Option<Borrow>)
        ensures
            match found {
                Some(b) => rules::active_in(self@, slot) is Some && b == self@[rules::active_in(
                    self@,
                    slot,
                )->0],
                None => rules::active_in(self@, slot) is None,
            },
    {
        match self.active_in(slot) {
            Some(i) => Some(self.borrows[i]),
            None => None,
        }
    }

    /// Ends every borrow held in `slot`. Says whether the slot held an
    /// active borrow; releasing a slot that holds none changes nothing.
    pub fn release(&mut self, slot: u64) -> (freed: bool)
        ensures
            final(self)@ == rules::released(old(self)@, slot),
            freed == (rules::active_in(old(self)@, slot) is Some),
    {
        let freed = self.active_in(slot).is_some();
        let n: usize = self.borrows.len();
        let mut i: usize = 0;
        while i < n
            invariant
                i <= n,
                n == self.borrows@.len(),
                n == old(self).borrows@.len(),
                forall|j: int| 0 <= j < i ==> self.borrows@[j] == rules::released(old(self).borrows@, slot)[j],
                forall|j: int| i <= j < n ==> self.borrows@[j] == old(self).borrows@[j],
            decreases n - i,
        {
            let b = self.borrows[i];
            if b.slot == slot {
                self.borrows.set(i, Borrow { active: false, ..b });
            }
            i += 1;
        }
        assert(self.borrows@ =~= rules::released(old(self).borrows@, slot));
        freed
    }

    /// Ends every borrow that was created in frame `scope`.
    pub fn invalidate_scope(&mut self, scope: u64)
        ensures
            final(self)@ == rules::invalidated(old(self)@, scope),
    {
        let n: usize = self.borrows.len();
        let mut i: usize = 0;
        while i < n
            invariant
                i <= n,
                n == self.borrows@.len(),
                n == old(self).borrows@.len(),
                forall|j: int|
                    0 <= j < i ==> self.borrows@[j] == rules::invalidated(old(self).borrows@, scope)[j],
                forall|j: int| i <= j < n ==> self.borrows@[j] == old(self).borrows@[j],
            decreases n - i,
        {
            let b = self.borrows[i];
            if b.scope == scope {
                self.borrows.set(i, Borrow { active: false, ..b });
            }
            i += 1;
        }
        assert(self.borrows@ =~= rules::invalidated(old(self).borrows@, scope));
    }
}

} // verus!
