//! The binding table: every name that was bound, the frame it was bound in,
//! and what it holds now.

use vstd::prelude::*;
use crate::borrows::BorrowTracker;
use crate::model::{
    Binding, BindingState, BorrowKind, ErrorKind, Finding, ResourceHandle, Subject,
};
use crate::rules;

verus! {

pub struct BindingTable {
    bindings: Vec<Binding>,
}

impl View for BindingTable {
    type V = Seq<Binding>;

    /// All bindings in order of declaration, dead ones included.
    closed spec fn view(&self) -> Seq<Binding> {
        self.bindings@
    }
}

/// Index of the entry of `entries` that `name` denotes: the latest binding
/// of that name.
pub fn lookup_in(entries: &Vec<Binding>, name: u64) -> (found: Option<usize>)
    ensures
        match found {
            Some(i) => rules::lookup(entries@, name) == Some(i as int) && i < entries@.len(),
            None => rules::lookup(entries@, name) is None,
        },
{
    let mut k: usize = entries.len();
    while k > 0
        invariant
            k <= entries.len(),
            rules::lookup(entries@, name) == rules::lookup_below(entries@, name, k as int),
        decreases k,
    {
        if entries[k - 1].name == name {
            return Some(k - 1);
        }
        k -= 1;
    }
    None
}

/// What `name` holds according to `entries`. A name that was never bound is
/// uninitialized.
pub fn state_in(entries: &Vec<Binding>, name: u64) -> (state: BindingState)
    ensures
        state == rules::state_of(entries@, name),
{
    match lookup_in(entries, name) {
        Some(i) => entries[i].state,
        None => BindingState::Uninitialized,
    }
}

impl BindingTable {
    pub fn new() -> (table: Self)
        ensures
            table@ == Seq::<Binding>::empty(),
    {
        BindingTable { bindings: Vec::new() }
    }

    /// The entries themselves, for inspection.
    pub fn entries(&self) -> (entries: &Vec<Binding>)
        ensures
            entries@ == self@,
    {
        &self.bindings
    }

    /// Gives up the table for its entries.
    pub fn into_entries(self) -> (entries: Vec<Binding>)
        ensures
            entries@ == self@,
    {
        self.bindings
    }

    /// Binds `name` in `scope` to `handle` and returns the index of the new
    /// entry.
    fn bind(&mut self, name: u64, scope: u64, handle: ResourceHandle) -> (index: usize)
        ensures
            final(self)@ == rules::bound(old(self)@, name, scope, handle),
            index == old(self)@.len(),
    {
        let index: usize = self.bindings.len();
        self.bindings.push(Binding { name, scope, state: BindingState::Owning(handle) });
        index
    }

    /// Binds `name` in `scope` to a fresh resource and returns the index of
    /// the new entry. The resource's handle gets that index as its id.
    pub fn declare(&mut self, name: u64, scope: u64, linear: bool, len: u64) -> (index: usize)
        ensures
            final(self)@ == rules::declared(old(self)@, name, scope, linear, len),
            index == old(self)@.len(),
    {
        let id: usize = self.bindings.len();
        self.bind(name, scope, ResourceHandle { id, linear, len })
    }

    /// Index of the entry that `name` denotes: the latest binding of that
    /// name.
    pub fn lookup(&self, name: u64) -> (found: Option<usize>)
        ensures
            match found {
                Some(i) => rules::lookup(self@, name) == Some(i as int) && i < self@.len(),
                None => rules::lookup(self@, name) is None,
            },
    {
        lookup_in(&self.bindings, name)
    }

    /// What `name` holds now. A name that was never bound is uninitialized.
    pub fn state_of(&self, name: u64) -> (state: BindingState)
        ensures
            state == rules::state_of(self@, name),
    {
        state_in(&self.bindings, name)
    }

    /// Moves what `src` owns into a new binding `dst` of `scope` and returns
    /// the handle that `dst` now owns. A linear source is left moved-out; a
    /// freely copyable source is left untouched and `dst` gets a duplicate.
    /// Refused with `DoubleMove` if `src` was moved out before, and with
    /// `UseAfterMove` if it was dropped or never initialized; a refusal
    /// leaves the table as it was.
    pub fn move_from(&mut self, src: u64, dst: u64, scope: u64) -> (result: Result<
        ResourceHandle,
        ErrorKind,
    >)
        ensures
            result == rules::move_check(old(self)@, src),
            final(self)@ == rules::moved(old(self)@, src, dst, scope),
    {
        match self.lookup(src) {
            Some(i) => match self.bindings[i].state {
                BindingState::Owning(h) => {
                    if h.linear {
                        let vacated = Binding {
                            name: self.bindings[i].name,
                            scope: self.bindings[i].scope,
                            state: BindingState::MovedOut,
                        };
                        self.bindings.set(i, vacated);
                        self.bind(dst, scope, h);
                        Ok(h)
                    } else {
                        let copy = ResourceHandle {
                            id: self.bindings.len(),
                            linear: h.linear,
                            len: h.len,
                        };
                        self.bind(dst, scope, copy);
                        Ok(copy)
                    }
                },
                BindingState::MovedOut => Err(ErrorKind::DoubleMove),
                _ => Err(ErrorKind::UseAfterMove),
            },
            None => Err(ErrorKind::UseAfterMove),
        }
    }

    /// Binds an independent duplicate of what `src` owns to a new binding
    /// `dst` of `scope` and returns the duplicate's handle; `src` keeps what
    /// it owns. Refused with `UseAfterMove` unless `src` owns a handle.
    pub fn clone_from(&mut self, src: u64, dst: u64, scope: u64) -> (result: Result<
        ResourceHandle,
        ErrorKind,
    >)
        ensures
            result == rules::clone_check(old(self)@, src),
            final(self)@ == rules::cloned(old(self)@, src, dst, scope),
    {
        match self.state_of(src) {
            BindingState::Owning(h) => {
                let copy = ResourceHandle { id: self.bindings.len(), linear: h.linear, len: h.len };
                self.bind(dst, scope, copy);
                Ok(copy)
            },
            _ => Err(ErrorKind::UseAfterMove),
        }
    }

    /// Checks an access of kind `kind` to `name` against what the binding
    /// holds and against the borrows that are active on its handle.
    pub fn access(&self, name: u64, kind: BorrowKind, tracker: &BorrowTracker) -> (result: Result<
        (),
        Finding,
    >)
        ensures
            result == rules::access_binding(self@, tracker@, name, kind),
    {
        match self.state_of(name) {
            BindingState::Owning(h) => {
                if tracker.conflicts(h.id, kind) {
                    Err(Finding { kind: ErrorKind::BorrowConflict, subject: Subject::Handle(h.id) })
                } else {
                    Ok(())
                }
            },
            _ => Err(Finding { kind: ErrorKind::UseAfterMove, subject: Subject::Binding(name) }),
        }
    }

    /// Checks a read of `name`: the binding must own a handle
    /// (`UseAfterMove` otherwise) that is not exclusively borrowed
    /// (`BorrowConflict` otherwise).
    pub fn read(&self, name: u64, tracker: &BorrowTracker) -> (result: Result<(), Finding>)
        ensures
            result == rules::access_binding(self@, tracker@, name, BorrowKind::Shared),
    {
        self.access(name, BorrowKind::Shared, tracker)
    }

    /// Checks a write to `name`: the binding must own a handle
    /// (`UseAfterMove` otherwise) that is not borrowed at all
    /// (`BorrowConflict` otherwise).
    pub fn write(&self, name: u64, tracker: &BorrowTracker) -> (result: Result<(), Finding>)
        ensures
            result == rules::access_binding(self@, tracker@, name, BorrowKind::Exclusive),
    {
        self.access(name, BorrowKind::Exclusive, tracker)
    }

    /// Index of the binding that owns the handle with id `target`.
    pub fn holder(&self, target: usize) -> (found: Option<usize>)
        ensures
            match found {
                Some(i) => rules::holder(self@, target) == Some(i as int) && i < self@.len(),
                None => rules::holder(self@, target) is None,
            },
    {
        let mut i: usize = 0;
        while i < self.bindings.len()
            invariant
                i <= self.bindings.len(),
                rules::holder(self.bindings@, target) == rules::holder_from(
                    self.bindings@,
                    target,
                    i as int,
                ),
            decreases self.bindings.len() - i,
        {
            match self.bindings[i].state {
                BindingState::Owning(h) => {
                    if h.id == target {
                        return Some(i);
                    }
                },
                _ => {},
            }
            i += 1;
        }
        None
    }

    /// The handle of the first binding of frame `scope` that owns one on
    /// which a borrow is still active.
    pub fn first_borrowed(&self, scope: u64, tracker: &BorrowTracker) -> (found: Option<
        ResourceHandle,
    >)
        ensures
            match found {
                Some(h) => rules::first_borrowed(self@, tracker@, scope) matches Some(i)
                    && 0 <= i < self@.len() && self@[i].state == BindingState::Owning(h),
                None => rules::first_borrowed(self@, tracker@, scope) is None,
            },
    {
        let mut i: usize = 0;
        while i < self.bindings.len()
            invariant
                i <= self.bindings.len(),
                rules::first_borrowed(self.bindings@, tracker@, scope)
                    == rules::first_borrowed_from(self.bindings@, tracker@, scope, i as int),
            decreases self.bindings.len() - i,
        {
            let b = self.bindings[i];
            if b.scope == scope {
                match b.state {
                    BindingState::Owning(h) => {
                        if tracker.has_active(h.id) {
                            return Some(h);
                        }
                    },
                    _ => {},
                }
            }
            i += 1;
        }
        None
    }

    /// Drops what the bindings of frame `scope` own: each of them that owns
    /// a handle becomes dropped, the others stay as they are.
    pub fn drop_scope(&mut self, scope: u64)
        ensures
            final(self)@ == rules::dropped(old(self)@, scope),
    {
        let n: usize = self.bindings.len();
        let mut i: usize = 0;
        while i < n
            invariant
                i <= n,
                n == self.bindings@.len(),
                n == old(self).bindings@.len(),
                forall|j: int|
                    0 <= j < i ==> self.bindings@[j] == rules::dropped(old(self).bindings@, scope)[j],
                forall|j: int| i <= j < n ==> self.bindings@[j] == old(self).bindings@[j],
            decreases n - i,
        {
            let b = self.bindings[i];
            if b.scope == scope {
                match b.state {
                    BindingState::Owning(_) => {
                        self.bindings.set(
                            i,
                            Binding { name: b.name, scope: b.scope, state: BindingState::Dropped },
                        );
                    },
                    _ => {},
                }
            }
            i += 1;
        }
        assert(self.bindings@ =~= rules::dropped(old(self).bindings@, scope));
    }
}

} // verus!
