//! The rules of the move and borrow discipline, as mathematics: what each
//! operation demands of the state it meets and what it leaves behind.

use vstd::prelude::*;
use crate::model::{
    Binding, BindingState, Borrow, BorrowKind, ErrorKind, Finding, Op, Outcome, Place,
    ResourceHandle, Span, Subject, CALLER_BINDING, ROOT_SCOPE,
};

verus! {

/// Everything the verifier knows between two operations.
pub struct State {
    /// The binding table, in order of declaration.
    pub bindings: Seq<Binding>,
    /// Every borrow ever created, in order of creation.
    pub borrows: Seq<Borrow>,
    /// The open frames, outermost first.
    pub scopes: Seq<u64>,
    /// How many frames were entered so far. Frame ids are handed out in
    /// order: the n-th frame entered has id n.
    pub entered: nat,
}

impl State {
    /// The state before the first operation: an empty table, no borrow, and
    /// only the caller's frame open.
    pub open spec fn initial() -> State {
        State { bindings: Seq::empty(), borrows: Seq::empty(), scopes: seq![ROOT_SCOPE], entered: 0 }
    }

    /// The innermost open frame.
    pub open spec fn current(self) -> u64 {
        self.scopes.last()
    }
}

// ---------------------------------------------------------------- bindings

/// Index of the latest binding of `name` among the first `k` entries.
pub open spec fn lookup_below(bs: Seq<Binding>, name: u64, k: int) -> Option<int>
    decreases k,
{
    if k <= 0 {
        None
    } else if bs[k - 1].name == name {
        Some(k - 1)
    } else {
        lookup_below(bs, name, k - 1)
    }
}

/// Index of the binding that `name` currently denotes: the latest one
/// declared under that name.
pub open spec fn lookup(bs: Seq<Binding>, name: u64) -> Option<int> {
    lookup_below(bs, name, bs.len() as int)
}

/// State of the binding that `name` denotes. A name that was never bound is
/// uninitialized.
pub open spec fn state_of(bs: Seq<Binding>, name: u64) -> BindingState {
    match lookup(bs, name) {
        Some(i) => bs[i].state,
        None => BindingState::Uninitialized,
    }
}

/// The id the next handle minted by table `bs` gets.
pub open spec fn fresh_id(bs: Seq<Binding>) -> usize {
    bs.len() as usize
}

/// Table after binding `name` in `scope` to `handle`.
pub open spec fn bound(bs: Seq<Binding>, name: u64, scope: u64, handle: ResourceHandle) -> Seq<
    Binding,
> {
    bs.push(Binding { name, scope, state: BindingState::Owning(handle) })
}

/// Table after declaring `name` in `scope` with a fresh resource.
pub open spec fn declared(bs: Seq<Binding>, name: u64, scope: u64, linear: bool, len: u64) -> Seq<
    Binding,
> {
    bound(bs, name, scope, ResourceHandle { id: fresh_id(bs), linear, len })
}

/// An independent duplicate of `h`, as table `bs` would mint it.
pub open spec fn duplicate(bs: Seq<Binding>, h: ResourceHandle) -> ResourceHandle {
    ResourceHandle { id: fresh_id(bs), linear: h.linear, len: h.len }
}

/// Whether `src` can be moved from, and the handle its destination receives:
/// the very handle of a linear source, a duplicate of a freely copyable one.
pub open spec fn move_check(bs: Seq<Binding>, src: u64) -> Result<ResourceHandle, ErrorKind> {
    match state_of(bs, src) {
        BindingState::Owning(h) => Ok(
            if h.linear {
                h
            } else {
                duplicate(bs, h)
            },
        ),
        BindingState::MovedOut => Err(ErrorKind::DoubleMove),
        _ => Err(ErrorKind::UseAfterMove),
    }
}

/// Table after moving `src` into a new binding `dst` of `scope`. A linear
/// source becomes moved-out; a freely copyable one stays as it is. A source
/// that cannot be moved from leaves the table unchanged.
pub open spec fn moved(bs: Seq<Binding>, src: u64, dst: u64, scope: u64) -> Seq<Binding> {
    match state_of(bs, src) {
        BindingState::Owning(h) => if h.linear {
            let i = lookup(bs, src)->0;
            bound(bs.update(i, Binding { state: BindingState::MovedOut, ..bs[i] }), dst, scope, h)
        } else {
            bound(bs, dst, scope, duplicate(bs, h))
        },
        _ => bs,
    }
}

/// Whether `src` can be cloned, and the handle the clone gets.
pub open spec fn clone_check(bs: Seq<Binding>, src: u64) -> Result<ResourceHandle, ErrorKind> {
    match state_of(bs, src) {
        BindingState::Owning(h) => Ok(duplicate(bs, h)),
        _ => Err(ErrorKind::UseAfterMove),
    }
}

/// Table after cloning `src` into a new binding `dst` of `scope`.
pub open spec fn cloned(bs: Seq<Binding>, src: u64, dst: u64, scope: u64) -> Seq<Binding> {
    match clone_check(bs, src) {
        Ok(h) => bound(bs, dst, scope, h),
        Err(_) => bs,
    }
}

/// Binding `i` owns the handle with id `target`.
pub open spec fn owns(bs: Seq<Binding>, i: int, target: usize) -> bool {
    &&& 0 <= i < bs.len()
    &&& bs[i].state matches BindingState::Owning(h)
    &&& h.id == target
}

/// Index of the first binding at or after `k` that owns handle `target`.
pub open spec fn holder_from(bs: Seq<Binding>, target: usize, k: int) -> Option<int>
    decreases bs.len() - k,
{
    if k < 0 || k >= bs.len() {
        None
    } else if owns(bs, k, target) {
        Some(k)
    } else {
        holder_from(bs, target, k + 1)
    }
}

/// Index of the binding that owns handle `target`, if the handle is alive.
pub open spec fn holder(bs: Seq<Binding>, target: usize) -> Option<int> {
    holder_from(bs, target, 0)
}

/// Table after every owning binding of frame `scope` was dropped.
pub open spec fn dropped(bs: Seq<Binding>, scope: u64) -> Seq<Binding> {
    Seq::new(
        bs.len(),
        |i: int|
            if bs[i].scope == scope && bs[i].state is Owning {
                Binding { state: BindingState::Dropped, ..bs[i] }
            } else {
                bs[i]
            },
    )
}

// ----------------------------------------------------------------- borrows

/// Borrow `i` is active and views handle `target`.
pub open spec fn active_on(bw: Seq<Borrow>, i: int, target: usize) -> bool {
    0 <= i < bw.len() && bw[i].active && bw[i].target == target
}

/// Some borrow of handle `target` is active.
pub open spec fn has_active(bw: Seq<Borrow>, target: usize) -> bool {
    exists|i: int| active_on(bw, i, target)
}

/// Some exclusive borrow of handle `target` is active.
pub open spec fn has_exclusive(bw: Seq<Borrow>, target: usize) -> bool {
    exists|i: int| #[trigger] active_on(bw, i, target) && bw[i].kind is Exclusive
}

/// An access of kind `kind` to handle `target` is incompatible with the
/// borrows that are active: a shared access with an exclusive borrow, an
/// exclusive access with any borrow.
pub open spec fn conflicts(bw: Seq<Borrow>, target: usize, kind: BorrowKind) -> bool {
    match kind {
        BorrowKind::Shared => has_exclusive(bw, target),
        BorrowKind::Exclusive => has_active(bw, target),
    }
}

/// A slice range fits a resource of `len` elements: `start <= end <= len`.
/// An empty range fits wherever its position does.
pub open spec fn span_fits(span: Option<Span>, len: u64) -> bool {
    match span {
        Some(s) => s.start <= s.end && s.end <= len,
        None => true,
    }
}

/// Whether handle `h` can be borrowed as `kind` over `span`.
pub open spec fn borrow_check(bw: Seq<Borrow>, h: ResourceHandle, kind: BorrowKind, span: Option<
    Span,
>) -> Result<(), ErrorKind> {
    if conflicts(bw, h.id, kind) {
        Err(ErrorKind::BorrowConflict)
    } else if !span_fits(span, h.len) {
        Err(ErrorKind::OutOfBounds)
    } else {
        Ok(())
    }
}

/// Borrows after a legal borrow of `h` was created in `slot`.
pub open spec fn lent(
    bw: Seq<Borrow>,
    slot: u64,
    h: ResourceHandle,
    kind: BorrowKind,
    scope: u64,
    span: Option<Span>,
) -> Seq<Borrow> {
    bw.push(Borrow { slot, target: h.id, kind, scope, span, active: true })
}

/// Index of the latest active borrow held in `slot` among the first `k`.
pub open spec fn active_in_below(bw: Seq<Borrow>, slot: u64, k: int) -> Option<int>
    decreases k,
{
    if k <= 0 {
        None
    } else if bw[k - 1].slot == slot && bw[k - 1].active {
        Some(k - 1)
    } else {
        active_in_below(bw, slot, k - 1)
    }
}

/// Index of the borrow that `slot` currently holds: the latest active one
/// created in it.
pub open spec fn active_in(bw: Seq<Borrow>, slot: u64) -> Option<int> {
    active_in_below(bw, slot, bw.len() as int)
}

/// Borrows after every borrow held in `slot` was released.
pub open spec fn released(bw: Seq<Borrow>, slot: u64) -> Seq<Borrow> {
    Seq::new(
        bw.len(),
        |i: int|
            if bw[i].slot == slot {
                Borrow { active: false, ..bw[i] }
            } else {
                bw[i]
            },
    )
}

/// Borrows after every borrow created in frame `scope` was invalidated.
pub open spec fn invalidated(bw: Seq<Borrow>, scope: u64) -> Seq<Borrow> {
    Seq::new(
        bw.len(),
        |i: int|
            if bw[i].scope == scope {
                Borrow { active: false, ..bw[i] }
            } else {
                bw[i]
            },
    )
}

/// Number of active borrows of kind `kind` on handle `target` among the
/// first `k` borrows.
pub open spec fn count_active_below(bw: Seq<Borrow>, target: usize, kind: BorrowKind, k: int) -> nat
    decreases k,
{
    if k <= 0 {
        0
    } else {
        count_active_below(bw, target, kind, k - 1) + if active_on(bw, k - 1, target) && bw[k
            - 1].kind == kind {
            1nat
        } else {
            0nat
        }
    }
}

/// Number of active borrows of kind `kind` on handle `target`.
pub open spec fn count_active(bw: Seq<Borrow>, target: usize, kind: BorrowKind) -> nat {
    count_active_below(bw, target, kind, bw.len() as int)
}

// ------------------------------------------------------------------ scopes

/// Frame `scope` may be exited: it is the innermost open frame and not the
/// caller's.
pub open spec fn exit_check(scopes: Seq<u64>, scope: u64) -> bool {
    scopes.len() > 1 && scopes.last() == scope
}

/// Binding `i` belongs to frame `scope` and owns a handle that is still
/// borrowed.
pub open spec fn borrowed_in(bs: Seq<Binding>, bw: Seq<Borrow>, scope: u64, i: int) -> bool {
    &&& 0 <= i < bs.len()
    &&& bs[i].scope == scope
    &&& bs[i].state matches BindingState::Owning(h)
    &&& has_active(bw, h.id)
}

/// Index of the first binding at or after `k` that belongs to frame `scope`
/// and owns a handle that is still borrowed.
pub open spec fn first_borrowed_from(bs: Seq<Binding>, bw: Seq<Borrow>, scope: u64, k: int) -> Option<
    int,
>
    decreases bs.len() - k,
{
    if k < 0 || k >= bs.len() {
        None
    } else if borrowed_in(bs, bw, scope, k) {
        Some(k)
    } else {
        first_borrowed_from(bs, bw, scope, k + 1)
    }
}

/// Index of the first binding of frame `scope` whose handle would be left
/// dangling if the frame were exited now.
pub open spec fn first_borrowed(bs: Seq<Binding>, bw: Seq<Borrow>, scope: u64) -> Option<int> {
    first_borrowed_from(bs, bw, scope, 0)
}

// -------------------------------------------------------------- operations

/// Verdict on an access of kind `kind` to the binding `name`: the binding
/// must own a handle, and the access must be compatible with the borrows
/// that are active on it.
pub open spec fn access_binding(bs: Seq<Binding>, bw: Seq<Borrow>, name: u64, kind: BorrowKind) -> Result<
    (),
    Finding,
> {
    match state_of(bs, name) {
        BindingState::Owning(h) => if conflicts(bw, h.id, kind) {
            Err(Finding { kind: ErrorKind::BorrowConflict, subject: Subject::Handle(h.id) })
        } else {
            Ok(())
        },
        _ => Err(Finding { kind: ErrorKind::UseAfterMove, subject: Subject::Binding(name) }),
    }
}

/// Verdict on an access of kind `kind` through the borrow held in `slot`:
/// the slot must hold an active borrow, and a mutation needs an exclusive one.
pub open spec fn access_slot(bw: Seq<Borrow>, slot: u64, kind: BorrowKind) -> Result<(), Finding> {
    match active_in(bw, slot) {
        Some(i) => if kind is Exclusive && bw[i].kind is Shared {
            Err(Finding { kind: ErrorKind::BorrowConflict, subject: Subject::Handle(bw[i].target) })
        } else {
            Ok(())
        },
        None => Err(Finding { kind: ErrorKind::DanglingReference, subject: Subject::Slot(slot) }),
    }
}

/// Verdict on an access of kind `kind` to `place`.
pub open spec fn access(st: State, place: Place, kind: BorrowKind) -> Result<(), Finding> {
    match place {
        Place::Binding(name) => access_binding(st.bindings, st.borrows, name, kind),
        Place::Borrow(slot) => access_slot(st.borrows, slot, kind),
    }
}

/// Verdict on handing the borrow held in `slot` to the caller: the slot must
/// hold an active borrow, and the handle it views must be owned in the
/// caller's frame, since every other frame ends with the return.
pub open spec fn return_borrow_check(bs: Seq<Binding>, bw: Seq<Borrow>, slot: u64) -> Result<
    (),
    Finding,
> {
    match active_in(bw, slot) {
        Some(i) => match holder(bs, bw[i].target) {
            Some(j) if bs[j].scope == ROOT_SCOPE => Ok(()),
            _ => Err(
                Finding {
                    kind: ErrorKind::DanglingReference,
                    subject: Subject::Handle(bw[i].target),
                },
            ),
        },
        None => Err(Finding { kind: ErrorKind::DanglingReference, subject: Subject::Slot(slot) }),
    }
}

/// State after `src` was moved into a new binding `dst` of frame `scope`,
/// or the finding that forbids it.
pub open spec fn move_step(st: State, src: u64, dst: u64, scope: u64) -> Result<State, Finding> {
    match move_check(st.bindings, src) {
        Ok(_) => Ok(State { bindings: moved(st.bindings, src, dst, scope), ..st }),
        Err(kind) => Err(Finding { kind, subject: Subject::Binding(src) }),
    }
}

/// State after `src` was cloned into `dst`, or the finding that forbids it.
pub open spec fn clone_step(st: State, src: u64, dst: u64) -> Result<State, Finding> {
    match clone_check(st.bindings, src) {
        Ok(_) => Ok(State { bindings: cloned(st.bindings, src, dst, st.current()), ..st }),
        Err(kind) => Err(Finding { kind, subject: Subject::Binding(src) }),
    }
}

/// State after what `target` owns was borrowed into `slot`, or the finding
/// that forbids it.
pub open spec fn borrow_step(st: State, target: u64, slot: u64, kind: BorrowKind, span: Option<
    Span,
>) -> Result<State, Finding> {
    match state_of(st.bindings, target) {
        BindingState::Owning(h) => match borrow_check(st.borrows, h, kind, span) {
            Ok(_) => Ok(
                State { borrows: lent(st.borrows, slot, h, kind, st.current(), span), ..st },
            ),
            Err(e) => Err(Finding { kind: e, subject: Subject::Handle(h.id) }),
        },
        _ => Err(Finding { kind: ErrorKind::UseAfterMove, subject: Subject::Binding(target) }),
    }
}

/// State after frame `scope` was exited, or the finding that forbids it.
/// Exiting drops what the frame owns and invalidates the borrows created in
/// it; it is refused while a handle the frame owns is still borrowed.
pub open spec fn exit_step(st: State, scope: u64) -> Result<State, Finding> {
    if !exit_check(st.scopes, scope) {
        Err(Finding { kind: ErrorKind::ScopeMismatch, subject: Subject::Scope(scope) })
    } else {
        match first_borrowed(st.bindings, st.borrows, scope) {
            Some(i) => Err(
                Finding {
                    kind: ErrorKind::DanglingReference,
                    subject: Subject::Handle(st.bindings[i].state->Owning_0.id),
                },
            ),
            None => Ok(
                State {
                    bindings: dropped(st.bindings, scope),
                    borrows: invalidated(st.borrows, scope),
                    scopes: st.scopes.drop_last(),
                    entered: st.entered,
                },
            ),
        }
    }
}

/// State after a new frame was entered.
pub open spec fn enter_step(st: State) -> State {
    State { scopes: st.scopes.push((st.entered + 1) as u64), entered: st.entered + 1, ..st }
}

/// The transition function of the verifier: the state that `op` leaves
/// behind when it is legal in `st`, and the finding when it is not.
pub open spec fn step(st: State, op: Op) -> Result<State, Finding> {
    match op {
        Op::Declare { name, linear, len } => Ok(
            State { bindings: declared(st.bindings, name, st.current(), linear, len), ..st },
        ),
        Op::Move { src, dst } => move_step(st, src, dst, st.current()),
        Op::Clone { src, dst } => clone_step(st, src, dst),
        Op::BorrowShared { target, slot, span } => borrow_step(
            st,
            target,
            slot,
            BorrowKind::Shared,
            span,
        ),
        Op::BorrowExclusive { target, slot, span } => borrow_step(
            st,
            target,
            slot,
            BorrowKind::Exclusive,
            span,
        ),
        Op::Release { slot } => Ok(State { borrows: released(st.borrows, slot), ..st }),
        Op::Read { place } => match access(st, place, BorrowKind::Shared) {
            Ok(_) => Ok(st),
            Err(f) => Err(f),
        },
        Op::Write { place } => match access(st, place, BorrowKind::Exclusive) {
            Ok(_) => Ok(st),
            Err(f) => Err(f),
        },
        Op::Return { place } => match place {
            Place::Binding(name) => move_step(st, name, CALLER_BINDING, ROOT_SCOPE),
            Place::Borrow(slot) => match return_borrow_check(st.bindings, st.borrows, slot) {
                Ok(_) => Ok(st),
                Err(f) => Err(f),
            },
        },
        Op::EnterScope => Ok(enter_step(st)),
        Op::ExitScope { scope } => exit_step(st, scope),
    }
}

/// A finding together with the position of the operation that caused it.
pub struct Violation {
    pub op_index: nat,
    pub finding: Finding,
}

/// The state after the first `k` operations of `ops`, or the first violation
/// among them. Nothing after a violation is looked at.
pub open spec fn replay(ops: Seq<Op>, k: nat) -> Result<State, Violation>
    decreases k,
{
    if k == 0 {
        Ok(State::initial())
    } else {
        match replay(ops, (k - 1) as nat) {
            Ok(st) => match step(st, ops[k - 1]) {
                Ok(next) => Ok(next),
                Err(finding) => Err(Violation { op_index: (k - 1) as nat, finding }),
            },
            Err(v) => Err(v),
        }
    }
}

/// The verdict on a whole log.
pub open spec fn outcome(ops: Seq<Op>) -> Outcome {
    match replay(ops, ops.len()) {
        Ok(st) => Outcome::Valid { terminal: st.bindings },
        Err(v) => Outcome::Invalid {
            op_index: v.op_index,
            kind: v.finding.kind,
            subject: v.finding.subject,
        },
    }
}

} // verus!
