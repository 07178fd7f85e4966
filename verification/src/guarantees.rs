//! The guarantees of the discipline, each proved of every log: the verdict
//! names the first violation, a moved binding stays unusable, exclusive
//! borrows stay exclusive, a frame is exited once, and a borrow of a local
//! never reaches the caller.

use vstd::prelude::*;
use crate::model::{
    Binding, BindingState, Borrow, BorrowKind, ErrorKind, Finding, Op, Outcome, Place, Subject,
    CALLER_BINDING, ROOT_SCOPE,
};
use crate::rules::{
    active_in, active_in_below, active_on, count_active, count_active_below, dropped, exit_check,
    fresh_id, has_exclusive, lookup, outcome, owns, released, replay, state_of, step, State,
};
use crate::safety::{
    borrows_compatible, has_room, lemma_active_in_below, lemma_holder_from, lemma_lookup_below,
    lemma_lookup_by_names, lemma_owner_resolves, lemma_replay_well_formed, well_formed,
};

verus! {

// ------------------------------------------------------- replaying a prefix

/// A log that is legal up to `n` is legal up to every `k` before `n`.
pub proof fn lemma_prefix_is_legal(ops: Seq<Op>, k: nat, n: nat)
    requires
        k <= n,
        replay(ops, n) is Ok,
    ensures
        replay(ops, k) is Ok,
    decreases n,
{
    if k < n {
        lemma_prefix_is_legal(ops, k, (n - 1) as nat);
    }
}

/// A violation that a replay reports is the first one: every operation
/// before it is legal, and the operation it names is not.
pub proof fn lemma_violation_is_first(ops: Seq<Op>, n: nat)
    requires
        replay(ops, n) is Err,
    ensures
        replay(ops, n)->Err_0.op_index < n,
        replay(ops, replay(ops, n)->Err_0.op_index) is Ok,
        step(
            replay(ops, replay(ops, n)->Err_0.op_index)->Ok_0,
            ops[replay(ops, n)->Err_0.op_index as int],
        ) == Err::<State, Finding>(replay(ops, n)->Err_0.finding),
    decreases n,
{
    if replay(ops, (n - 1) as nat) is Err {
        lemma_violation_is_first(ops, (n - 1) as nat);
    }
}

/// Fail fast. A verdict of invalid names the first operation of the log
/// that breaks a rule, and the finding is what that operation gets in the
/// state that the operations before it lead to. A verdict of valid means
/// that every operation of the log is legal.
pub proof fn lemma_verdict_is_first_violation(ops: Seq<Op>)
    ensures
        match outcome(ops) {
            Outcome::Invalid { op_index, kind, subject } => {
                &&& op_index < ops.len()
                &&& replay(ops, op_index) is Ok
                &&& step(replay(ops, op_index)->Ok_0, ops[op_index as int]) == Err::<
                    State,
                    Finding,
                >(Finding { kind, subject })
            },
            Outcome::Valid { terminal } => forall|k: nat|
                k <= ops.len() ==> (#[trigger] replay(ops, k)) is Ok,
        },
{
    if replay(ops, ops.len()) is Err {
        lemma_violation_is_first(ops, ops.len());
    } else {
        assert forall|k: nat| k <= ops.len() implies (#[trigger] replay(ops, k)) is Ok by {
            lemma_prefix_is_legal(ops, k, ops.len());
        }
    }
}

/// What a replay of the first `k` operations yields depends on those
/// operations alone: nothing after them is looked at.
pub proof fn lemma_replay_reads_prefix(a: Seq<Op>, b: Seq<Op>, k: nat)
    requires
        k <= a.len(),
        k <= b.len(),
        forall|j: int| 0 <= j < k ==> a[j] == b[j],
    ensures
        replay(a, k) == replay(b, k),
    decreases k,
{
    if k > 0 {
        lemma_replay_reads_prefix(a, b, (k - 1) as nat);
    }
}

// ------------------------------------------------------------ legal accesses

/// A binding can be read and written only while it owns a handle: a use of
/// a binding that was moved out, dropped or never initialized is refused.
pub proof fn lemma_access_needs_owner(st: State, name: u64)
    ensures
        step(st, Op::Read { place: Place::Binding(name) }) is Ok ==> state_of(st.bindings, name)
            is Owning,
        step(st, Op::Write { place: Place::Binding(name) }) is Ok ==> state_of(st.bindings, name)
            is Owning,
        !(state_of(st.bindings, name) is Owning) ==> step(
            st,
            Op::Read { place: Place::Binding(name) },
        ) == Err::<State, Finding>(use_after_move(name)) && step(
            st,
            Op::Write { place: Place::Binding(name) },
        ) == Err::<State, Finding>(use_after_move(name)),
{
}

/// A write through a borrow is legal only if the slot holds an active
/// exclusive borrow.
pub proof fn lemma_write_needs_exclusive(st: State, slot: u64)
    ensures
        step(st, Op::Write { place: Place::Borrow(slot) }) is Ok <==> (active_in(st.borrows, slot)
            matches Some(i) && st.borrows[i].active && st.borrows[i].kind is Exclusive),
{
    lemma_active_in_below(st.borrows, slot, st.borrows.len() as int);
}

// ------------------------------------------------------- borrow exclusivity

/// If borrows of one kind are counted on a handle, one of them can be shown.
proof fn lemma_counted_borrow(bw: Seq<Borrow>, target: usize, kind: BorrowKind, k: int)
    requires
        0 <= k <= bw.len(),
        count_active_below(bw, target, kind, k) > 0,
    ensures
        exists|j: int| 0 <= j < k && #[trigger] active_on(bw, j, target) && bw[j].kind == kind,
    decreases k,
{
    if active_on(bw, k - 1, target) && bw[k - 1].kind == kind {
    } else {
        lemma_counted_borrow(bw, target, kind, k - 1);
    }
}

/// Among compatible borrows, at most one exclusive borrow of a handle is
/// counted below any point.
proof fn lemma_one_exclusive(bw: Seq<Borrow>, target: usize, k: int)
    requires
        0 <= k <= bw.len(),
        borrows_compatible(bw),
    ensures
        count_active_below(bw, target, BorrowKind::Exclusive, k) <= 1,
    decreases k,
{
    if k > 0 {
        lemma_one_exclusive(bw, target, k - 1);
        if active_on(bw, k - 1, target) && bw[k - 1].kind == BorrowKind::Exclusive
            && count_active_below(bw, target, BorrowKind::Exclusive, k - 1) > 0 {
            lemma_counted_borrow(bw, target, BorrowKind::Exclusive, k - 1);
            let j = choose|j: int|
                0 <= j < k - 1 && #[trigger] active_on(bw, j, target) && bw[j].kind
                    == BorrowKind::Exclusive;
            assert(active_on(bw, j, target) && active_on(bw, k - 1, target));
        }
    }
}

/// In a well-formed state a handle has at most one active exclusive borrow,
/// and none while a shared borrow of it is active.
pub proof fn lemma_exclusive_or_shared(st: State, target: usize)
    requires
        well_formed(st),
    ensures
        count_active(st.borrows, target, BorrowKind::Exclusive) <= 1,
        count_active(st.borrows, target, BorrowKind::Shared) > 0 ==> count_active(
            st.borrows,
            target,
            BorrowKind::Exclusive,
        ) == 0,
{
    let bw = st.borrows;
    let n = bw.len() as int;
    lemma_one_exclusive(bw, target, n);
    if count_active(bw, target, BorrowKind::Shared) > 0 && count_active(
        bw,
        target,
        BorrowKind::Exclusive,
    ) > 0 {
        lemma_counted_borrow(bw, target, BorrowKind::Shared, n);
        lemma_counted_borrow(bw, target, BorrowKind::Exclusive, n);
        let i = choose|j: int|
            0 <= j < n && #[trigger] active_on(bw, j, target) && bw[j].kind == BorrowKind::Shared;
        let j = choose|j: int|
            0 <= j < n && #[trigger] active_on(bw, j, target) && bw[j].kind
                == BorrowKind::Exclusive;
        assert(active_on(bw, i, target) && active_on(bw, j, target));
    }
}

/// Borrow exclusivity. However a log interleaves borrows and releases, after
/// each of its operations every handle has at most one active exclusive
/// borrow, and no active exclusive borrow while a shared one is active.
pub proof fn lemma_borrow_exclusivity(ops: Seq<Op>, k: nat, target: usize)
    requires
        k <= ops.len() <= usize::MAX,
        replay(ops, k) is Ok,
    ensures
        count_active(replay(ops, k)->Ok_0.borrows, target, BorrowKind::Exclusive) <= 1,
        count_active(replay(ops, k)->Ok_0.borrows, target, BorrowKind::Shared) > 0
            ==> count_active(replay(ops, k)->Ok_0.borrows, target, BorrowKind::Exclusive) == 0,
{
    lemma_replay_well_formed(ops, k);
    lemma_exclusive_or_shared(replay(ops, k)->Ok_0, target);
}

/// Releasing a slot twice is releasing it once.
pub proof fn lemma_release_idempotent(bw: Seq<Borrow>, slot: u64)
    ensures
        released(released(bw, slot), slot) == released(bw, slot),
        active_in(released(bw, slot), slot) is None,
{
    assert(released(released(bw, slot), slot) =~= released(bw, slot));
    lemma_active_in_below(released(bw, slot), slot, bw.len() as int);
}

// ---------------------------------------------------------- move exclusivity

/// `op` binds `name` anew, so that the name denotes another binding from
/// then on.
pub open spec fn binds(op: Op, name: u64) -> bool {
    match op {
        Op::Declare { name: n, .. } => n == name,
        Op::Move { dst, .. } => dst == name,
        Op::Clone { dst, .. } => dst == name,
        Op::Return { place: Place::Binding(_) } => name == CALLER_BINDING,
        _ => false,
    }
}

/// The finding that a use of the moved-out binding `name` gets.
pub open spec fn use_after_move(name: u64) -> Finding {
    Finding { kind: ErrorKind::UseAfterMove, subject: Subject::Binding(name) }
}

/// Move exclusivity, at the move. After the linear binding `a` was moved
/// into another binding `b`, a read of `a` is refused as a use after move,
/// and `b` can be read, unless the handle was exclusively borrowed when it
/// moved.
pub proof fn lemma_move_exclusivity(st: State, a: u64, b: u64)
    requires
        a != b,
        state_of(st.bindings, a) is Owning,
        state_of(st.bindings, a)->Owning_0.linear,
    ensures
        step(st, Op::Move { src: a, dst: b }) is Ok,
        state_of(step(st, Op::Move { src: a, dst: b })->Ok_0.bindings, a) is MovedOut,
        step(step(st, Op::Move { src: a, dst: b })->Ok_0, Op::Read { place: Place::Binding(a) })
            == Err::<State, Finding>(use_after_move(a)),
        !has_exclusive(st.borrows, state_of(st.bindings, a)->Owning_0.id) ==> step(
            step(st, Op::Move { src: a, dst: b })->Ok_0,
            Op::Read { place: Place::Binding(b) },
        ) == Ok::<State, Finding>(step(st, Op::Move { src: a, dst: b })->Ok_0),
{
    let bs = st.bindings;
    lemma_owner_resolves(bs, a);
    let i = lookup(bs, a)->0;
    let h = state_of(bs, a)->Owning_0;
    let next = step(st, Op::Move { src: a, dst: b })->Ok_0;
    let nb = next.bindings;
    let n = bs.len() as int;
    assert(nb.len() == n + 1 && nb[n].name == b && nb[n].state == BindingState::Owning(h));
    assert(nb[i].state is MovedOut);
    lemma_lookup_by_names(nb, bs, a, n);
    assert(lookup(nb, a) == Some(i));
    assert(lookup(nb, b) == Some(n));
}

/// A moved-out binding stays moved-out under every legal operation that
/// does not bind its name anew.
pub proof fn lemma_moved_out_stays(st: State, op: Op, a: u64)
    requires
        state_of(st.bindings, a) is MovedOut,
        !binds(op, a),
        step(st, op) is Ok,
    ensures
        state_of(step(st, op)->Ok_0.bindings, a) is MovedOut,
{
    let bs = st.bindings;
    let n = bs.len() as int;
    let nb = step(st, op)->Ok_0.bindings;
    lemma_lookup_below(bs, a, n);
    let ia = lookup(bs, a)->0;
    match op {
        Op::Move { src, dst } => {
            lemma_owner_resolves(bs, src);
            lemma_lookup_by_names(nb, bs, a, n);
        },
        Op::Return { place } => match place {
            Place::Binding(name) => {
                lemma_owner_resolves(bs, name);
                lemma_lookup_by_names(nb, bs, a, n);
            },
            Place::Borrow(slot) => {},
        },
        Op::Declare { name, linear, len } => {
            lemma_lookup_by_names(nb, bs, a, n);
        },
        Op::Clone { src, dst } => {
            lemma_lookup_by_names(nb, bs, a, n);
        },
        Op::ExitScope { scope } => {
            lemma_lookup_by_names(nb, bs, a, n);
        },
        _ => {},
    }
}

/// Move exclusivity, for good. Once a log has moved the linear binding `a`
/// into another binding, every later read of `a` is refused as a use after
/// move, whatever legal operations came in between, as long as none of them
/// bound the name `a` anew.
pub proof fn lemma_use_after_move(ops: Seq<Op>, k: nat, n: nat, a: u64, b: u64)
    requires
        k < n <= ops.len(),
        replay(ops, n) is Ok,
        ops[k as int] == (Op::Move { src: a, dst: b }),
        a != b,
        state_of(replay(ops, k)->Ok_0.bindings, a) is Owning,
        state_of(replay(ops, k)->Ok_0.bindings, a)->Owning_0.linear,
        forall|j: int| k < j < n ==> !binds(#[trigger] ops[j], a),
    ensures
        state_of(replay(ops, n)->Ok_0.bindings, a) is MovedOut,
        step(replay(ops, n)->Ok_0, Op::Read { place: Place::Binding(a) }) == Err::<State, Finding>(
            use_after_move(a),
        ),
    decreases n,
{
    lemma_prefix_is_legal(ops, k, n);
    lemma_prefix_is_legal(ops, (n - 1) as nat, n);
    if n == k + 1 {
        lemma_move_exclusivity(replay(ops, k)->Ok_0, a, b);
    } else {
        lemma_use_after_move(ops, k, (n - 1) as nat, a, b);
        lemma_moved_out_stays(replay(ops, (n - 1) as nat)->Ok_0, ops[n - 1], a);
    }
}

// ------------------------------------------------------ scope-drop idempotence

/// Frame `scope` was entered and exited: its id was handed out and it is
/// not open.
pub open spec fn retired(st: State, scope: u64) -> bool {
    scope <= st.entered && !st.scopes.contains(scope)
}

/// The finding that a request to exit a frame that is not the innermost
/// open one gets.
pub open spec fn scope_mismatch(scope: u64) -> Finding {
    Finding { kind: ErrorKind::ScopeMismatch, subject: Subject::Scope(scope) }
}

/// Dropping what a frame owns twice is dropping it once.
pub proof fn lemma_drop_idempotent(bs: Seq<Binding>, scope: u64)
    ensures
        dropped(dropped(bs, scope), scope) == dropped(bs, scope),
{
    assert(dropped(dropped(bs, scope), scope) =~= dropped(bs, scope));
}

/// A frame that was exited is retired.
pub proof fn lemma_exit_retires(st: State, scope: u64)
    requires
        well_formed(st),
        step(st, Op::ExitScope { scope }) is Ok,
    ensures
        retired(step(st, Op::ExitScope { scope })->Ok_0, scope),
{
    let next = step(st, Op::ExitScope { scope })->Ok_0;
    let n = st.scopes.len() as int;
    assert(st.scopes[n - 1] == scope);
    if next.scopes.contains(scope) {
        let i = choose|i: int| 0 <= i < next.scopes.len() && next.scopes[i] == scope;
        assert(st.scopes[i] < st.scopes[n - 1]);
    }
}

/// A retired frame stays retired: ids are not handed out twice.
pub proof fn lemma_retired_stays(st: State, op: Op, scope: u64)
    requires
        has_room(st),
        retired(st, scope),
        step(st, op) is Ok,
    ensures
        retired(step(st, op)->Ok_0, scope),
{
    let next = step(st, op)->Ok_0;
    match op {
        Op::Move { src, dst } => {},
        Op::EnterScope => {
            if next.scopes.contains(scope) {
                let i = choose|i: int| 0 <= i < next.scopes.len() && next.scopes[i] == scope;
                if i < st.scopes.len() {
                    assert(st.scopes[i] == scope);
                }
            }
        },
        Op::ExitScope { scope: s } => {
            if next.scopes.contains(scope) {
                let i = choose|i: int| 0 <= i < next.scopes.len() && next.scopes[i] == scope;
                assert(st.scopes[i] == scope);
            }
        },
        _ => {},
    }
}

/// A retired frame cannot be exited.
pub proof fn lemma_retired_cannot_exit(st: State, scope: u64)
    requires
        retired(st, scope),
    ensures
        step(st, Op::ExitScope { scope }) == Err::<State, Finding>(scope_mismatch(scope)),
{
    if exit_check(st.scopes, scope) {
        assert(st.scopes[st.scopes.len() - 1] == scope);
    }
}

/// Scope-drop idempotence. A frame is exited at most once: after a log has
/// exited frame `scope`, every later request to exit it is refused as a
/// scope mismatch, whatever legal operations came in between. A refused
/// operation changes nothing, so nothing the frame owned is dropped twice.
pub proof fn lemma_exit_once(ops: Seq<Op>, k: nat, n: nat, scope: u64)
    requires
        k < n <= ops.len() <= usize::MAX,
        replay(ops, n) is Ok,
        ops[k as int] == (Op::ExitScope { scope }),
    ensures
        retired(replay(ops, n)->Ok_0, scope),
        step(replay(ops, n)->Ok_0, Op::ExitScope { scope }) == Err::<State, Finding>(
            scope_mismatch(scope),
        ),
    decreases n,
{
    lemma_prefix_is_legal(ops, k, n);
    lemma_prefix_is_legal(ops, (n - 1) as nat, n);
    let before = replay(ops, (n - 1) as nat)->Ok_0;
    lemma_replay_well_formed(ops, (n - 1) as nat);
    if n == k + 1 {
        lemma_exit_retires(before, scope);
    } else {
        lemma_exit_once(ops, k, (n - 1) as nat, scope);
        lemma_retired_stays(before, ops[n - 1], scope);
    }
    lemma_retired_cannot_exit(replay(ops, n)->Ok_0, scope);
}

// -------------------------------------------------------- dangling prevention

/// `op` creates a borrow in `slot`.
pub open spec fn lends_into(op: Op, slot: u64) -> bool {
    match op {
        Op::BorrowShared { slot: s, .. } => s == slot,
        Op::BorrowExclusive { slot: s, .. } => s == slot,
        _ => false,
    }
}

/// The id of the handle that `op` lends into `slot` when it is applied to
/// `st`, if `op` is a borrow into that slot of a binding that owns a handle.
pub open spec fn lent_handle(st: State, op: Op, slot: u64) -> Option<usize> {
    match op {
        Op::BorrowShared { target, slot: s, .. } if s == slot => match state_of(
            st.bindings,
            target,
        ) {
            BindingState::Owning(h) => Some(h.id),
            _ => None,
        },
        Op::BorrowExclusive { target, slot: s, .. } if s == slot => match state_of(
            st.bindings,
            target,
        ) {
            BindingState::Owning(h) => Some(h.id),
            _ => None,
        },
        _ => None,
    }
}

/// `op` ends a frame or hands a binding to the caller.
pub open spec fn leaves(op: Op) -> bool {
    op is ExitScope || (op matches Op::Return { place } && place is Binding)
}

/// Handle `id` is a local: a frame other than the caller's is open, and
/// whatever owns the handle was bound in such a frame.
pub open spec fn is_local(st: State, id: usize) -> bool {
    &&& st.current() != ROOT_SCOPE
    &&& forall|i: int| owns(st.bindings, i, id) ==> st.bindings[i].scope != ROOT_SCOPE
}

/// If `slot` holds a borrow, it is a borrow of handle `id`.
pub open spec fn holds_only(bw: Seq<Borrow>, slot: u64, id: usize) -> bool {
    match active_in(bw, slot) {
        Some(i) => bw[i].target == id,
        None => true,
    }
}

/// Two borrow lists that agree on what `slot` holds resolve the slot to the
/// same borrow.
proof fn lemma_active_in_by_slot(a: Seq<Borrow>, b: Seq<Borrow>, slot: u64, k: int)
    requires
        0 <= k <= a.len(),
        k <= b.len(),
        forall|j: int|
            0 <= j < k ==> (a[j].slot == slot && a[j].active) == (b[j].slot == slot
                && b[j].active),
    ensures
        active_in_below(a, slot, k) == active_in_below(b, slot, k),
    decreases k,
{
    if k > 0 {
        lemma_active_in_by_slot(a, b, slot, k - 1);
    }
}

/// A resource declared while a frame other than the caller's is open is a
/// local.
pub proof fn lemma_declared_is_local(st: State, name: u64, linear: bool, len: u64)
    requires
        well_formed(st),
        has_room(st),
        st.current() != ROOT_SCOPE,
    ensures
        is_local(step(st, Op::Declare { name, linear, len })->Ok_0, fresh_id(st.bindings)),
{
    let next = step(st, Op::Declare { name, linear, len })->Ok_0;
    let id = fresh_id(st.bindings);
    assert forall|i: int| owns(next.bindings, i, id) implies next.bindings[i].scope
        != ROOT_SCOPE by {
        if i < st.bindings.len() {
            assert(owns(st.bindings, i, id));
        }
    }
}

/// A local stays a local as long as no frame is exited and no binding is
/// handed to the caller.
pub proof fn lemma_local_stays(st: State, op: Op, id: usize)
    requires
        has_room(st),
        is_local(st, id),
        !leaves(op),
        step(st, op) is Ok,
    ensures
        is_local(step(st, op)->Ok_0, id),
{
    let next = step(st, op)->Ok_0;
    let bs = st.bindings;
    match op {
        Op::Move { src, dst } => {
            lemma_owner_resolves(bs, src);
            assert forall|i: int| owns(next.bindings, i, id) implies next.bindings[i].scope
                != ROOT_SCOPE by {
                if i < bs.len() {
                    assert(owns(bs, i, id));
                }
            }
        },
        Op::Declare { name, linear, len } => {
            assert forall|i: int| owns(next.bindings, i, id) implies next.bindings[i].scope
                != ROOT_SCOPE by {
                if i < bs.len() {
                    assert(owns(bs, i, id));
                }
            }
        },
        Op::Clone { src, dst } => {
            assert forall|i: int| owns(next.bindings, i, id) implies next.bindings[i].scope
                != ROOT_SCOPE by {
                if i < bs.len() {
                    assert(owns(bs, i, id));
                }
            }
        },
        _ => {},
    }
}

/// What a slot holds changes only when a borrow is created in it, when it
/// is released, or when a frame is exited.
pub proof fn lemma_holding_stays(st: State, op: Op, slot: u64, id: usize)
    requires
        holds_only(st.borrows, slot, id),
        !lends_into(op, slot),
        !(op is ExitScope),
        step(st, op) is Ok,
    ensures
        holds_only(step(st, op)->Ok_0.borrows, slot, id),
{
    let bw = st.borrows;
    let nw = step(st, op)->Ok_0.borrows;
    let n = bw.len() as int;
    lemma_active_in_below(bw, slot, n);
    match op {
        Op::BorrowShared { target, slot: s, span } => {
            lemma_active_in_by_slot(nw, bw, slot, n);
        },
        Op::BorrowExclusive { target, slot: s, span } => {
            lemma_active_in_by_slot(nw, bw, slot, n);
        },
        Op::Release { slot: s } => {
            if s == slot {
                lemma_release_idempotent(bw, slot);
            } else {
                lemma_active_in_by_slot(nw, bw, slot, n);
            }
        },
        _ => {},
    }
}

/// The borrow held in a slot cannot be handed to the caller while it is a
/// borrow of a local, and neither can a slot that holds nothing.
pub proof fn lemma_local_borrow_dangles(st: State, slot: u64, id: usize)
    requires
        is_local(st, id),
        holds_only(st.borrows, slot, id),
    ensures
        step(st, Op::Return { place: Place::Borrow(slot) }) is Err,
        step(st, Op::Return { place: Place::Borrow(slot) })->Err_0.kind
            == ErrorKind::DanglingReference,
{
    lemma_holder_from(st.bindings, id, 0);
}

/// After a log has declared a resource inside a frame other than the
/// caller's, the resource is a local for as long as no frame is exited and
/// no binding is handed to the caller.
proof fn lemma_local_until(ops: Seq<Op>, d: nat, n: nat)
    requires
        d < n <= ops.len() <= usize::MAX,
        replay(ops, n) is Ok,
        ops[d as int] is Declare,
        replay(ops, d)->Ok_0.current() != ROOT_SCOPE,
        forall|j: int| d < j < n ==> !leaves(#[trigger] ops[j]),
    ensures
        is_local(replay(ops, n)->Ok_0, fresh_id(replay(ops, d)->Ok_0.bindings)),
    decreases n,
{
    lemma_prefix_is_legal(ops, d, n);
    lemma_prefix_is_legal(ops, (n - 1) as nat, n);
    lemma_replay_well_formed(ops, (n - 1) as nat);
    let before = replay(ops, (n - 1) as nat)->Ok_0;
    if n == d + 1 {
        let op = ops[d as int];
        lemma_declared_is_local(before, op->Declare_name, op->Declare_linear, op->Declare_len);
    } else {
        lemma_local_until(ops, d, (n - 1) as nat);
        lemma_local_stays(before, ops[n - 1], fresh_id(replay(ops, d)->Ok_0.bindings));
    }
}

/// After a log has lent handle `id` into `slot`, the slot holds a borrow of
/// that handle or nothing, for as long as no other borrow is created in it
/// and no frame is exited.
proof fn lemma_held_until(ops: Seq<Op>, b: nat, n: nat, slot: u64, id: usize)
    requires
        b < n <= ops.len(),
        replay(ops, n) is Ok,
        lent_handle(replay(ops, b)->Ok_0, ops[b as int], slot) == Some(id),
        forall|j: int| b < j < n ==> !lends_into(#[trigger] ops[j], slot) && !(ops[j] is ExitScope),
    ensures
        holds_only(replay(ops, n)->Ok_0.borrows, slot, id),
    decreases n,
{
    lemma_prefix_is_legal(ops, b, n);
    lemma_prefix_is_legal(ops, (n - 1) as nat, n);
    let before = replay(ops, (n - 1) as nat)->Ok_0;
    if n == b + 1 {
        let after = replay(ops, n)->Ok_0;
        assert(after.borrows.len() == before.borrows.len() + 1);
        assert(after.borrows.last().slot == slot && after.borrows.last().active
            && after.borrows.last().target == id);
    } else {
        lemma_held_until(ops, b, (n - 1) as nat, slot, id);
        lemma_holding_stays(before, ops[n - 1], slot, id);
    }
}

/// Dangling prevention. Take a log that declares a resource inside a frame
/// other than the caller's at `d`, lends it into `slot` at `b`, and returns
/// what `slot` holds at `r`, where no frame is exited and no binding is
/// handed to the caller between `d` and `r`, and no other borrow is created
/// in `slot` between `b` and `r`. If the log is legal up to `r`, the return
/// is refused as a dangling reference.
pub proof fn lemma_dangling_prevention(ops: Seq<Op>, d: nat, b: nat, r: nat, slot: u64)
    requires
        d < b < r < ops.len() <= usize::MAX,
        replay(ops, r) is Ok,
        ops[d as int] is Declare,
        replay(ops, d)->Ok_0.current() != ROOT_SCOPE,
        lent_handle(replay(ops, b)->Ok_0, ops[b as int], slot) == Some(
            fresh_id(replay(ops, d)->Ok_0.bindings),
        ),
        ops[r as int] == (Op::Return { place: Place::Borrow(slot) }),
        forall|j: int| d < j < r ==> !leaves(#[trigger] ops[j]),
        forall|j: int| b < j < r ==> !lends_into(#[trigger] ops[j], slot),
    ensures
        replay(ops, r + 1) is Err,
        replay(ops, r + 1)->Err_0.op_index == r,
        replay(ops, r + 1)->Err_0.finding.kind == ErrorKind::DanglingReference,
{
    let id = fresh_id(replay(ops, d)->Ok_0.bindings);
    lemma_local_until(ops, d, r);
    lemma_held_until(ops, b, r, slot, id);
    lemma_local_borrow_dangles(replay(ops, r)->Ok_0, slot, id);
}

} // verus!
