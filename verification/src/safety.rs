//! What every state that the verifier can reach has in common, and what
//! follows from it: the guarantees of the move and borrow discipline.

use vstd::prelude::*;
use crate::model::{
    Binding, BindingState, Borrow, BorrowKind, Op, Place, ResourceHandle, Span, CALLER_BINDING,
    ROOT_SCOPE,
};
use crate::rules::{
    active_in_below, active_on, borrow_step, borrowed_in, bound, duplicate, enter_step, exit_step,
    first_borrowed_from, fresh_id, has_active, holder_from, lent, lookup, lookup_below, move_step,
    owns, released, replay, state_of, step, State,
};

verus! {

// ------------------------------------------------------------ the invariant

/// The caller's frame is the outermost one, and frame ids grow towards the
/// innermost frame and were all handed out already.
pub open spec fn frames_ordered(scopes: Seq<u64>, entered: nat) -> bool {
    &&& scopes.len() >= 1
    &&& scopes[0] == ROOT_SCOPE
    &&& forall|i: int, j: int| 0 <= i < j < scopes.len() ==> scopes[i] < scopes[j]
    &&& forall|i: int| 0 <= i < scopes.len() ==> scopes[i] <= entered
}

/// No binding owns a handle that was minted after the binding was made.
pub open spec fn handles_minted(bs: Seq<Binding>) -> bool {
    forall|i: int, t: usize| owns(bs, i, t) ==> t <= i
}

/// No handle has two owners.
pub open spec fn single_owner(bs: Seq<Binding>) -> bool {
    forall|i: int, j: int, t: usize| owns(bs, i, t) && owns(bs, j, t) ==> i == j
}

/// Whatever owns a handle was bound in a frame that is still open.
pub open spec fn owners_in_open_frames(bs: Seq<Binding>, scopes: Seq<u64>) -> bool {
    forall|i: int, t: usize| owns(bs, i, t) ==> scopes.contains(bs[i].scope)
}

/// Two active borrows of one handle are both shared.
pub open spec fn borrows_compatible(bw: Seq<Borrow>) -> bool {
    forall|i: int, j: int, t: usize|
        i != j && active_on(bw, i, t) && active_on(bw, j, t) ==> bw[i].kind is Shared
            && bw[j].kind is Shared
}

/// Every active borrow was created in a frame that is still open, and views
/// a handle that is still owned.
pub open spec fn borrows_alive(st: State) -> bool {
    forall|k: int, t: usize|
        active_on(st.borrows, k, t) ==> st.scopes.contains(st.borrows[k].scope) && exists|i: int|
            owns(st.bindings, i, t)
}

/// The invariant of the verifier: it holds before the first operation and
/// every legal operation keeps it.
pub open spec fn well_formed(st: State) -> bool {
    &&& frames_ordered(st.scopes, st.entered)
    &&& handles_minted(st.bindings)
    &&& single_owner(st.bindings)
    &&& owners_in_open_frames(st.bindings, st.scopes)
    &&& borrows_compatible(st.borrows)
    &&& borrows_alive(st)
}

/// The state has room for one more operation: neither handle ids nor frame
/// ids are used up.
pub open spec fn has_room(st: State) -> bool {
    st.bindings.len() < usize::MAX && st.entered < u64::MAX
}

// ------------------------------------------------- facts about the searches

/// What `lookup_below` finds is the latest binding of the name below `k`.
pub proof fn lemma_lookup_below(bs: Seq<Binding>, name: u64, k: int)
    requires
        0 <= k <= bs.len(),
    ensures
        match lookup_below(bs, name, k) {
            Some(i) => 0 <= i < k && bs[i].name == name && forall|j: int|
                i < j < k ==> bs[j].name != name,
            None => forall|j: int| 0 <= j < k ==> bs[j].name != name,
        },
    decreases k,
{
    if k > 0 && bs[k - 1].name != name {
        lemma_lookup_below(bs, name, k - 1);
    }
}

/// Two tables that bind the same names in the same order resolve every name
/// to the same entry.
pub proof fn lemma_lookup_by_names(a: Seq<Binding>, b: Seq<Binding>, name: u64, k: int)
    requires
        0 <= k <= a.len(),
        k <= b.len(),
        forall|j: int| 0 <= j < k ==> a[j].name == b[j].name,
    ensures
        lookup_below(a, name, k) == lookup_below(b, name, k),
    decreases k,
{
    if k > 0 {
        lemma_lookup_by_names(a, b, name, k - 1);
    }
}

/// What `holder_from` finds is the first owner of the handle from `k` on.
pub proof fn lemma_holder_from(bs: Seq<Binding>, target: usize, k: int)
    requires
        0 <= k,
    ensures
        match holder_from(bs, target, k) {
            Some(i) => k <= i && owns(bs, i, target),
            None => forall|j: int| k <= j ==> !owns(bs, j, target),
        },
    decreases bs.len() - k,
{
    if k < bs.len() && !owns(bs, k, target) {
        lemma_holder_from(bs, target, k + 1);
    }
}

/// What `first_borrowed_from` finds is the first binding of the frame, from
/// `k` on, whose handle is still borrowed.
pub proof fn lemma_first_borrowed_from(bs: Seq<Binding>, bw: Seq<Borrow>, scope: u64, k: int)
    requires
        0 <= k,
    ensures
        match first_borrowed_from(bs, bw, scope, k) {
            Some(i) => k <= i && borrowed_in(bs, bw, scope, i),
            None => forall|j: int| k <= j ==> !borrowed_in(bs, bw, scope, j),
        },
    decreases bs.len() - k,
{
    if k < bs.len() && !borrowed_in(bs, bw, scope, k) {
        lemma_first_borrowed_from(bs, bw, scope, k + 1);
    }
}

/// What `active_in_below` finds is the latest active borrow of the slot
/// below `k`.
pub proof fn lemma_active_in_below(bw: Seq<Borrow>, slot: u64, k: int)
    requires
        0 <= k <= bw.len(),
    ensures
        match active_in_below(bw, slot, k) {
            Some(i) => 0 <= i < k && bw[i].slot == slot && bw[i].active,
            None => forall|j: int| 0 <= j < k ==> !(bw[j].slot == slot && bw[j].active),
        },
    decreases k,
{
    if k > 0 && !(bw[k - 1].slot == slot && bw[k - 1].active) {
        lemma_active_in_below(bw, slot, k - 1);
    }
}

/// A name that owns a handle resolves to an entry of the table.
pub proof fn lemma_owner_resolves(bs: Seq<Binding>, name: u64)
    requires
        state_of(bs, name) is Owning,
    ensures
        lookup(bs, name) is Some,
        owns(bs, lookup(bs, name)->0, state_of(bs, name)->Owning_0.id),
        bs[lookup(bs, name)->0].name == name,
{
    lemma_lookup_below(bs, name, bs.len() as int);
}

// ------------------------------------------------ each operation keeps it

/// Binding a handle that nothing owns yet, in an open frame, keeps the
/// invariant.
proof fn lemma_bind_keeps(st: State, name: u64, scope: u64, h: ResourceHandle)
    requires
        well_formed(st),
        st.scopes.contains(scope),
        h.id <= st.bindings.len(),
        forall|i: int| !owns(st.bindings, i, h.id),
    ensures
        well_formed(State { bindings: bound(st.bindings, name, scope, h), ..st }),
{
    let bs = st.bindings;
    let nb = bound(bs, name, scope, h);
    let next = State { bindings: nb, ..st };
    assert forall|i: int, t: usize| owns(nb, i, t) implies t <= i && next.scopes.contains(
        nb[i].scope,
    ) by {
        if i < bs.len() {
            assert(owns(bs, i, t));
        }
    }
    assert forall|i: int, j: int, t: usize| owns(nb, i, t) && owns(nb, j, t) implies i == j by {
        if i < bs.len() {
            assert(owns(bs, i, t));
        }
        if j < bs.len() {
            assert(owns(bs, j, t));
        }
    }
    assert forall|k: int, t: usize| active_on(next.borrows, k, t) implies next.scopes.contains(
        next.borrows[k].scope,
    ) && exists|i: int| owns(nb, i, t) by {
        assert(active_on(st.borrows, k, t));
        let i = choose|i: int| owns(bs, i, t);
        assert(owns(nb, i, t));
    }
}

/// A legal move into an open frame keeps the invariant: the handle changes
/// its owner, and a duplicate is new.
proof fn lemma_move_keeps(st: State, src: u64, dst: u64, scope: u64)
    requires
        well_formed(st),
        has_room(st),
        st.scopes.contains(scope),
        move_step(st, src, dst, scope) is Ok,
    ensures
        well_formed(move_step(st, src, dst, scope)->Ok_0),
{
    let bs = st.bindings;
    lemma_owner_resolves(bs, src);
    let h = state_of(bs, src)->Owning_0;
    let i0 = lookup(bs, src)->0;
    if h.linear {
        let vacated = bs.update(i0, Binding { state: BindingState::MovedOut, ..bs[i0] });
        assert forall|i: int, t: usize| owns(vacated, i, t) implies owns(bs, i, t) by {}
        assert forall|i: int| !owns(vacated, i, h.id) by {
            if owns(vacated, i, h.id) {
                assert(owns(bs, i, h.id));
                assert(owns(bs, i0, h.id));
            }
        }
        let nb = bound(vacated, dst, scope, h);
        let next = State { bindings: nb, ..st };
        assert forall|i: int, t: usize| owns(nb, i, t) implies t <= i && next.scopes.contains(
            nb[i].scope,
        ) by {
            if i < bs.len() {
                assert(owns(bs, i, t));
            } else {
                assert(owns(bs, i0, h.id));
            }
        }
        assert forall|i: int, j: int, t: usize| owns(nb, i, t) && owns(nb, j, t) implies i
            == j by {
            if i < bs.len() {
                assert(owns(vacated, i, t));
            }
            if j < bs.len() {
                assert(owns(vacated, j, t));
            }
        }
        assert forall|k: int, t: usize| active_on(next.borrows, k, t) implies next.scopes.contains(
            next.borrows[k].scope,
        ) && exists|i: int| owns(nb, i, t) by {
            assert(active_on(st.borrows, k, t));
            let i = choose|i: int| owns(bs, i, t);
            if i == i0 {
                assert(owns(bs, i0, h.id));
                assert(owns(nb, bs.len() as int, t));
            } else {
                assert(owns(nb, i, t));
            }
        }
        assert(well_formed(next));
        assert(move_step(st, src, dst, scope)->Ok_0 == next);
    } else {
        lemma_fresh_is_unowned(st);
        let copy = duplicate(bs, h);
        lemma_bind_keeps(st, dst, scope, copy);
        assert(move_step(st, src, dst, scope)->Ok_0 == State {
            bindings: bound(bs, dst, scope, copy),
            ..st
        });
    }
}

/// The id that the next handle gets is not in use.
proof fn lemma_fresh_is_unowned(st: State)
    requires
        well_formed(st),
        has_room(st),
    ensures
        forall|i: int| !owns(st.bindings, i, fresh_id(st.bindings)),
        !has_active(st.borrows, fresh_id(st.bindings)),
{
    let id = fresh_id(st.bindings);
    assert forall|k: int| !active_on(st.borrows, k, id) by {
        if active_on(st.borrows, k, id) {
            let i = choose|i: int| owns(st.bindings, i, id);
            assert(owns(st.bindings, i, id));
        }
    }
}

/// A legal borrow keeps the invariant: it was checked against the borrows
/// that are active, and what it views is owned.
proof fn lemma_borrow_keeps(st: State, target: u64, slot: u64, kind: BorrowKind, span: Option<Span>)
    requires
        well_formed(st),
        borrow_step(st, target, slot, kind, span) is Ok,
    ensures
        well_formed(borrow_step(st, target, slot, kind, span)->Ok_0),
{
    let bw = st.borrows;
    lemma_owner_resolves(st.bindings, target);
    let h = state_of(st.bindings, target)->Owning_0;
    let next = State {
        borrows: lent(bw, slot, h, kind, st.current(), span),
        ..st
    };
    assert(borrow_step(st, target, slot, kind, span)->Ok_0 == next);
    let nw = next.borrows;
    let n = bw.len() as int;
    assert forall|i: int, j: int, t: usize|
        i != j && active_on(nw, i, t) && active_on(nw, j, t) implies nw[i].kind is Shared
        && nw[j].kind is Shared by {
        if i < n && j < n {
            assert(active_on(bw, i, t) && active_on(bw, j, t));
        } else {
            let o = if i < n {
                i
            } else {
                j
            };
            assert(active_on(bw, o, h.id));
        }
    }
    assert forall|k: int, t: usize| active_on(nw, k, t) implies next.scopes.contains(
        nw[k].scope,
    ) && exists|i: int| owns(next.bindings, i, t) by {
        if k < n {
            assert(active_on(bw, k, t));
            assert(st.scopes.contains(bw[k].scope));
            let i = choose|i: int| owns(st.bindings, i, t);
            assert(owns(next.bindings, i, t));
        } else {
            assert(owns(next.bindings, lookup(st.bindings, target)->0, h.id));
            assert(st.scopes[st.scopes.len() - 1] == st.current());
            assert(nw[k].scope == st.current());
            assert(next.scopes.contains(nw[k].scope));
        }
    }
}

/// A release keeps the invariant: it only ends borrows.
proof fn lemma_release_keeps(st: State, slot: u64)
    requires
        well_formed(st),
    ensures
        well_formed(State { borrows: released(st.borrows, slot), ..st }),
{
    let bw = st.borrows;
    let nw = released(bw, slot);
    let next = State { borrows: nw, ..st };
    assert forall|i: int, t: usize| active_on(nw, i, t) implies active_on(bw, i, t) && nw[i].kind
        == bw[i].kind && nw[i].scope == bw[i].scope by {}
    assert forall|i: int, j: int, t: usize|
        i != j && active_on(nw, i, t) && active_on(nw, j, t) implies nw[i].kind is Shared
        && nw[j].kind is Shared by {
        assert(active_on(bw, i, t) && active_on(bw, j, t));
    }
    assert forall|k: int, t: usize| active_on(nw, k, t) implies next.scopes.contains(
        nw[k].scope,
    ) && exists|i: int| owns(next.bindings, i, t) by {
        assert(active_on(bw, k, t));
        assert(st.scopes.contains(bw[k].scope));
        let i = choose|i: int| owns(st.bindings, i, t);
        assert(owns(next.bindings, i, t));
    }
}

/// Entering a frame keeps the invariant: the new id is larger than every
/// id handed out before.
proof fn lemma_enter_keeps(st: State)
    requires
        well_formed(st),
        has_room(st),
    ensures
        well_formed(enter_step(st)),
{
    let next = enter_step(st);
    let n = st.scopes.len() as int;
    assert forall|x: u64| st.scopes.contains(x) implies next.scopes.contains(x) by {
        let i = choose|i: int| 0 <= i < st.scopes.len() && st.scopes[i] == x;
        assert(next.scopes[i] == x);
    }
    assert forall|i: int, t: usize| owns(next.bindings, i, t) implies next.scopes.contains(
        next.bindings[i].scope,
    ) by {
        assert(st.scopes.contains(st.bindings[i].scope));
    }
    assert forall|k: int, t: usize| active_on(next.borrows, k, t) implies next.scopes.contains(
        next.borrows[k].scope,
    ) && exists|i: int| owns(next.bindings, i, t) by {
        assert(active_on(st.borrows, k, t));
        assert(st.scopes.contains(st.borrows[k].scope));
        let i = choose|i: int| owns(st.bindings, i, t);
        assert(owns(next.bindings, i, t));
    }
}

/// A legal exit keeps the invariant: nothing that the frame owned was still
/// borrowed, and the borrows created in it are over.
proof fn lemma_exit_keeps(st: State, scope: u64)
    requires
        well_formed(st),
        exit_step(st, scope) is Ok,
    ensures
        well_formed(exit_step(st, scope)->Ok_0),
{
    let next = exit_step(st, scope)->Ok_0;
    let bs = st.bindings;
    let bw = st.borrows;
    let nb = next.bindings;
    let nw = next.borrows;
    let n = st.scopes.len() as int;
    lemma_first_borrowed_from(bs, bw, scope, 0);
    assert forall|x: u64| st.scopes.contains(x) && x != scope implies next.scopes.contains(x) by {
        let i = choose|i: int| 0 <= i < st.scopes.len() && st.scopes[i] == x;
        assert(i < n - 1);
        assert(next.scopes[i] == x);
    }
    assert forall|i: int, t: usize| owns(nb, i, t) implies owns(bs, i, t) && bs[i].scope
        != scope && nb[i].scope == bs[i].scope by {}
    assert forall|i: int, t: usize| owns(nb, i, t) implies t <= i && next.scopes.contains(
        nb[i].scope,
    ) by {
        assert(owns(bs, i, t));
    }
    assert forall|i: int, j: int, t: usize| owns(nb, i, t) && owns(nb, j, t) implies i == j by {
        assert(owns(bs, i, t) && owns(bs, j, t));
    }
    assert forall|i: int, t: usize| active_on(nw, i, t) implies active_on(bw, i, t) && nw[i].kind
        == bw[i].kind && nw[i].scope == bw[i].scope && bw[i].scope != scope by {}
    assert forall|i: int, j: int, t: usize|
        i != j && active_on(nw, i, t) && active_on(nw, j, t) implies nw[i].kind is Shared
        && nw[j].kind is Shared by {
        assert(active_on(bw, i, t) && active_on(bw, j, t));
    }
    assert forall|k: int, t: usize| active_on(nw, k, t) implies next.scopes.contains(
        nw[k].scope,
    ) && exists|i: int| owns(nb, i, t) by {
        assert(active_on(bw, k, t));
        let i = choose|i: int| owns(bs, i, t);
        assert(owns(bs, i, t));
        assert(has_active(bw, t));
        assert(!borrowed_in(bs, bw, scope, i));
        assert(owns(nb, i, t));
    }
}

/// Every legal operation takes a well-formed state to a well-formed state.
pub proof fn lemma_step_keeps_well_formed(st: State, op: Op)
    requires
        well_formed(st),
        has_room(st),
        step(st, op) is Ok,
    ensures
        well_formed(step(st, op)->Ok_0),
{
    assert(st.scopes.contains(st.current())) by {
        assert(st.scopes[st.scopes.len() - 1] == st.current());
    }
    assert(st.scopes.contains(ROOT_SCOPE)) by {
        assert(st.scopes[0] == ROOT_SCOPE);
    }
    match op {
        Op::Declare { name, linear, len } => {
            lemma_fresh_is_unowned(st);
            lemma_bind_keeps(
                st,
                name,
                st.current(),
                ResourceHandle { id: fresh_id(st.bindings), linear, len },
            );
        },
        Op::Move { src, dst } => {
            lemma_move_keeps(st, src, dst, st.current());
        },
        Op::Clone { src, dst } => {
            lemma_fresh_is_unowned(st);
            let h = state_of(st.bindings, src)->Owning_0;
            lemma_bind_keeps(st, dst, st.current(), duplicate(st.bindings, h));
        },
        Op::BorrowShared { target, slot, span } => {
            lemma_borrow_keeps(st, target, slot, BorrowKind::Shared, span);
        },
        Op::BorrowExclusive { target, slot, span } => {
            lemma_borrow_keeps(st, target, slot, BorrowKind::Exclusive, span);
        },
        Op::Release { slot } => {
            lemma_release_keeps(st, slot);
        },
        Op::Read { place } => {},
        Op::Write { place } => {},
        Op::Return { place } => match place {
            Place::Binding(name) => {
                lemma_move_keeps(st, name, CALLER_BINDING, ROOT_SCOPE);
            },
            Place::Borrow(slot) => {},
        },
        Op::EnterScope => {
            lemma_enter_keeps(st);
        },
        Op::ExitScope { scope } => {
            lemma_exit_keeps(st, scope);
        },
    }
}

/// An operation makes at most one binding and enters at most one frame.
pub proof fn lemma_step_uses_little(st: State, op: Op)
    requires
        step(st, op) is Ok,
    ensures
        step(st, op)->Ok_0.bindings.len() <= st.bindings.len() + 1,
        step(st, op)->Ok_0.entered <= st.entered + 1,
{
    match op {
        Op::Move { src, dst } => {
            lemma_owner_resolves(st.bindings, src);
        },
        Op::Return { place } => match place {
            Place::Binding(name) => {
                lemma_owner_resolves(st.bindings, name);
            },
            Place::Borrow(slot) => {},
        },
        _ => {},
    }
}

/// Every state that a log of a length that fits in memory can reach is
/// well-formed, and holds no more bindings and frames than operations were
/// replayed.
pub proof fn lemma_replay_well_formed(ops: Seq<Op>, k: nat)
    requires
        k <= ops.len() <= usize::MAX,
        replay(ops, k) is Ok,
    ensures
        well_formed(replay(ops, k)->Ok_0),
        replay(ops, k)->Ok_0.bindings.len() <= k,
        replay(ops, k)->Ok_0.entered <= k,
    decreases k,
{
    if k == 0 {
        let st = State::initial();
        assert(st.bindings.len() == 0);
        assert(st.borrows.len() == 0);
        assert(st.scopes.len() == 1 && st.scopes[0] == ROOT_SCOPE);
    } else {
        let j = (k - 1) as nat;
        lemma_replay_well_formed(ops, j);
        let st = replay(ops, j)->Ok_0;
        lemma_step_uses_little(st, ops[k - 1]);
        lemma_step_keeps_well_formed(st, ops[k - 1]);
    }
}

} // verus!
