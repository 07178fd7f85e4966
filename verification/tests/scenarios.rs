use ownership_verifier::engine::{verify, Verifier};
use ownership_verifier::model::{
    Binding, BindingState, ErrorKind, Finding, Op, Place, ResourceHandle, Span, Subject,
    VerifyResult, CALLER_BINDING, ROOT_SCOPE,
};

const S1: u64 = 1;
const S2: u64 = 2;
const S3: u64 = 3;
const LOCAL: u64 = 4;
const R1: u64 = 101;
const R2: u64 = 102;

fn declare(name: u64) -> Op {
    Op::Declare { name, linear: true, len: 11 }
}

fn shared(target: u64, slot: u64) -> Op {
    Op::BorrowShared { target, slot, span: None }
}

fn exclusive(target: u64, slot: u64) -> Op {
    Op::BorrowExclusive { target, slot, span: None }
}

fn read(name: u64) -> Op {
    Op::Read { place: Place::Binding(name) }
}

fn read_through(slot: u64) -> Op {
    Op::Read { place: Place::Borrow(slot) }
}

fn invalid(op_index: usize, error_kind: ErrorKind, offending: Subject) -> VerifyResult {
    VerifyResult::Invalid { op_index, error_kind, offending }
}

fn handle(id: usize) -> ResourceHandle {
    ResourceHandle { id, linear: true, len: 11 }
}

#[test]
fn empty_log_is_valid() {
    assert_eq!(verify(&vec![]), VerifyResult::Valid { terminal_states: vec![] });
}

#[test]
fn move_then_read_source_is_use_after_move() {
    let ops = vec![declare(S1), Op::Move { src: S1, dst: S2 }, read(S1)];
    assert_eq!(verify(&ops), invalid(2, ErrorKind::UseAfterMove, Subject::Binding(S1)));
}

#[test]
fn move_then_read_destination_is_valid() {
    let ops = vec![declare(S1), Op::Move { src: S1, dst: S2 }, read(S2)];
    let verdict = verify(&ops);
    assert_eq!(
        verdict,
        VerifyResult::Valid {
            terminal_states: vec![
                Binding { name: S1, scope: ROOT_SCOPE, state: BindingState::MovedOut },
                Binding { name: S2, scope: ROOT_SCOPE, state: BindingState::Owning(handle(0)) },
            ],
        }
    );
    assert!(verdict.is_valid());
    assert_eq!(verdict.terminal_state(S1), Some(BindingState::MovedOut));
    assert_eq!(verdict.terminal_state(S2), Some(BindingState::Owning(handle(0))));
    assert_eq!(verdict.terminal_state(S3), Some(BindingState::Uninitialized));
}

#[test]
fn moved_out_stays_moved_out_across_other_operations() {
    let ops = vec![
        declare(S1),
        Op::Move { src: S1, dst: S2 },
        declare(S3),
        shared(S3, R1),
        Op::EnterScope,
        Op::Clone { src: S2, dst: LOCAL },
        Op::ExitScope { scope: 1 },
        Op::Release { slot: R1 },
        read(S1),
    ];
    assert_eq!(verify(&ops), invalid(8, ErrorKind::UseAfterMove, Subject::Binding(S1)));
}

#[test]
fn rebinding_a_moved_name_makes_it_usable_again() {
    let ops = vec![declare(S1), Op::Move { src: S1, dst: S2 }, declare(S1), read(S1)];
    assert!(verify(&ops).is_valid());
}

#[test]
fn moving_twice_is_double_move() {
    let ops = vec![declare(S1), Op::Move { src: S1, dst: S2 }, Op::Move { src: S1, dst: S3 }];
    assert_eq!(verify(&ops), invalid(2, ErrorKind::DoubleMove, Subject::Binding(S1)));
}

#[test]
fn moving_a_name_never_bound_is_use_after_move() {
    let ops = vec![Op::Move { src: S1, dst: S2 }];
    assert_eq!(verify(&ops), invalid(0, ErrorKind::UseAfterMove, Subject::Binding(S1)));
}

#[test]
fn moving_a_dropped_binding_is_use_after_move() {
    let ops = vec![
        Op::EnterScope,
        declare(LOCAL),
        Op::ExitScope { scope: 1 },
        Op::Move { src: LOCAL, dst: S2 },
    ];
    assert_eq!(verify(&ops), invalid(3, ErrorKind::UseAfterMove, Subject::Binding(LOCAL)));
}

#[test]
fn moving_a_copyable_value_leaves_the_source_usable() {
    let ops = vec![
        Op::Declare { name: S1, linear: false, len: 1 },
        Op::Move { src: S1, dst: S2 },
        read(S1),
        read(S2),
    ];
    assert_eq!(
        verify(&ops),
        VerifyResult::Valid {
            terminal_states: vec![
                Binding {
                    name: S1,
                    scope: ROOT_SCOPE,
                    state: BindingState::Owning(ResourceHandle { id: 0, linear: false, len: 1 }),
                },
                Binding {
                    name: S2,
                    scope: ROOT_SCOPE,
                    state: BindingState::Owning(ResourceHandle { id: 1, linear: false, len: 1 }),
                },
            ],
        }
    );
}

#[test]
fn clone_keeps_the_original_and_mints_a_new_handle() {
    let ops = vec![declare(S3), Op::Clone { src: S3, dst: S2 }, read(S3), read(S2)];
    let verdict = verify(&ops);
    assert_eq!(verdict.terminal_state(S3), Some(BindingState::Owning(handle(0))));
    assert_eq!(verdict.terminal_state(S2), Some(BindingState::Owning(handle(1))));
}

#[test]
fn clone_of_moved_out_binding_is_use_after_move() {
    let ops = vec![declare(S1), Op::Move { src: S1, dst: S2 }, Op::Clone { src: S1, dst: S3 }];
    assert_eq!(verify(&ops), invalid(2, ErrorKind::UseAfterMove, Subject::Binding(S1)));
}

#[test]
fn clone_of_uninitialized_binding_is_use_after_move() {
    let ops = vec![Op::Clone { src: S1, dst: S3 }];
    assert_eq!(verify(&ops), invalid(0, ErrorKind::UseAfterMove, Subject::Binding(S1)));
}

#[test]
fn two_shared_borrows_can_both_be_read() {
    let ops = vec![declare(S3), shared(S3, R1), shared(S3, R2), read_through(R1), read_through(R2)];
    assert_eq!(
        verify(&ops),
        VerifyResult::Valid {
            terminal_states: vec![Binding {
                name: S3,
                scope: ROOT_SCOPE,
                state: BindingState::Owning(handle(0)),
            }],
        }
    );
}

#[test]
fn shared_borrow_beside_exclusive_is_a_conflict() {
    let ops = vec![declare(S3), exclusive(S3, R1), shared(S3, R2)];
    assert_eq!(verify(&ops), invalid(2, ErrorKind::BorrowConflict, Subject::Handle(0)));
}

#[test]
fn exclusive_borrow_beside_shared_is_a_conflict() {
    let ops = vec![declare(S3), shared(S3, R1), exclusive(S3, R2)];
    assert_eq!(verify(&ops), invalid(2, ErrorKind::BorrowConflict, Subject::Handle(0)));
}

#[test]
fn second_exclusive_borrow_is_a_conflict() {
    let ops = vec![declare(S3), exclusive(S3, R1), exclusive(S3, R2)];
    assert_eq!(verify(&ops), invalid(2, ErrorKind::BorrowConflict, Subject::Handle(0)));
}

#[test]
fn exclusive_borrow_after_release_is_valid() {
    let ops = vec![
        declare(S3),
        shared(S3, R1),
        shared(S3, R2),
        Op::Release { slot: R1 },
        Op::Release { slot: R2 },
        exclusive(S3, R1),
        Op::Write { place: Place::Borrow(R1) },
    ];
    assert!(verify(&ops).is_valid());
}

#[test]
fn releasing_twice_is_harmless() {
    let ops = vec![
        declare(S3),
        exclusive(S3, R1),
        Op::Release { slot: R1 },
        Op::Release { slot: R1 },
        Op::Release { slot: R2 },
        exclusive(S3, R2),
    ];
    assert!(verify(&ops).is_valid());
}

#[test]
fn borrows_of_different_handles_do_not_conflict() {
    let ops = vec![declare(S1), declare(S2), exclusive(S1, R1), exclusive(S2, R2)];
    assert!(verify(&ops).is_valid());
}

#[test]
fn borrowing_a_moved_binding_is_use_after_move() {
    let ops = vec![declare(S1), Op::Move { src: S1, dst: S2 }, shared(S1, R1)];
    assert_eq!(verify(&ops), invalid(2, ErrorKind::UseAfterMove, Subject::Binding(S1)));
}

#[test]
fn exiting_scope_with_borrowed_local_is_dangling() {
    let ops = vec![Op::EnterScope, declare(LOCAL), shared(LOCAL, R1), Op::ExitScope { scope: 1 }];
    assert_eq!(verify(&ops), invalid(3, ErrorKind::DanglingReference, Subject::Handle(0)));
}

#[test]
fn exiting_scope_after_release_drops_the_local() {
    let ops = vec![
        Op::EnterScope,
        declare(LOCAL),
        shared(LOCAL, R1),
        Op::Release { slot: R1 },
        Op::ExitScope { scope: 1 },
    ];
    assert_eq!(
        verify(&ops),
        VerifyResult::Valid {
            terminal_states: vec![Binding { name: LOCAL, scope: 1, state: BindingState::Dropped }],
        }
    );
}

#[test]
fn exiting_scope_ends_borrows_created_in_it() {
    let ops = vec![
        declare(S3),
        Op::EnterScope,
        exclusive(S3, R1),
        Op::ExitScope { scope: 1 },
        exclusive(S3, R2),
        read_through(R1),
    ];
    assert_eq!(verify(&ops), invalid(5, ErrorKind::DanglingReference, Subject::Slot(R1)));
}

#[test]
fn slice_within_bounds_is_valid() {
    let ops = vec![
        declare(S3),
        Op::BorrowShared { target: S3, slot: R1, span: Some(Span { start: 0, end: 5 }) },
        Op::BorrowShared { target: S3, slot: R2, span: Some(Span { start: 6, end: 11 }) },
    ];
    assert!(verify(&ops).is_valid());
}

#[test]
fn slice_past_the_end_is_out_of_bounds() {
    let ops = vec![
        declare(S3),
        Op::BorrowShared { target: S3, slot: R1, span: Some(Span { start: 6, end: 12 }) },
    ];
    assert_eq!(verify(&ops), invalid(1, ErrorKind::OutOfBounds, Subject::Handle(0)));
}

#[test]
fn slice_with_start_after_end_is_out_of_bounds() {
    let ops = vec![
        declare(S3),
        Op::BorrowExclusive { target: S3, slot: R1, span: Some(Span { start: 5, end: 4 }) },
    ];
    assert_eq!(verify(&ops), invalid(1, ErrorKind::OutOfBounds, Subject::Handle(0)));
}

#[test]
fn empty_slice_is_valid_within_bounds_only() {
    let at_end = vec![
        declare(S3),
        Op::BorrowShared { target: S3, slot: R1, span: Some(Span { start: 11, end: 11 }) },
    ];
    assert!(verify(&at_end).is_valid());
    let at_start = vec![
        declare(S3),
        Op::BorrowShared { target: S3, slot: R1, span: Some(Span { start: 0, end: 0 }) },
    ];
    assert!(verify(&at_start).is_valid());
    let past_end = vec![
        declare(S3),
        Op::BorrowShared { target: S3, slot: R1, span: Some(Span { start: 12, end: 12 }) },
    ];
    assert_eq!(verify(&past_end), invalid(1, ErrorKind::OutOfBounds, Subject::Handle(0)));
}

#[test]
fn conflict_is_reported_before_bounds() {
    let ops = vec![
        declare(S3),
        exclusive(S3, R1),
        Op::BorrowShared { target: S3, slot: R2, span: Some(Span { start: 6, end: 12 }) },
    ];
    assert_eq!(verify(&ops), invalid(2, ErrorKind::BorrowConflict, Subject::Handle(0)));
}

#[test]
fn exiting_a_scope_twice_is_a_mismatch_and_drops_nothing_more() {
    let once = vec![declare(S1), Op::EnterScope, declare(LOCAL), Op::ExitScope { scope: 1 }];
    let twice = vec![
        declare(S1),
        Op::EnterScope,
        declare(LOCAL),
        Op::ExitScope { scope: 1 },
        Op::ExitScope { scope: 1 },
    ];
    assert_eq!(verify(&twice), invalid(4, ErrorKind::ScopeMismatch, Subject::Scope(1)));

    let mut verifier = Verifier::new();
    for op in once {
        assert_eq!(verifier.step(op), Ok(()));
    }
    let before: Vec<Binding> = verifier.table().entries().clone();
    assert_eq!(
        verifier.step(Op::ExitScope { scope: 1 }),
        Err(Finding { kind: ErrorKind::ScopeMismatch, subject: Subject::Scope(1) })
    );
    assert_eq!(verifier.table().entries(), &before);
    assert_eq!(
        before,
        vec![
            Binding { name: S1, scope: ROOT_SCOPE, state: BindingState::Owning(handle(0)) },
            Binding { name: LOCAL, scope: 1, state: BindingState::Dropped },
        ]
    );
}

#[test]
fn exited_scope_stays_closed_after_new_scopes() {
    let ops = vec![
        Op::EnterScope,
        Op::ExitScope { scope: 1 },
        Op::EnterScope,
        Op::ExitScope { scope: 1 },
    ];
    assert_eq!(verify(&ops), invalid(3, ErrorKind::ScopeMismatch, Subject::Scope(1)));
    let fresh_id = vec![
        Op::EnterScope,
        Op::ExitScope { scope: 1 },
        Op::EnterScope,
        Op::ExitScope { scope: 2 },
    ];
    assert!(verify(&fresh_id).is_valid());
}

#[test]
fn exiting_an_outer_scope_first_is_a_mismatch() {
    let ops = vec![Op::EnterScope, Op::EnterScope, Op::ExitScope { scope: 1 }];
    assert_eq!(verify(&ops), invalid(2, ErrorKind::ScopeMismatch, Subject::Scope(1)));
}

#[test]
fn the_root_scope_cannot_be_exited() {
    let ops = vec![Op::ExitScope { scope: ROOT_SCOPE }];
    assert_eq!(verify(&ops), invalid(0, ErrorKind::ScopeMismatch, Subject::Scope(ROOT_SCOPE)));
}

#[test]
fn returning_a_borrow_of_a_local_is_dangling() {
    let ops = vec![
        Op::EnterScope,
        declare(LOCAL),
        shared(LOCAL, R1),
        Op::Return { place: Place::Borrow(R1) },
    ];
    assert_eq!(verify(&ops), invalid(3, ErrorKind::DanglingReference, Subject::Handle(0)));
}

#[test]
fn returning_a_borrow_of_a_local_is_dangling_from_a_nested_block() {
    let ops = vec![
        declare(S1),
        Op::EnterScope,
        declare(LOCAL),
        Op::EnterScope,
        exclusive(LOCAL, R1),
        Op::Write { place: Place::Borrow(R1) },
        Op::Move { src: LOCAL, dst: S2 },
        Op::Return { place: Place::Borrow(R1) },
    ];
    assert_eq!(verify(&ops), invalid(7, ErrorKind::DanglingReference, Subject::Handle(1)));
}

#[test]
fn returning_a_borrow_of_the_callers_value_is_valid() {
    let ops = vec![
        declare(S1),
        Op::EnterScope,
        shared(S1, R1),
        Op::Return { place: Place::Borrow(R1) },
    ];
    assert!(verify(&ops).is_valid());
}

#[test]
fn returning_an_empty_slot_is_dangling() {
    let ops = vec![Op::Return { place: Place::Borrow(R1) }];
    assert_eq!(verify(&ops), invalid(0, ErrorKind::DanglingReference, Subject::Slot(R1)));
}

#[test]
fn returning_an_owned_local_moves_it_to_the_caller() {
    let ops = vec![
        Op::EnterScope,
        declare(LOCAL),
        Op::Return { place: Place::Binding(LOCAL) },
        Op::ExitScope { scope: 1 },
    ];
    let verdict = verify(&ops);
    assert_eq!(
        verdict,
        VerifyResult::Valid {
            terminal_states: vec![
                Binding { name: LOCAL, scope: 1, state: BindingState::MovedOut },
                Binding {
                    name: CALLER_BINDING,
                    scope: ROOT_SCOPE,
                    state: BindingState::Owning(handle(0)),
                },
            ],
        }
    );
}

#[test]
fn returning_a_moved_out_binding_is_double_move() {
    let ops = vec![
        declare(S1),
        Op::Move { src: S1, dst: S2 },
        Op::Return { place: Place::Binding(S1) },
    ];
    assert_eq!(verify(&ops), invalid(2, ErrorKind::DoubleMove, Subject::Binding(S1)));
}

#[test]
fn reading_an_exclusively_borrowed_binding_is_a_conflict() {
    let ops = vec![declare(S3), exclusive(S3, R1), read(S3)];
    assert_eq!(verify(&ops), invalid(2, ErrorKind::BorrowConflict, Subject::Handle(0)));
}

#[test]
fn reading_a_shared_borrowed_binding_is_valid() {
    let ops = vec![declare(S3), shared(S3, R1), read(S3)];
    assert!(verify(&ops).is_valid());
}

#[test]
fn writing_a_borrowed_binding_is_a_conflict() {
    let ops = vec![declare(S3), shared(S3, R1), Op::Write { place: Place::Binding(S3) }];
    assert_eq!(verify(&ops), invalid(2, ErrorKind::BorrowConflict, Subject::Handle(0)));
}

#[test]
fn writing_an_unborrowed_binding_is_valid() {
    let ops = vec![declare(S3), Op::Write { place: Place::Binding(S3) }];
    assert!(verify(&ops).is_valid());
}

#[test]
fn writing_through_a_shared_borrow_is_a_conflict() {
    let ops = vec![declare(S3), shared(S3, R1), Op::Write { place: Place::Borrow(R1) }];
    assert_eq!(verify(&ops), invalid(2, ErrorKind::BorrowConflict, Subject::Handle(0)));
}

#[test]
fn writing_through_an_exclusive_borrow_is_valid() {
    let ops = vec![
        declare(S3),
        exclusive(S3, R1),
        Op::Write { place: Place::Borrow(R1) },
        read_through(R1),
    ];
    assert!(verify(&ops).is_valid());
}

#[test]
fn reading_through_a_released_borrow_is_dangling() {
    let ops = vec![declare(S3), shared(S3, R1), Op::Release { slot: R1 }, read_through(R1)];
    assert_eq!(verify(&ops), invalid(3, ErrorKind::DanglingReference, Subject::Slot(R1)));
}

#[test]
fn reading_a_dropped_binding_is_use_after_move() {
    let ops = vec![Op::EnterScope, declare(LOCAL), Op::ExitScope { scope: 1 }, read(LOCAL)];
    assert_eq!(verify(&ops), invalid(3, ErrorKind::UseAfterMove, Subject::Binding(LOCAL)));
}

#[test]
fn only_the_first_violation_is_reported() {
    let ops = vec![
        declare(S1),
        Op::Move { src: S1, dst: S2 },
        read(S1),
        Op::Move { src: S1, dst: S3 },
        Op::ExitScope { scope: 9 },
    ];
    assert_eq!(verify(&ops), invalid(2, ErrorKind::UseAfterMove, Subject::Binding(S1)));
}

#[test]
fn a_refused_operation_changes_nothing() {
    let mut verifier = Verifier::new();
    assert_eq!(verifier.step(declare(S3)), Ok(()));
    assert_eq!(verifier.step(exclusive(S3, R1)), Ok(()));
    let bindings: Vec<Binding> = verifier.table().entries().clone();
    let borrows = verifier.tracker().records().clone();
    assert_eq!(
        verifier.step(shared(S3, R2)),
        Err(Finding { kind: ErrorKind::BorrowConflict, subject: Subject::Handle(0) })
    );
    assert_eq!(verifier.table().entries(), &bindings);
    assert_eq!(verifier.tracker().records(), &borrows);
    assert_eq!(verifier.scopes().current(), ROOT_SCOPE);
    assert_eq!(verifier.step(Op::Release { slot: R1 }), Ok(()));
    assert_eq!(verifier.step(shared(S3, R2)), Ok(()));
}

#[test]
fn two_verifiers_share_nothing() {
    let mut first = Verifier::new();
    let mut second = Verifier::new();
    assert_eq!(first.step(declare(S1)), Ok(()));
    assert_eq!(first.step(exclusive(S1, R1)), Ok(()));
    assert_eq!(second.step(declare(S1)), Ok(()));
    assert_eq!(second.step(exclusive(S1, R1)), Ok(()));
    assert_eq!(first.into_terminal_states(), second.into_terminal_states());
}

#[test]
fn active_exclusive_borrows_never_exceed_one_over_interleavings() {
    let slots = [R1, R2, 103, 104];
    let mut seed: u64 = 0x9e37_79b9_7f4a_7c15;
    for _ in 0..200 {
        let mut verifier = Verifier::new();
        assert_eq!(verifier.step(declare(S1)), Ok(()));
        assert_eq!(verifier.step(declare(S2)), Ok(()));
        for _ in 0..40 {
            seed = seed.wrapping_mul(6364136223846793005).wrapping_add(1442695040888963407);
            let slot = slots[((seed >> 33) % 4) as usize];
            let target = if (seed >> 40) % 2 == 0 { S1 } else { S2 };
            let op = match (seed >> 50) % 3 {
                0 => shared(target, slot),
                1 => exclusive(target, slot),
                _ => Op::Release { slot },
            };
            let _ = verifier.step(op);
            for id in 0..2usize {
                let active: Vec<_> = verifier
                    .tracker()
                    .records()
                    .iter()
                    .filter(|b| b.active && b.target == id)
                    .collect();
                let exclusive_count = active
                    .iter()
                    .filter(|b| b.kind == ownership_verifier::model::BorrowKind::Exclusive)
                    .count();
                assert!(exclusive_count <= 1);
                assert!(exclusive_count == 0 || active.len() == 1);
            }
        }
    }
}
