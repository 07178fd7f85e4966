use ownership_verifier::bindings::{lookup_in, state_in, BindingTable};
use ownership_verifier::borrows::{span_fits, BorrowTracker};
use ownership_verifier::model::{
    Binding, BindingState, Borrow, BorrowKind, ErrorKind, Finding, ResourceHandle, Span, Subject,
    ROOT_SCOPE,
};
use ownership_verifier::scopes::ScopeStack;

fn text(id: usize) -> ResourceHandle {
    ResourceHandle { id, linear: true, len: 11 }
}

#[test]
fn declare_mints_handles_in_order() {
    let mut table = BindingTable::new();
    assert_eq!(table.declare(7, ROOT_SCOPE, true, 11), 0);
    assert_eq!(table.declare(8, 3, false, 1), 1);
    assert_eq!(
        table.entries(),
        &vec![
            Binding { name: 7, scope: ROOT_SCOPE, state: BindingState::Owning(text(0)) },
            Binding {
                name: 8,
                scope: 3,
                state: BindingState::Owning(ResourceHandle { id: 1, linear: false, len: 1 }),
            },
        ]
    );
}

#[test]
fn lookup_finds_the_latest_binding_of_a_name() {
    let mut table = BindingTable::new();
    table.declare(7, ROOT_SCOPE, true, 11);
    table.declare(8, ROOT_SCOPE, true, 11);
    table.declare(7, ROOT_SCOPE, true, 5);
    assert_eq!(table.lookup(7), Some(2));
    assert_eq!(table.lookup(8), Some(1));
    assert_eq!(table.lookup(9), None);
    assert_eq!(lookup_in(table.entries(), 7), Some(2));
    assert_eq!(
        table.state_of(7),
        BindingState::Owning(ResourceHandle { id: 2, linear: true, len: 5 })
    );
    assert_eq!(table.state_of(9), BindingState::Uninitialized);
    assert_eq!(state_in(table.entries(), 9), BindingState::Uninitialized);
}

#[test]
fn move_from_transfers_a_linear_handle() {
    let mut table = BindingTable::new();
    table.declare(1, ROOT_SCOPE, true, 11);
    assert_eq!(table.move_from(1, 2, 4), Ok(text(0)));
    assert_eq!(table.state_of(1), BindingState::MovedOut);
    assert_eq!(table.state_of(2), BindingState::Owning(text(0)));
    assert_eq!(table.entries()[1].scope, 4);
    assert_eq!(table.holder(0), Some(1));
    assert_eq!(table.move_from(1, 3, 4), Err(ErrorKind::DoubleMove));
    assert_eq!(table.move_from(9, 3, 4), Err(ErrorKind::UseAfterMove));
    assert_eq!(table.entries().len(), 2);
}

#[test]
fn move_from_copies_a_copyable_handle() {
    let mut table = BindingTable::new();
    table.declare(1, ROOT_SCOPE, false, 1);
    assert_eq!(table.move_from(1, 2, ROOT_SCOPE), Ok(ResourceHandle { id: 1, linear: false, len: 1 }));
    assert_eq!(
        table.state_of(1),
        BindingState::Owning(ResourceHandle { id: 0, linear: false, len: 1 })
    );
}

#[test]
fn clone_from_needs_an_owning_source() {
    let mut table = BindingTable::new();
    table.declare(1, ROOT_SCOPE, true, 11);
    assert_eq!(table.clone_from(1, 2, ROOT_SCOPE), Ok(text(1)));
    assert_eq!(table.state_of(1), BindingState::Owning(text(0)));
    assert_eq!(table.move_from(1, 3, ROOT_SCOPE), Ok(text(0)));
    assert_eq!(table.clone_from(1, 4, ROOT_SCOPE), Err(ErrorKind::UseAfterMove));
    assert_eq!(table.clone_from(9, 4, ROOT_SCOPE), Err(ErrorKind::UseAfterMove));
    assert_eq!(table.entries().len(), 3);
}

#[test]
fn read_and_write_respect_active_borrows() {
    let mut table = BindingTable::new();
    let mut tracker = BorrowTracker::new();
    table.declare(1, ROOT_SCOPE, true, 11);
    assert_eq!(table.read(1, &tracker), Ok(()));
    assert_eq!(table.write(1, &tracker), Ok(()));
    assert!(tracker.borrow_shared(50, text(0), ROOT_SCOPE, None).is_ok());
    assert_eq!(table.read(1, &tracker), Ok(()));
    assert_eq!(
        table.write(1, &tracker),
        Err(Finding { kind: ErrorKind::BorrowConflict, subject: Subject::Handle(0) })
    );
    assert!(tracker.release(50));
    assert!(tracker.borrow_exclusive(50, text(0), ROOT_SCOPE, None).is_ok());
    assert_eq!(
        table.read(1, &tracker),
        Err(Finding { kind: ErrorKind::BorrowConflict, subject: Subject::Handle(0) })
    );
    assert_eq!(
        table.read(2, &tracker),
        Err(Finding { kind: ErrorKind::UseAfterMove, subject: Subject::Binding(2) })
    );
}

#[test]
fn drop_scope_drops_only_owning_bindings_of_the_frame() {
    let mut table = BindingTable::new();
    table.declare(1, ROOT_SCOPE, true, 11);
    table.declare(2, 1, true, 11);
    table.declare(3, 1, true, 11);
    assert_eq!(table.move_from(3, 4, ROOT_SCOPE), Ok(text(2)));
    table.drop_scope(1);
    assert_eq!(table.state_of(1), BindingState::Owning(text(0)));
    assert_eq!(table.state_of(2), BindingState::Dropped);
    assert_eq!(table.state_of(3), BindingState::MovedOut);
    assert_eq!(table.state_of(4), BindingState::Owning(text(2)));
    let once = table.entries().clone();
    table.drop_scope(1);
    assert_eq!(table.entries(), &once);
    assert_eq!(table.holder(1), None);
    assert_eq!(table.into_entries(), once);
}

#[test]
fn first_borrowed_finds_the_borrowed_local() {
    let mut table = BindingTable::new();
    let mut tracker = BorrowTracker::new();
    table.declare(1, 1, true, 11);
    table.declare(2, 1, true, 11);
    table.declare(3, 2, true, 11);
    assert_eq!(table.first_borrowed(1, &tracker), None);
    assert!(tracker.borrow_shared(50, text(2), 2, None).is_ok());
    assert_eq!(table.first_borrowed(1, &tracker), None);
    assert_eq!(table.first_borrowed(2, &tracker), Some(text(2)));
    assert!(tracker.borrow_shared(51, text(1), 2, None).is_ok());
    assert_eq!(table.first_borrowed(1, &tracker), Some(text(1)));
}

#[test]
fn tracker_enforces_exclusivity() {
    let mut tracker = BorrowTracker::new();
    let first = tracker.borrow_shared(50, text(0), ROOT_SCOPE, None);
    assert_eq!(
        first,
        Ok(Borrow {
            slot: 50,
            target: 0,
            kind: BorrowKind::Shared,
            scope: ROOT_SCOPE,
            span: None,
            active: true,
        })
    );
    assert!(tracker.borrow_shared(51, text(0), ROOT_SCOPE, None).is_ok());
    assert_eq!(
        tracker.borrow_exclusive(52, text(0), ROOT_SCOPE, None),
        Err(ErrorKind::BorrowConflict)
    );
    assert!(tracker.borrow_exclusive(52, text(1), ROOT_SCOPE, None).is_ok());
    assert_eq!(tracker.borrow_shared(53, text(1), ROOT_SCOPE, None), Err(ErrorKind::BorrowConflict));
    assert_eq!(
        tracker.borrow(53, text(1), BorrowKind::Exclusive, ROOT_SCOPE, None),
        Err(ErrorKind::BorrowConflict)
    );
    assert_eq!(tracker.records().len(), 3);
    assert!(tracker.has_active(0));
    assert!(!tracker.has_exclusive(0));
    assert!(tracker.has_exclusive(1));
    assert!(!tracker.has_active(2));
    assert!(tracker.conflicts(0, BorrowKind::Exclusive));
    assert!(!tracker.conflicts(0, BorrowKind::Shared));
    assert!(tracker.conflicts(1, BorrowKind::Shared));
}

#[test]
fn tracker_checks_slice_bounds() {
    let mut tracker = BorrowTracker::new();
    let fits = Some(Span { start: 6, end: 11 });
    let too_long = Some(Span { start: 6, end: 12 });
    assert!(span_fits(fits, 11));
    assert!(!span_fits(too_long, 11));
    assert!(span_fits(Some(Span { start: 0, end: 0 }), 0));
    assert!(!span_fits(Some(Span { start: 1, end: 0 }), 11));
    assert!(span_fits(None, 0));
    assert_eq!(tracker.borrow_shared(50, text(0), ROOT_SCOPE, too_long), Err(ErrorKind::OutOfBounds));
    assert_eq!(tracker.records().len(), 0);
    let b = tracker.borrow_shared(50, text(0), ROOT_SCOPE, fits);
    assert_eq!(b.map(|b| b.span), Ok(fits));
}

#[test]
fn release_frees_a_slot_exactly_once() {
    let mut tracker = BorrowTracker::new();
    assert!(tracker.borrow_exclusive(50, text(0), ROOT_SCOPE, None).is_ok());
    assert_eq!(tracker.active_in(50), Some(0));
    assert!(tracker.held_in(50).is_some());
    assert!(tracker.release(50));
    let once = tracker.records().clone();
    assert!(!tracker.release(50));
    assert_eq!(tracker.records(), &once);
    assert!(!once[0].active);
    assert_eq!(tracker.active_in(50), None);
    assert_eq!(tracker.held_in(50), None);
    assert!(!tracker.release(77));
    assert!(tracker.borrow_exclusive(50, text(0), ROOT_SCOPE, None).is_ok());
    assert_eq!(tracker.active_in(50), Some(1));
}

#[test]
fn invalidate_scope_ends_the_borrows_of_the_frame() {
    let mut tracker = BorrowTracker::new();
    assert!(tracker.borrow_shared(50, text(0), 1, None).is_ok());
    assert!(tracker.borrow_shared(51, text(0), 2, None).is_ok());
    tracker.invalidate_scope(2);
    assert_eq!(tracker.active_in(50), Some(0));
    assert_eq!(tracker.active_in(51), None);
    assert!(tracker.has_active(0));
    tracker.invalidate_scope(1);
    assert!(!tracker.has_active(0));
}

#[test]
fn scope_stack_is_last_in_first_out() {
    let mut stack = ScopeStack::new();
    assert_eq!(stack.current(), ROOT_SCOPE);
    assert_eq!(stack.count(), 0);
    assert_eq!(stack.enter(), 1);
    assert_eq!(stack.enter(), 2);
    assert_eq!(stack.current(), 2);
    assert!(!stack.can_exit(1));
    assert!(stack.can_exit(2));
    assert_eq!(stack.exit(1), Err(ErrorKind::ScopeMismatch));
    assert_eq!(stack.current(), 2);
    assert_eq!(stack.exit(2), Ok(()));
    assert_eq!(stack.exit(2), Err(ErrorKind::ScopeMismatch));
    assert_eq!(stack.exit(1), Ok(()));
    assert_eq!(stack.current(), ROOT_SCOPE);
    assert_eq!(stack.exit(ROOT_SCOPE), Err(ErrorKind::ScopeMismatch));
    assert_eq!(stack.enter(), 3);
    assert_eq!(stack.count(), 3);
}
