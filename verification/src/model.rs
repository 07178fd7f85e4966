//! The vocabulary of the verifier: handles, bindings, borrows, operations and
//! verdicts. Every type here is plain data; the rules live in `rules`.

use vstd::prelude::*;

verus! {

/// The frame that is open before the first operation. It stands for the
/// caller of the code under analysis and is never exited.
pub const ROOT_SCOPE: u64 = 0;

/// Name of the caller-side binding that receives a returned value.
pub const CALLER_BINDING: u64 = 0xffff_ffff_ffff_ffff;

/// One logical resource. `id` is unique among all handles a table ever
/// minted; `linear` says whether the resource has exactly one owner at a time
/// or is freely duplicable; `len` is its length in elements, against which
/// slice borrows are checked.
#[derive(Clone, Copy, Debug, PartialEq, Eq, Structural)]
pub struct ResourceHandle {
    pub id: usize,
    pub linear: bool,
    pub len: u64,
}

/// What a binding currently holds.
#[derive(Clone, Copy, Debug, PartialEq, Eq, Structural)]
pub enum BindingState {
    Owning(ResourceHandle),
    MovedOut,
    Dropped,
    Uninitialized,
}

/// A name bound in a scope. A name is an interned symbol; a later binding of
/// the same name shadows the earlier one.
#[derive(Clone, Copy, Debug, PartialEq, Eq, Structural)]
pub struct Binding {
    pub name: u64,
    pub scope: u64,
    pub state: BindingState,
}

#[derive(Clone, Copy, Debug, PartialEq, Eq, Structural)]
pub enum BorrowKind {
    Shared,
    Exclusive,
}

/// Half-open element range `start..end` of a slice borrow.
#[derive(Clone, Copy, Debug, PartialEq, Eq, Structural)]
pub struct Span {
    pub start: u64,
    pub end: u64,
}

/// A non-owning view of a handle, held in `slot`. `target` is the id of the
/// handle it views, `scope` the frame in which it was created. A borrow is
/// `active` from its creation until it is released or its frame is exited.
#[derive(Clone, Copy, Debug, PartialEq, Eq)]
pub struct Borrow {
    pub slot: u64,
    pub target: usize,
    pub kind: BorrowKind,
    pub scope: u64,
    pub span: Option<Span>,
    pub active: bool,
}

#[derive(Clone, Copy, Debug, PartialEq, Eq, Structural)]
pub enum ErrorKind {
    UseAfterMove,
    BorrowConflict,
    DanglingReference,
    OutOfBounds,
    ScopeMismatch,
    DoubleMove,
}

/// What a finding is about.
#[derive(Clone, Copy, Debug, PartialEq, Eq, Structural)]
pub enum Subject {
    Binding(u64),
    Slot(u64),
    Handle(usize),
    Scope(u64),
}

/// A violation: which rule was broken, and by what.
#[derive(Clone, Copy, Debug, PartialEq, Eq, Structural)]
pub struct Finding {
    pub kind: ErrorKind,
    pub subject: Subject,
}

/// The operand of a read, a write or a return: a binding, or the borrow held
/// in a slot.
#[derive(Clone, Copy, Debug, PartialEq, Eq, Structural)]
pub enum Place {
    Binding(u64),
    Borrow(u64),
}

/// One entry of an operation log.
#[derive(Clone, Copy, Debug, PartialEq, Eq)]
pub enum Op {
    /// Introduces a fresh resource and binds it to `name` in the current scope.
    Declare { name: u64, linear: bool, len: u64 },
    /// Transfers what `src` owns to a new binding `dst` in the current scope.
    Move { src: u64, dst: u64 },
    /// Binds an independent duplicate of what `src` owns to `dst`.
    Clone { src: u64, dst: u64 },
    /// Borrows what `target` owns, shared, into `slot`; `span` makes it a slice.
    BorrowShared { target: u64, slot: u64, span: Option<Span> },
    /// Borrows what `target` owns, exclusively, into `slot`.
    BorrowExclusive { target: u64, slot: u64, span: Option<Span> },
    /// Ends every borrow held in `slot`.
    Release { slot: u64 },
    Read { place: Place },
    Write { place: Place },
    /// Hands `place` to the caller.
    Return { place: Place },
    EnterScope,
    /// Closes the frame `scope`, which must be the innermost open one.
    ExitScope { scope: u64 },
}

/// The verdict on a log.
#[derive(Debug, PartialEq, Eq)]
pub enum VerifyResult {
    /// No operation broke a rule. `terminal_states` is the binding table as
    /// the last operation left it, in order of declaration.
    Valid { terminal_states: Vec<Binding> },
    /// The operation at `op_index` was the first to break a rule.
    Invalid { op_index: usize, error_kind: ErrorKind, offending: Subject },
}

/// Mathematical counterpart of `VerifyResult`.
pub enum Outcome {
    Valid { terminal: Seq<Binding> },
    Invalid { op_index: nat, kind: ErrorKind, subject: Subject },
}

impl View for VerifyResult {
    type V = Outcome;

    open spec fn view(&self) -> Outcome {
        match *self {
            VerifyResult::Valid { terminal_states } => Outcome::Valid {
                terminal: terminal_states@,
            },
            VerifyResult::Invalid { op_index, error_kind, offending } => Outcome::Invalid {
                op_index: op_index as nat,
                kind: error_kind,
                subject: offending,
            },
        }
    }
}

} // verus!
