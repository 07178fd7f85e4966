//! The verifier engine: replays an operation log against a binding table, a
//! borrow tracker and a scope stack, and stops at the first violation.

use vstd::prelude::*;
use crate::bindings::{state_in, BindingTable};
use crate::borrows::BorrowTracker;
use crate::model::{
    Binding, BindingState, BorrowKind, ErrorKind, Finding, Op, Outcome, Place, Span, Subject,
    VerifyResult,
    CALLER_BINDING, ROOT_SCOPE,
};
use crate::rules;
use crate::rules::State;
use crate::safety::{lemma_step_keeps_well_formed, well_formed};
use crate::scopes::ScopeStack;

verus! {

/// One run of the verifier. It owns its table, tracker and stack; two runs
/// share nothing.
pub struct Verifier {
    table: BindingTable,
    tracker: BorrowTracker,
    scopes: ScopeStack,
}

impl View for Verifier {
    type V = State;

    closed spec fn view(&self) -> State {
        State {
            bindings: self.table@,
            borrows: self.tracker@,
            scopes: self.scopes.frames(),
            entered: self.scopes.entered(),
        }
    }
}

impl Verifier {
    /// A verifier that has seen no operation yet.
    pub fn new() -> (verifier: Self)
        ensures
            verifier@ == State::initial(),
    {
        Verifier { table: BindingTable::new(), tracker: BorrowTracker::new(), scopes: ScopeStack::new() }
    }

    /// The binding table, for inspection.
    pub fn table(&self) -> (table: &BindingTable)
        ensures
            table@ == self@.bindings,
    {
        &self.table
    }

    /// The borrow tracker, for inspection.
    pub fn tracker(&self) -> (tracker: &BorrowTracker)
        ensures
            tracker@ == self@.borrows,
    {
        &self.tracker
    }

    /// The scope stack, for inspection.
    pub fn scopes(&self) -> (scopes: &ScopeStack)
        ensures
            scopes.frames() == self@.scopes,
            scopes.entered() == self@.entered,
    {
        &self.scopes
    }

    /// Gives up the verifier for its binding table.
    pub fn into_terminal_states(self) -> (states: Vec<Binding>)
        ensures
            states@ == self@.bindings,
    {
        self.table.into_entries()
    }

    /// Moves what `src` owns into a new binding `dst` of frame `scope`.
    fn move_into(&mut self, src: u64, dst: u64, scope: u64) -> (result: Result<(), Finding>)
        ensures
            match result {
                Ok(_) => rules::move_step(old(self)@, src, dst, scope) == Ok::<State, Finding>(
                    final(self)@,
                ),
                Err(f) => rules::move_step(old(self)@, src, dst, scope) == Err::<State, Finding>(f)
                    && final(self)@ == old(self)@,
            },
    {
        match self.table.move_from(src, dst, scope) {
            Ok(_) => Ok(()),
            Err(kind) => Err(Finding { kind, subject: Subject::Binding(src) }),
        }
    }

    /// Borrows what `target` owns into `slot`.
    fn lend(&mut self, target: u64, slot: u64, kind: BorrowKind, span: Option<Span>) -> (result:
        Result<(), Finding>)
        ensures
            match result {
                Ok(_) => rules::borrow_step(old(self)@, target, slot, kind, span) == Ok::<
                    State,
                    Finding,
                >(final(self)@),
                Err(f) => rules::borrow_step(old(self)@, target, slot, kind, span) == Err::<
                    State,
                    Finding,
                >(f) && final(self)@ == old(self)@,
            },
    {
        match self.table.state_of(target) {
            BindingState::Owning(h) => {
                let scope = self.scopes.current();
                match self.tracker.borrow(slot, h, kind, scope, span) {
                    Ok(_) => Ok(()),
                    Err(e) => Err(Finding { kind: e, subject: Subject::Handle(h.id) }),
                }
            },
            _ => Err(Finding { kind: ErrorKind::UseAfterMove, subject: Subject::Binding(target) }),
        }
    }

    /// Checks an access of kind `kind` to `place`.
    fn access(&self, place: Place, kind: BorrowKind) -> (result: Result<(), Finding>)
        ensures
            result == rules::access(self@, place, kind),
    {
        match place {
            Place::Binding(name) => self.table.access(name, kind, &self.tracker),
            Place::Borrow(slot) => match self.tracker.held_in(slot) {
                Some(b) => {
                    if kind == BorrowKind::Exclusive && b.kind == BorrowKind::Shared {
                        Err(
                            Finding {
                                kind: ErrorKind::BorrowConflict,
                                subject: Subject::Handle(b.target),
                            },
                        )
                    } else {
                        Ok(())
                    }
                },
                None => Err(
                    Finding { kind: ErrorKind::DanglingReference, subject: Subject::Slot(slot) },
                ),
            },
        }
    }

    /// Checks whether the borrow held in `slot` may be handed to the caller.
    fn return_borrow(&self, slot: u64) -> (result: Result<(), Finding>)
        ensures
            result == rules::return_borrow_check(self@.bindings, self@.borrows, slot),
    {
        match self.tracker.held_in(slot) {
            Some(b) => {
                let dangling = Err(
                    Finding {
                        kind: ErrorKind::DanglingReference,
                        subject: Subject::Handle(b.target),
                    },
                );
                match self.table.holder(b.target) {
                    Some(j) => {
                        if self.table.entries()[j].scope == ROOT_SCOPE {
                            Ok(())
                        } else {
                            dangling
                        }
                    },
                    None => dangling,
                }
            },
            None => Err(
                Finding { kind: ErrorKind::DanglingReference, subject: Subject::Slot(slot) },
            ),
        }
    }

    /// Closes frame `scope`.
    fn exit(&mut self, scope: u64) -> (result: Result<(), Finding>)
        ensures
            match result {
                Ok(_) => rules::exit_step(old(self)@, scope) == Ok::<State, Finding>(final(self)@),
                Err(f) => rules::exit_step(old(self)@, scope) == Err::<State, Finding>(f)
                    && final(self)@ == old(self)@,
            },
    {
        if !self.scopes.can_exit(scope) {
            return Err(Finding { kind: ErrorKind::ScopeMismatch, subject: Subject::Scope(scope) });
        }
        match self.table.first_borrowed(scope, &self.tracker) {
            Some(h) => Err(
                Finding { kind: ErrorKind::DanglingReference, subject: Subject::Handle(h.id) },
            ),
            None => {
                let _ = self.scopes.exit(scope);
                self.table.drop_scope(scope);
                self.tracker.invalidate_scope(scope);
                Ok(())
            },
        }
    }

    /// Applies one operation: checks what it demands of the current state
    /// and, if the demand is met, carries out its effect. An operation that
    /// breaks a rule is reported and changes nothing. Either way a
    /// well-formed verifier stays well-formed.
    pub fn step(&mut self, op: Op) -> (result: Result<(), Finding>)
        requires
            old(self)@.entered < u64::MAX,
        ensures
            match result {
                Ok(_) => rules::step(old(self)@, op) == Ok::<State, Finding>(final(self)@),
                Err(f) => rules::step(old(self)@, op) == Err::<State, Finding>(f) && final(self)@
                    == old(self)@,
            },
            well_formed(old(self)@) && old(self)@.bindings.len() < usize::MAX ==> well_formed(
                final(self)@,
            ),
    {
        proof {
            if well_formed(self@) && self@.bindings.len() < usize::MAX && rules::step(self@, op)
                is Ok {
                lemma_step_keeps_well_formed(self@, op);
            }
        }
        match op {
            Op::Declare { name, linear, len } => {
                let scope = self.scopes.current();
                self.table.declare(name, scope, linear, len);
                Ok(())
            },
            Op::Move { src, dst } => {
                let scope = self.scopes.current();
                self.move_into(src, dst, scope)
            },
            Op::Clone { src, dst } => {
                let scope = self.scopes.current();
                match self.table.clone_from(src, dst, scope) {
                    Ok(_) => Ok(()),
                    Err(kind) => Err(Finding { kind, subject: Subject::Binding(src) }),
                }
            },
            Op::BorrowShared { target, slot, span } => self.lend(
                target,
                slot,
                BorrowKind::Shared,
                span,
            ),
            Op::BorrowExclusive { target, slot, span } => self.lend(
                target,
                slot,
                BorrowKind::Exclusive,
                span,
            ),
            Op::Release { slot } => {
                self.tracker.release(slot);
                Ok(())
            },
            Op::Read { place } => self.access(place, BorrowKind::Shared),
            Op::Write { place } => self.access(place, BorrowKind::Exclusive),
            Op::Return { place } => match place {
                Place::Binding(name) => self.move_into(name, CALLER_BINDING, ROOT_SCOPE),
                Place::Borrow(slot) => self.return_borrow(slot),
            },
            Op::EnterScope => {
                self.scopes.enter();
                Ok(())
            },
            Op::ExitScope { scope } => self.exit(scope),
        }
    }
}

impl VerifyResult {
    /// Did the log pass?
    pub fn is_valid(&self) -> (valid: bool)
        ensures
            valid == (self@ is Valid),
    {
        match self {
            VerifyResult::Valid { .. } => true,
            VerifyResult::Invalid { .. } => false,
        }
    }

    /// The state in which a valid log left the binding that `name` denotes.
    /// An invalid log has no terminal states.
    pub fn terminal_state(&self, name: u64) -> (state: Option<BindingState>)
        ensures
            state == match self@ {
                Outcome::Valid { terminal } => Some(rules::state_of(terminal, name)),
                Outcome::Invalid { .. } => None,
            },
    {
        match self {
            VerifyResult::Valid { terminal_states } => Some(state_in(terminal_states, name)),
            VerifyResult::Invalid { .. } => None,
        }
    }
}

/// Once a log has run into a violation, looking at more of it changes
/// nothing: the first violation is the verdict.
pub proof fn lemma_violation_is_final(ops: Seq<Op>, k: nat, n: nat)
    requires
        k <= n,
        rules::replay(ops, k) is Err,
    ensures
        rules::replay(ops, n) == rules::replay(ops, k),
    decreases n,
{
    if k < n {
        lemma_violation_is_final(ops, k, (n - 1) as nat);
    }
}

/// Verifies a whole log in one forward pass. The verdict is `Valid`, with
/// the binding table as the last operation left it, if no operation breaks a
/// rule; otherwise it names the first operation that does, the rule, and
/// what it was broken on. Nothing after that operation is looked at.
pub fn verify(ops: &Vec<Op>) -> (verdict: VerifyResult)
    ensures
        verdict@ == rules::outcome(ops@),
{
    let mut verifier = Verifier::new();
    let mut i: usize = 0;
    while i < ops.len()
        invariant
            i <= ops.len(),
            rules::replay(ops@, i as nat) == Ok::<State, rules::Violation>(verifier@),
            verifier@.entered <= i,
        decreases ops.len() - i,
    {
        match verifier.step(ops[i]) {
            Ok(_) => {},
            Err(f) => {
                proof {
                    lemma_violation_is_final(ops@, (i + 1) as nat, ops@.len());
                }
                return VerifyResult::Invalid {
                    op_index: i,
                    error_kind: f.kind,
                    offending: f.subject,
                };
            },
        }
        i += 1;
    }
    VerifyResult::Valid { terminal_states: verifier.into_terminal_states() }
}

} // verus!
