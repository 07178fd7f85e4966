//! The scope stack: which frames are open, innermost last.

use vstd::prelude::*;
use crate::model::{ErrorKind, ROOT_SCOPE};
use crate::rules;

verus! {

/// The open frames. The caller's frame is always open and is not stored;
/// `inner` holds the frames opened inside it, innermost last.
pub struct ScopeStack {
    inner: Vec<u64>,
    entered: u64,
}

impl ScopeStack {
    /// Ids of the open frames, outermost first.
    pub closed spec fn frames(&self) -> Seq<u64> {
        seq![ROOT_SCOPE] + self.inner@
    }

    /// How many frames were entered so far.
    pub closed spec fn entered(&self) -> nat {
        self.entered as nat
    }

    /// A stack with only the caller's frame open.
    pub fn new() -> (stack: Self)
        ensures
            stack.frames() == seq![ROOT_SCOPE],
            stack.entered() == 0,
    {
        let stack = ScopeStack { inner: Vec::new(), entered: 0 };
        assert(stack.frames() =~= seq![ROOT_SCOPE]);
        stack
    }

    /// Id of the innermost open frame. The caller's frame is always open,
    /// as the outermost one.
    pub fn current(&self) -> (id: u64)
        ensures
            id == self.frames().last(),
            self.frames().len() >= 1,
            self.frames()[0] == ROOT_SCOPE,
    {
        let depth: usize = self.inner.len();
        if depth == 0 {
            ROOT_SCOPE
        } else {
            self.inner[depth - 1]
        }
    }

    /// How many frames were entered so far.
    pub fn count(&self) -> (count: u64)
        ensures
            count == self.entered(),
    {
        self.entered
    }

    /// Opens a new frame inside the current one and returns its id. Ids are
    /// handed out in order, starting at one, and are never reused.
    pub fn enter(&mut self) -> (id: u64)
        requires
            old(self).entered() < u64::MAX,
        ensures
            id == old(self).entered() + 1,
            final(self).frames() == old(self).frames().push(id),
            final(self).entered() == old(self).entered() + 1,
    {
        let id: u64 = self.entered + 1;
        self.entered = id;
        self.inner.push(id);
        assert(self.frames() =~= old(self).frames().push(id));
        id
    }

    /// May frame `scope` be closed now? Only the innermost open frame may,
    /// and never the caller's.
    pub fn can_exit(&self, scope: u64) -> (allowed: bool)
        ensures
            allowed == rules::exit_check(self.frames(), scope),
    {
        let depth: usize = self.inner.len();
        depth > 0 && self.inner[depth - 1] == scope
    }

    /// Closes frame `scope`. Only the innermost open frame can be closed,
    /// and never the caller's: any other request is refused with
    /// `ScopeMismatch` and leaves the stack as it was.
    pub fn exit(&mut self, scope: u64) -> (result: Result<(), ErrorKind>)
        ensures
            final(self).entered() == old(self).entered(),
            match result {
                Ok(_) => rules::exit_check(old(self).frames(), scope) && final(self).frames()
                    == old(self).frames().drop_last(),
                Err(e) => e == ErrorKind::ScopeMismatch && !rules::exit_check(
                    old(self).frames(),
                    scope,
                ) && final(self).frames() == old(self).frames(),
            },
    {
        let depth: usize = self.inner.len();
        if depth > 0 && self.inner[depth - 1] == scope {
            self.inner.pop();
            assert(self.frames() =~= old(self).frames().drop_last());
            Ok(())
        } else {
            Err(ErrorKind::ScopeMismatch)
        }
    }
}

} // verus!
