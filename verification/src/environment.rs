//! Environments: a chain of scopes, each with the clauses that it adds to
//! what its parent shows.
use std::sync::Arc;
use vstd::prelude::*;
use crate::formula::{clause_views, Clause, ClauseView};

verus! {

/// The clauses visible to a subgoal: those of this scope, then those of the
/// enclosing scopes.
pub struct Environment {
    pub parent: Option<Arc<Environment>>,
    pub clauses: Vec<Clause>,
}

impl Environment {
    /// Every visible clause, the most locally introduced scope first, each
    /// scope in the order in which its clauses were given.
    pub open spec fn visible(&self) -> Seq<ClauseView>
        decreases self,
    {
        match self.parent {
            Some(p) => clause_views(self.clauses@) + p.visible(),
            None => clause_views(self.clauses@),
        }
    }

    /// A scope that adds `clauses` to what `parent` shows.
    pub fn new(parent: Option<Arc<Environment>>, clauses: Vec<Clause>) -> (r: Environment)
        ensures
            r.parent == parent,
            r.clauses == clauses,
    {
        Environment { parent, clauses }
    }
}

impl View for Environment {
    type V = Seq<ClauseView>;

    open spec fn view(&self) -> Seq<ClauseView> {
        self.visible()
    }
}

/// Another handle on the same environment: `Arc::clone`, which copies the
/// pointer and leaves the environment it points to as it is.
#[verifier::external_body]
pub(crate) fn share(env: &Arc<Environment>) -> (r: Arc<Environment>)
    ensures
        r == *env,
{
    Arc::clone(env)
}

} // verus!
