//! Terms, goals and clauses: immutable trees with de Bruijn-indexed bound
//! variables, each with a mathematical view that the contracts speak of.
use vstd::prelude::*;

verus! {

/// An atomic value.
pub enum Term {
    /// A reference to a variable bound by an enclosing quantifier.
    Bound(usize),
    /// An existential variable introduced by the solver.
    Var(usize),
    /// A rigid placeholder: its universe and its position within it.
    Rigid(usize, usize),
    /// A constructor applied to arguments.
    Apply(String, Vec<Term>),
}

/// The mathematical value of a [`Term`].
pub enum TermView {
    Bound(nat),
    Var(nat),
    Rigid(nat, nat),
    Apply(Seq<char>, Seq<TermView>),
}

/// The views of a sequence of terms, element by element.
pub open spec fn term_views(terms: Seq<Term>) -> Seq<TermView> {
    Seq::new(terms.len(), |i: int| terms[i]@)
}

/// The depth reached after entering `n` more binders; it saturates at the
/// largest machine word.
pub open spec fn enter(depth: nat, n: nat) -> nat {
    if depth + n > usize::MAX {
        usize::MAX as nat
    } else {
        depth + n
    }
}

impl Term {
    /// The mathematical value of the term.
    pub open spec fn model(&self) -> TermView
        decreases self,
    {
        match self {
            Term::Bound(i) => TermView::Bound(*i as nat),
            Term::Var(v) => TermView::Var(*v as nat),
            Term::Rigid(u, i) => TermView::Rigid(*u as nat, *i as nat),
            Term::Apply(name, args) => TermView::Apply(
                name@,
                Seq::new(
                    args@.len(),
                    |i: int|
                        if 0 <= i < args@.len() {
                            args@[i].model()
                        } else {
                            TermView::Bound(0)
                        },
                ),
            ),
        }
    }
}

impl View for Term {
    type V = TermView;

    open spec fn view(&self) -> TermView {
        self.model()
    }
}

impl TermView {
    /// Replaces the bound variables `depth .. depth + values.len()` by
    /// `values`; variables bound further out move down by `values.len()`.
    pub open spec fn instantiate(self, depth: nat, values: Seq<TermView>) -> TermView
        decreases self,
    {
        match self {
            TermView::Bound(i) => if i < depth {
                self
            } else if i - depth < values.len() {
                values[i - depth]
            } else {
                TermView::Bound((i - values.len()) as nat)
            },
            TermView::Apply(name, args) => TermView::Apply(
                name,
                Seq::new(
                    args.len(),
                    |k: int|
                        if 0 <= k < args.len() {
                            args[k].instantiate(depth, values)
                        } else {
                            TermView::Bound(0)
                        },
                ),
            ),
            _ => self,
        }
    }

    /// Whether the existential variable `v` occurs in the term.
    pub open spec fn mentions(self, v: nat) -> bool
        decreases self,
    {
        match self {
            TermView::Var(w) => w == v,
            TermView::Apply(_, args) => exists|k: int|
                0 <= k < args.len() && (#[trigger] args[k]).mentions(v),
            _ => false,
        }
    }

    /// Whether every rigid placeholder of the term lies in a universe that
    /// `universe` can see.
    pub open spec fn visible_from(self, universe: nat) -> bool
        decreases self,
    {
        match self {
            TermView::Rigid(u, _) => u <= universe,
            TermView::Apply(_, args) => forall|k: int|
                0 <= k < args.len() ==> (#[trigger] args[k]).visible_from(universe),
            _ => true,
        }
    }
}

/// Instantiation of each term of a sequence.
pub open spec fn instantiate_all(terms: Seq<TermView>, depth: nat, values: Seq<TermView>) -> Seq<
    TermView,
> {
    Seq::new(terms.len(), |k: int| terms[k].instantiate(depth, values))
}

/// The view of an application is the application of the views.
pub proof fn lemma_view_apply(name: String, args: Vec<Term>)
    ensures
        Term::Apply(name, args)@ == TermView::Apply(name@, term_views(args@)),
{
    let t = Term::Apply(name, args);
    assert(t@->Apply_1 =~= term_views(args@));
}

/// An application is instantiated argument by argument.
pub proof fn lemma_instantiate_apply(name: Seq<char>, args: Seq<TermView>, depth: nat, values: Seq<TermView>)
    ensures
        TermView::Apply(name, args).instantiate(depth, values) == TermView::Apply(
            name,
            instantiate_all(args, depth, values),
        ),
{
    let t = TermView::Apply(name, args).instantiate(depth, values);
    assert(t->Apply_1 =~= instantiate_all(args, depth, values));
}

impl Term {
    /// A deep copy.
    pub fn duplicate(&self) -> (r: Term)
        ensures
            r@ == self@,
        decreases self,
    {
        match self {
            Term::Bound(i) => Term::Bound(*i),
            Term::Var(v) => Term::Var(*v),
            Term::Rigid(u, i) => Term::Rigid(*u, *i),
            Term::Apply(name, args) => {
                let mut out: Vec<Term> = Vec::new();
                let mut k: usize = 0;
                while k < args.len()
                    invariant
                        self is Apply,
                        self->Apply_1 == *args,
                        k <= args.len(),
                        out.len() == k,
                        forall|j: int| 0 <= j < k ==> out@[j]@ == args@[j]@,
                    decreases args.len() - k,
                {
                    let t = args[k].duplicate();
                    out.push(t);
                    k = k + 1;
                }
                proof {
                    lemma_view_apply(*name, *args);
                    lemma_view_apply(*name, out);
                    assert(term_views(out@) =~= term_views(args@));
                }
                Term::Apply(name.clone(), out)
            },
        }
    }

    /// The term with the bound variables `depth .. depth + values.len()`
    /// replaced by `values`.
    pub fn instantiate(&self, depth: usize, values: &Vec<Term>) -> (r: Term)
        ensures
            r@ == self@.instantiate(depth as nat, term_views(values@)),
        decreases self,
    {
        match self {
            Term::Bound(i) => {
                if *i < depth {
                    Term::Bound(*i)
                } else if *i - depth < values.len() {
                    values[*i - depth].duplicate()
                } else {
                    Term::Bound(*i - values.len())
                }
            },
            Term::Var(v) => Term::Var(*v),
            Term::Rigid(u, i) => Term::Rigid(*u, *i),
            Term::Apply(name, args) => {
                let mut out: Vec<Term> = Vec::new();
                let mut k: usize = 0;
                while k < args.len()
                    invariant
                        self is Apply,
                        self->Apply_1 == *args,
                        k <= args.len(),
                        out.len() == k,
                        forall|j: int|
                            0 <= j < k ==> out@[j]@ == args@[j]@.instantiate(
                                depth as nat,
                                term_views(values@),
                            ),
                    decreases args.len() - k,
                {
                    let t = args[k].instantiate(depth, values);
                    out.push(t);
                    k = k + 1;
                }
                proof {
                    lemma_view_apply(*name, *args);
                    lemma_view_apply(*name, out);
                    lemma_instantiate_apply(name@, term_views(args@), depth as nat, term_views(values@));
                    assert(term_views(out@) =~= instantiate_all(
                        term_views(args@),
                        depth as nat,
                        term_views(values@),
                    ));
                }
                Term::Apply(name.clone(), out)
            },
        }
    }
}

/// A constructor or predicate name applied to arguments.
pub struct Application {
    pub name: String,
    pub args: Vec<Term>,
}

/// The mathematical value of an [`Application`].
pub struct ApplicationView {
    pub name: Seq<char>,
    pub args: Seq<TermView>,
}

impl View for Application {
    type V = ApplicationView;

    open spec fn view(&self) -> ApplicationView {
        ApplicationView { name: self.name@, args: term_views(self.args@) }
    }
}

impl ApplicationView {
    /// The application with its arguments instantiated.
    pub open spec fn instantiate(self, depth: nat, values: Seq<TermView>) -> ApplicationView {
        ApplicationView { name: self.name, args: instantiate_all(self.args, depth, values) }
    }
}

/// A proposition to prove.
pub enum Goal {
    /// An atomic obligation.
    Apply(Application),
    /// Both must hold.
    And(Box<Goal>, Box<Goal>),
    /// The goal holds where the clause is assumed.
    Implies(Box<Clause>, Box<Goal>),
    /// The body holds for every value of the newly bound variables.
    ForAll(usize, Box<Goal>),
    /// The body holds for some value of the newly bound variables.
    Exists(usize, Box<Goal>),
}

/// A Horn rule: under `binders` universally quantified parameters, the
/// condition implies the conclusion. Without a condition it is a fact.
pub struct Clause {
    pub binders: usize,
    pub condition: Option<Goal>,
    pub conclusion: Application,
}

/// The mathematical value of a [`Goal`].
pub enum GoalView {
    Apply(ApplicationView),
    And(Box<GoalView>, Box<GoalView>),
    Implies(Box<ClauseView>, Box<GoalView>),
    ForAll(nat, Box<GoalView>),
    Exists(nat, Box<GoalView>),
}

/// The mathematical value of a [`Clause`].
pub struct ClauseView {
    pub binders: nat,
    pub condition: Option<GoalView>,
    pub conclusion: ApplicationView,
}

impl Goal {
    /// The mathematical value of the goal.
    pub open spec fn model(&self) -> GoalView
        decreases self,
    {
        match self {
            Goal::Apply(app) => GoalView::Apply(app@),
            Goal::And(l, r) => GoalView::And(Box::new(l.model()), Box::new(r.model())),
            Goal::Implies(c, g) => GoalView::Implies(Box::new(c.model()), Box::new(g.model())),
            Goal::ForAll(n, b) => GoalView::ForAll(*n as nat, Box::new(b.model())),
            Goal::Exists(n, b) => GoalView::Exists(*n as nat, Box::new(b.model())),
        }
    }
}

impl Clause {
    /// The mathematical value of the clause.
    pub open spec fn model(&self) -> ClauseView
        decreases self,
    {
        ClauseView {
            binders: self.binders as nat,
            condition: match self.condition {
                Some(g) => Some(g.model()),
                None => None,
            },
            conclusion: self.conclusion@,
        }
    }
}

impl View for Goal {
    type V = GoalView;

    open spec fn view(&self) -> GoalView {
        self.model()
    }
}

impl View for Clause {
    type V = ClauseView;

    open spec fn view(&self) -> ClauseView {
        self.model()
    }
}

/// The views of a sequence of clauses, element by element.
pub open spec fn clause_views(clauses: Seq<Clause>) -> Seq<ClauseView> {
    Seq::new(clauses.len(), |i: int| clauses[i]@)
}

impl GoalView {
    /// Replaces the bound variables `depth .. depth + values.len()`, counted
    /// from outside the goal, by `values`.
    pub open spec fn instantiate(self, depth: nat, values: Seq<TermView>) -> GoalView
        decreases self,
    {
        match self {
            GoalView::Apply(app) => GoalView::Apply(app.instantiate(depth, values)),
            GoalView::And(l, r) => GoalView::And(
                Box::new(l.instantiate(depth, values)),
                Box::new(r.instantiate(depth, values)),
            ),
            GoalView::Implies(c, g) => GoalView::Implies(
                Box::new(c.instantiate(depth, values)),
                Box::new(g.instantiate(depth, values)),
            ),
            GoalView::ForAll(n, b) => GoalView::ForAll(
                n,
                Box::new(b.instantiate(enter(depth, n), values)),
            ),
            GoalView::Exists(n, b) => GoalView::Exists(
                n,
                Box::new(b.instantiate(enter(depth, n), values)),
            ),
        }
    }

    /// The number of nested connectives down to the deepest atom; premises
    /// do not count.
    pub open spec fn height(self) -> nat
        decreases self,
    {
        match self {
            GoalView::Apply(_) => 1,
            GoalView::And(l, r) => if l.height() >= r.height() {
                l.height() + 1
            } else {
                r.height() + 1
            },
            GoalView::Implies(_, g) => g.height() + 1,
            GoalView::ForAll(_, b) => b.height() + 1,
            GoalView::Exists(_, b) => b.height() + 1,
        }
    }

    /// Instantiation changes terms only, so it keeps the height.
    pub proof fn lemma_instantiate_height(self, depth: nat, values: Seq<TermView>)
        ensures
            self.instantiate(depth, values).height() == self.height(),
        decreases self,
    {
        match self {
            GoalView::Apply(_) => {},
            GoalView::And(l, r) => {
                l.lemma_instantiate_height(depth, values);
                r.lemma_instantiate_height(depth, values);
            },
            GoalView::Implies(_, g) => {
                g.lemma_instantiate_height(depth, values);
            },
            GoalView::ForAll(n, b) => {
                b.lemma_instantiate_height(enter(depth, n), values);
            },
            GoalView::Exists(n, b) => {
                b.lemma_instantiate_height(enter(depth, n), values);
            },
        }
    }
}

impl ClauseView {
    /// Replaces the bound variables `depth .. depth + values.len()`, counted
    /// from outside the clause's own binders, by `values`.
    pub open spec fn instantiate(self, depth: nat, values: Seq<TermView>) -> ClauseView
        decreases self,
    {
        ClauseView {
            binders: self.binders,
            condition: match self.condition {
                Some(g) => Some(g.instantiate(enter(depth, self.binders), values)),
                None => None,
            },
            conclusion: self.conclusion.instantiate(enter(depth, self.binders), values),
        }
    }
}

/// The depth after entering `n` more binders.
pub fn enter_binders(depth: usize, n: usize) -> (r: usize)
    ensures
        r == enter(depth as nat, n as nat),
{
    if n > usize::MAX - depth {
        usize::MAX
    } else {
        depth + n
    }
}

/// Deep copies of the terms of `terms`.
pub fn duplicate_terms(terms: &Vec<Term>) -> (r: Vec<Term>)
    ensures
        term_views(r@) == term_views(terms@),
{
    let mut out: Vec<Term> = Vec::new();
    let mut k: usize = 0;
    while k < terms.len()
        invariant
            k <= terms.len(),
            out.len() == k,
            forall|j: int| 0 <= j < k ==> out@[j]@ == terms@[j]@,
        decreases terms.len() - k,
    {
        out.push(terms[k].duplicate());
        k = k + 1;
    }
    assert(term_views(out@) =~= term_views(terms@));
    out
}

/// The terms of `terms`, each instantiated.
pub fn instantiate_terms(terms: &Vec<Term>, depth: usize, values: &Vec<Term>) -> (r: Vec<Term>)
    ensures
        term_views(r@) == instantiate_all(term_views(terms@), depth as nat, term_views(values@)),
{
    let mut out: Vec<Term> = Vec::new();
    let mut k: usize = 0;
    while k < terms.len()
        invariant
            k <= terms.len(),
            out.len() == k,
            forall|j: int|
                0 <= j < k ==> out@[j]@ == terms@[j]@.instantiate(
                    depth as nat,
                    term_views(values@),
                ),
        decreases terms.len() - k,
    {
        out.push(terms[k].instantiate(depth, values));
        k = k + 1;
    }
    assert(term_views(out@) =~= instantiate_all(
        term_views(terms@),
        depth as nat,
        term_views(values@),
    ));
    out
}

impl Application {
    /// A deep copy.
    pub fn duplicate(&self) -> (r: Application)
        ensures
            r@ == self@,
    {
        Application { name: self.name.clone(), args: duplicate_terms(&self.args) }
    }

    /// The application with its arguments instantiated.
    pub fn instantiate(&self, depth: usize, values: &Vec<Term>) -> (r: Application)
        ensures
            r@ == self@.instantiate(depth as nat, term_views(values@)),
    {
        Application { name: self.name.clone(), args: instantiate_terms(&self.args, depth, values) }
    }
}

impl Goal {
    /// A deep copy.
    pub fn duplicate(&self) -> (r: Goal)
        ensures
            r@ == self@,
        decreases self,
    {
        match self {
            Goal::Apply(app) => Goal::Apply(app.duplicate()),
            Goal::And(l, r) => Goal::And(Box::new(l.duplicate()), Box::new(r.duplicate())),
            Goal::Implies(c, g) => Goal::Implies(Box::new(c.duplicate()), Box::new(g.duplicate())),
            Goal::ForAll(n, b) => Goal::ForAll(*n, Box::new(b.duplicate())),
            Goal::Exists(n, b) => Goal::Exists(*n, Box::new(b.duplicate())),
        }
    }

    /// The goal with the bound variables `depth .. depth + values.len()`
    /// replaced by `values`.
    pub fn instantiate(&self, depth: usize, values: &Vec<Term>) -> (r: Goal)
        ensures
            r@ == self@.instantiate(depth as nat, term_views(values@)),
        decreases self,
    {
        match self {
            Goal::Apply(app) => Goal::Apply(app.instantiate(depth, values)),
            Goal::And(l, r) => Goal::And(
                Box::new(l.instantiate(depth, values)),
                Box::new(r.instantiate(depth, values)),
            ),
            Goal::Implies(c, g) => Goal::Implies(
                Box::new(c.instantiate(depth, values)),
                Box::new(g.instantiate(depth, values)),
            ),
            Goal::ForAll(n, b) => Goal::ForAll(
                *n,
                Box::new(b.instantiate(enter_binders(depth, *n), values)),
            ),
            Goal::Exists(n, b) => Goal::Exists(
                *n,
                Box::new(b.instantiate(enter_binders(depth, *n), values)),
            ),
        }
    }
}

impl Clause {
    /// A deep copy.
    pub fn duplicate(&self) -> (r: Clause)
        ensures
            r@ == self@,
        decreases self,
    {
        let condition = match &self.condition {
            Some(g) => Some(g.duplicate()),
            None => None,
        };
        Clause { binders: self.binders, condition, conclusion: self.conclusion.duplicate() }
    }

    /// The clause with the bound variables `depth .. depth + values.len()`,
    /// counted from outside its own binders, replaced by `values`.
    pub fn instantiate(&self, depth: usize, values: &Vec<Term>) -> (r: Clause)
        ensures
            r@ == self@.instantiate(depth as nat, term_views(values@)),
        decreases self,
    {
        let inner = enter_binders(depth, self.binders);
        let condition = match &self.condition {
            Some(g) => Some(g.instantiate(inner, values)),
            None => None,
        };
        Clause {
            binders: self.binders,
            condition,
            conclusion: self.conclusion.instantiate(inner, values),
        }
    }
}

} // verus!
