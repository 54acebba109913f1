//! The search engine: depth-first resolution of a goal against the clauses of
//! an environment, within a bound on the depth of unfolding.
use std::sync::Arc;
use vstd::prelude::*;
use crate::environment::{share, Environment};
use crate::formula::{
    clause_views, term_views, Application, ApplicationView, Clause, ClauseView, Goal, GoalView,
    Term, TermView,
};
use crate::infer::{InferenceTable, TableView};
use crate::render::write_goal;

verus! {

/// How deep clause conditions may nest before a search gives up.
pub const DEPTH_LIMIT: usize = 32;

/// What a search found: the tables of its successful branches in the order
/// of discovery, or that it ran into the depth bound.
pub enum Outcome {
    Overflow,
    Answers(Seq<TableView>),
}

/// The outcome of two searches made one after the other.
pub open spec fn join(first: Outcome, rest: Outcome) -> Outcome {
    match first {
        Outcome::Overflow => Outcome::Overflow,
        Outcome::Answers(a) => match rest {
            Outcome::Overflow => Outcome::Overflow,
            Outcome::Answers(b) => Outcome::Answers(a + b),
        },
    }
}

/// The variables `base .. base + n`.
pub open spec fn fresh_variables(base: nat, n: nat) -> Seq<TermView> {
    Seq::new(n, |k: int| TermView::Var((base + k) as nat))
}

/// The `n` placeholders of the universe `universe`.
pub open spec fn fresh_placeholders(universe: nat, n: nat) -> Seq<TermView> {
    Seq::new(n, |k: int| TermView::Rigid(universe, k as nat))
}

/// Proves `goal` under `table`, in the universe `universe`, with `fuel`
/// levels of unfolding left. An atom is resolved against every visible
/// clause in turn; a conjunction proves its second part under each answer
/// to the first; an implication adds its premise in front of the clauses;
/// a universal goal opens a universe and stands for its placeholders (and
/// overflows where a machine word cannot count the universes); an
/// existential goal stands for fresh variables of the current universe.
pub open spec fn search(
    env: Seq<ClauseView>,
    goal: GoalView,
    table: TableView,
    universe: nat,
    fuel: nat,
) -> Outcome
    decreases fuel, goal.height(), 0nat,
{
    match goal {
        GoalView::Apply(app) => resolve_with(env, env, app, table, universe, fuel),
        GoalView::And(l, r) => match search(env, *l, table, universe, fuel) {
            Outcome::Overflow => Outcome::Overflow,
            Outcome::Answers(tables) => search_each(env, *r, tables, universe, fuel),
        },
        GoalView::Implies(c, g) => search(seq![*c] + env, *g, table, universe, fuel),
        GoalView::ForAll(n, b) => {
            if table.universes >= usize::MAX {
                Outcome::Overflow
            } else {
                let inner = table.universes + 1;
                let body = b.instantiate(0, fresh_placeholders(inner, n));
                proof {
                    b.lemma_instantiate_height(0, fresh_placeholders(inner, n));
                }
                search(env, body, table.with_universe(), inner, fuel)
            }
        },
        GoalView::Exists(n, b) => {
            let body = b.instantiate(0, fresh_variables(table.slots.len(), n));
            proof {
                b.lemma_instantiate_height(0, fresh_variables(table.slots.len(), n));
            }
            search(env, body, table.with_variables(n, universe), universe, fuel)
        },
    }
}

/// Proves `goal` under each of `tables` in turn.
pub open spec fn search_each(
    env: Seq<ClauseView>,
    goal: GoalView,
    tables: Seq<TableView>,
    universe: nat,
    fuel: nat,
) -> Outcome
    decreases fuel, goal.height(), tables.len() + 1,
{
    if tables.len() == 0 {
        Outcome::Answers(Seq::empty())
    } else {
        join(
            search(env, goal, tables[0], universe, fuel),
            search_each(env, goal, tables.drop_first(), universe, fuel),
        )
    }
}

/// Resolves the atom `app` against each of `candidates` in turn; conditions
/// are proved in `env`.
pub open spec fn resolve_with(
    env: Seq<ClauseView>,
    candidates: Seq<ClauseView>,
    app: ApplicationView,
    table: TableView,
    universe: nat,
    fuel: nat,
) -> Outcome
    decreases fuel, 0nat, candidates.len() + 1,
{
    if candidates.len() == 0 {
        Outcome::Answers(Seq::empty())
    } else {
        join(
            attempt(env, candidates[0], app, table, universe, fuel),
            resolve_with(env, candidates.drop_first(), app, table, universe, fuel),
        )
    }
}

/// Resolves the atom `app` against one clause: the clause's parameters
/// become fresh variables, its conclusion is unified with the atom, and its
/// condition, if it has one, is proved one level deeper.
pub open spec fn attempt(
    env: Seq<ClauseView>,
    clause: ClauseView,
    app: ApplicationView,
    table: TableView,
    universe: nat,
    fuel: nat,
) -> Outcome
    decreases fuel, 0nat, 0nat,
{
    if clause.conclusion.name != app.name || clause.conclusion.args.len() != app.args.len() {
        Outcome::Answers(Seq::empty())
    } else {
        let values = fresh_variables(table.slots.len(), clause.binders);
        let head = clause.conclusion.instantiate(0, values);
        match table.with_variables(clause.binders, universe).unify_applications(head, app) {
            None => Outcome::Answers(Seq::empty()),
            Some(unified) => match clause.condition {
                None => Outcome::Answers(seq![unified]),
                Some(condition) => if fuel == 0 {
                    Outcome::Overflow
                } else {
                    search(env, condition.instantiate(0, values), unified, universe, (fuel - 1) as nat)
                },
            },
        }
    }
}

/// What an executed search found.
pub enum Search {
    Overflow,
    Answers(Vec<InferenceTable>),
}

/// The views of a sequence of tables, element by element.
pub open spec fn table_views(tables: Seq<InferenceTable>) -> Seq<TableView> {
    Seq::new(tables.len(), |i: int| tables[i]@)
}

impl View for Search {
    type V = Outcome;

    open spec fn view(&self) -> Outcome {
        match self {
            Search::Overflow => Outcome::Overflow,
            Search::Answers(tables) => Outcome::Answers(table_views(tables@)),
        }
    }
}

/// How many scopes the chain of `env` has.
pub open spec fn scopes(env: &Environment) -> nat
    decreases env,
{
    match env.parent {
        Some(p) => scopes(&*p) + 1,
        None => 1,
    }
}

/// The variables `base .. base + n`.
fn make_variables(base: usize, n: usize) -> (r: Vec<Term>)
    requires
        base + n <= usize::MAX,
    ensures
        term_views(r@) == fresh_variables(base as nat, n as nat),
{
    let mut out: Vec<Term> = Vec::new();
    let mut k: usize = 0;
    while k < n
        invariant
            k <= n,
            base + n <= usize::MAX,
            out.len() == k,
            forall|j: int| 0 <= j < k ==> out@[j]@ == TermView::Var((base + j) as nat),
        decreases n - k,
    {
        out.push(Term::Var(base + k));
        k = k + 1;
    }
    assert(term_views(out@) =~= fresh_variables(base as nat, n as nat));
    out
}

/// The `n` placeholders of the universe `universe`.
fn make_placeholders(universe: usize, n: usize) -> (r: Vec<Term>)
    ensures
        term_views(r@) == fresh_placeholders(universe as nat, n as nat),
{
    let mut out: Vec<Term> = Vec::new();
    let mut k: usize = 0;
    while k < n
        invariant
            k <= n,
            out.len() == k,
            forall|j: int| 0 <= j < k ==> out@[j]@ == TermView::Rigid(universe as nat, j as nat),
        decreases n - k,
    {
        out.push(Term::Rigid(universe, k));
        k = k + 1;
    }
    assert(term_views(out@) =~= fresh_placeholders(universe as nat, n as nat));
    out
}

/// Appends the answers `more` to `found`.
fn collect(found: &mut Vec<InferenceTable>, more: Vec<InferenceTable>)
    ensures
        table_views(final(found)@) == table_views(old(found)@) + table_views(more@),
{
    let mut more = more;
    let ghost added = more@;
    found.append(&mut more);
    assert(table_views(found@) =~= table_views(old(found)@) + table_views(added));
}

/// Proves `goal` under `table`; see [`search`].
pub fn prove(
    env: &Arc<Environment>,
    goal: &Goal,
    table: &InferenceTable,
    universe: usize,
    fuel: usize,
) -> (r: Search)
    ensures
        r@ == search(env.visible(), goal@, table@, universe as nat, fuel as nat),
    decreases fuel, goal@.height(), 0nat,
{
    match goal {
        Goal::Apply(app) => resolve_scopes(env, &**env, app, table, universe, fuel),
        Goal::And(l, r) => match prove(env, l, table, universe, fuel) {
            Search::Overflow => Search::Overflow,
            Search::Answers(tables) => prove_each(env, r, &tables, universe, fuel),
        },
        Goal::Implies(c, g) => {
            let mut clauses: Vec<Clause> = Vec::new();
            clauses.push(c.duplicate());
            let inner = Arc::new(Environment::new(Some(share(env)), clauses));
            assert(inner.visible() =~= seq![c@] + env.visible());
            prove(&inner, g, table, universe, fuel)
        },
        Goal::ForAll(n, b) => {
            if table.universes == usize::MAX {
                Search::Overflow
            } else {
                let mut opened = table.duplicate();
                opened.universes = opened.universes + 1;
                let values = make_placeholders(opened.universes, *n);
                let body = b.instantiate(0, &values);
                proof {
                    b@.lemma_instantiate_height(0, term_views(values@));
                }
                prove(env, &body, &opened, opened.universes, fuel)
            }
        },
        Goal::Exists(n, b) => {
            let mut extended = table.duplicate();
            let base = extended.slots.len();
            extended.add_variables(*n, universe);
            assert(extended@.slots.len() == base + *n);
            assert(extended.slots.len() == base + *n);
            let values = make_variables(base, *n);
            let body = b.instantiate(0, &values);
            proof {
                b@.lemma_instantiate_height(0, term_views(values@));
            }
            prove(env, &body, &extended, universe, fuel)
        },
    }
}

/// Proves `goal` under each of `tables` in turn; see [`search_each`].
pub fn prove_each(
    env: &Arc<Environment>,
    goal: &Goal,
    tables: &Vec<InferenceTable>,
    universe: usize,
    fuel: usize,
) -> (r: Search)
    ensures
        r@ == search_each(
            env.visible(),
            goal@,
            table_views(tables@),
            universe as nat,
            fuel as nat,
        ),
    decreases fuel, goal@.height(), tables@.len() + 1,
{
    let ghost all = table_views(tables@);
    let ghost total = search_each(env.visible(), goal@, all, universe as nat, fuel as nat);
    let mut found: Vec<InferenceTable> = Vec::new();
    let mut i: usize = 0;
    assert(all.skip(0) =~= all);
    while i < tables.len()
        invariant
            i <= tables.len(),
            all == table_views(tables@),
            total == search_each(env.visible(), goal@, all, universe as nat, fuel as nat),
            total == join(
                Outcome::Answers(table_views(found@)),
                search_each(env.visible(), goal@, all.skip(i as int), universe as nat, fuel as nat),
            ),
        decreases tables.len() - i,
    {
        let ghost rest = all.skip(i as int);
        assert(rest[0] == tables@[i as int]@);
        assert(rest.drop_first() =~= all.skip(i + 1));
        let ghost before = table_views(found@);
        let ghost after = search_each(
            env.visible(),
            goal@,
            all.skip(i + 1),
            universe as nat,
            fuel as nat,
        );
        assert(search_each(env.visible(), goal@, rest, universe as nat, fuel as nat) == join(
            search(env.visible(), goal@, rest[0], universe as nat, fuel as nat),
            after,
        ));
        match prove(env, goal, &tables[i], universe, fuel) {
            Search::Overflow => {
                return Search::Overflow;
            },
            Search::Answers(more) => {
                collect(&mut found, more);
                proof {
                    lemma_join_answers(before, table_views(more@), after);
                }
            },
        }
        i = i + 1;
    }
    assert(table_views(found@) + Seq::<TableView>::empty() =~= table_views(found@));
    Search::Answers(found)
}

/// Joining is associative where the first two searches gave answers.
pub proof fn lemma_join_answers(a: Seq<TableView>, b: Seq<TableView>, rest: Outcome)
    ensures
        join(Outcome::Answers(a), join(Outcome::Answers(b), rest)) == join(
            Outcome::Answers(a + b),
            rest,
        ),
{
    match rest {
        Outcome::Overflow => {},
        Outcome::Answers(c) => {
            assert(a + (b + c) =~= (a + b) + c);
        },
    }
}

/// Resolves `app` against the clauses that `scope` shows, a scope of the
/// chain of `env`; see [`resolve_with`].
pub fn resolve_scopes(
    env: &Arc<Environment>,
    scope: &Environment,
    app: &Application,
    table: &InferenceTable,
    universe: usize,
    fuel: usize,
) -> (r: Search)
    ensures
        r@ == resolve_with(
            env.visible(),
            scope.visible(),
            app@,
            table@,
            universe as nat,
            fuel as nat,
        ),
    decreases fuel, 0nat, scopes(scope),
{
    let ghost own = clause_views(scope.clauses@);
    let ghost beyond = match &scope.parent {
        Some(p) => p.visible(),
        None => Seq::empty(),
    };
    let ghost total = resolve_with(
        env.visible(),
        scope.visible(),
        app@,
        table@,
        universe as nat,
        fuel as nat,
    );
    assert(own.skip(0) + beyond =~= scope.visible());
    let mut found: Vec<InferenceTable> = Vec::new();
    let mut i: usize = 0;
    while i < scope.clauses.len()
        invariant
            i <= scope.clauses.len(),
            own == clause_views(scope.clauses@),
            total == resolve_with(
                env.visible(),
                scope.visible(),
                app@,
                table@,
                universe as nat,
                fuel as nat,
            ),
            total == join(
                Outcome::Answers(table_views(found@)),
                resolve_with(
                    env.visible(),
                    own.skip(i as int) + beyond,
                    app@,
                    table@,
                    universe as nat,
                    fuel as nat,
                ),
            ),
        decreases scope.clauses.len() - i,
    {
        let ghost candidates = own.skip(i as int) + beyond;
        assert(candidates[0] == scope.clauses@[i as int]@);
        assert(candidates.drop_first() =~= own.skip(i + 1) + beyond);
        let ghost before = table_views(found@);
        let ghost after = resolve_with(
            env.visible(),
            own.skip(i + 1) + beyond,
            app@,
            table@,
            universe as nat,
            fuel as nat,
        );
        assert(resolve_with(
            env.visible(),
            candidates,
            app@,
            table@,
            universe as nat,
            fuel as nat,
        ) == join(
            attempt(env.visible(), candidates[0], app@, table@, universe as nat, fuel as nat),
            after,
        ));
        match attempt_clause(env, &scope.clauses[i], app, table, universe, fuel) {
            Search::Overflow => {
                return Search::Overflow;
            },
            Search::Answers(more) => {
                collect(&mut found, more);
                proof {
                    lemma_join_answers(before, table_views(more@), after);
                }
            },
        }
        i = i + 1;
    }
    assert(own.skip(i as int) + beyond =~= beyond);
    match &scope.parent {
        None => {
            assert(table_views(found@) + Seq::<TableView>::empty() =~= table_views(found@));
            Search::Answers(found)
        },
        Some(p) => match resolve_scopes(env, p, app, table, universe, fuel) {
            Search::Overflow => Search::Overflow,
            Search::Answers(more) => {
                collect(&mut found, more);
                Search::Answers(found)
            },
        },
    }
}

/// Resolves `app` against one clause; see [`attempt`].
pub fn attempt_clause(
    env: &Arc<Environment>,
    clause: &Clause,
    app: &Application,
    table: &InferenceTable,
    universe: usize,
    fuel: usize,
) -> (r: Search)
    ensures
        r@ == attempt(env.visible(), clause@, app@, table@, universe as nat, fuel as nat),
    decreases fuel, 0nat, 0nat,
{
    if clause.conclusion.name != app.name || clause.conclusion.args.len() != app.args.len() {
        assert(table_views(Seq::<InferenceTable>::empty()) =~= Seq::<TableView>::empty());
        return Search::Answers(Vec::new());
    }
    let mut extended = table.duplicate();
    let base = extended.slots.len();
    extended.add_variables(clause.binders, universe);
    assert(extended@.slots.len() == base + clause.binders);
    assert(extended.slots.len() == base + clause.binders);
    let values = make_variables(base, clause.binders);
    let head = clause.conclusion.instantiate(0, &values);
    match extended.unify_applications(&head, app) {
        None => {
            assert(table_views(Seq::<InferenceTable>::empty()) =~= Seq::<TableView>::empty());
            Search::Answers(Vec::new())
        },
        Some(unified) => match &clause.condition {
            None => {
                let mut found: Vec<InferenceTable> = Vec::new();
                let ghost answer = unified@;
                found.push(unified);
                assert(table_views(found@) =~= seq![answer]);
                Search::Answers(found)
            },
            Some(condition) => {
                if fuel == 0 {
                    Search::Overflow
                } else {
                    let body = condition.instantiate(0, &values);
                    prove(env, &body, &unified, universe, fuel - 1)
                }
            },
        },
    }
}

/// How the alternatives of a search are reported.
#[derive(Clone, Copy)]
pub enum Strategy {
    /// Every successful branch is a solution, in the order of discovery.
    DepthFirstSearch,
    /// The goal is proved at most once: more than one successful branch is
    /// reported as ambiguous.
    Rust,
}

/// The root of a search: the goal below its outermost existential
/// quantifiers, and the table with their variables, all of universe 0.
pub open spec fn open_root(goal: GoalView, table: TableView) -> (GoalView, TableView)
    decreases goal.height(),
{
    match goal {
        GoalView::Exists(n, b) => {
            let body = b.instantiate(0, fresh_variables(table.slots.len(), n));
            proof {
                b.lemma_instantiate_height(0, fresh_variables(table.slots.len(), n));
            }
            open_root(body, table.with_variables(n, 0))
        },
        _ => (goal, table),
    }
}

/// The text of `root` under each of `tables`.
pub open spec fn rendered(root: GoalView, tables: Seq<TableView>) -> Seq<Seq<char>> {
    Seq::new(tables.len(), |i: int| root.render(tables[i], Seq::empty()))
}

/// What is reported of an outcome: a sentinel where the search overflowed
/// or, under `Rust`, found more than one branch; else the text of the root
/// goal under each answer.
pub open spec fn present(root: GoalView, outcome: Outcome, strategy: Strategy) -> Seq<Seq<char>> {
    match outcome {
        Outcome::Overflow => seq!["<<overflow>>"@],
        Outcome::Answers(tables) => match strategy {
            Strategy::DepthFirstSearch => rendered(root, tables),
            Strategy::Rust => if tables.len() >= 2 {
                seq!["<<ambiguous>>"@]
            } else {
                rendered(root, tables)
            },
        },
    }
}

/// The outcome of the search for `goal` from its root.
pub open spec fn root_outcome(env: Seq<ClauseView>, goal: GoalView) -> Outcome {
    let (root, table) = open_root(goal, TableView::empty());
    search(env, root, table, 0, DEPTH_LIMIT as nat)
}

/// The solutions of `goal` against the clauses `env`, as reported under
/// `strategy`.
pub open spec fn solutions(env: Seq<ClauseView>, goal: GoalView, strategy: Strategy) -> Seq<
    Seq<char>,
> {
    present(open_root(goal, TableView::empty()).0, root_outcome(env, goal), strategy)
}

/// The views of a sequence of strings, element by element.
pub open spec fn string_views(strings: Seq<String>) -> Seq<Seq<char>> {
    Seq::new(strings.len(), |i: int| strings[i]@)
}

/// The answer to a closed question.
pub enum Solution {
    /// Exactly one branch succeeded; the values of the goal's outermost
    /// existential variables on it.
    Unique(Vec<Term>),
    /// More than one branch succeeded, or the depth bound was reached.
    Ambiguous,
}

/// The mathematical value of a [`Solution`].
pub enum SolutionView {
    Unique(Seq<TermView>),
    Ambiguous,
}

impl View for Solution {
    type V = SolutionView;

    open spec fn view(&self) -> SolutionView {
        match self {
            Solution::Unique(witness) => SolutionView::Unique(term_views(witness@)),
            Solution::Ambiguous => SolutionView::Ambiguous,
        }
    }
}

/// The view of an optional solution.
pub open spec fn decision_view(d: Option<Solution>) -> Option<SolutionView> {
    match d {
        Some(s) => Some(s@),
        None => None,
    }
}

/// The values under `answer` of the first `n` variables.
pub open spec fn witness(n: nat, answer: TableView) -> Seq<TermView> {
    Seq::new(n, |v: int| TermView::Var(v as nat).resolve(answer))
}

/// Whether `goal` is provable against `env`: not at all, on exactly one
/// branch, with the values of its outermost existential variables, or
/// neither.
pub open spec fn decision(env: Seq<ClauseView>, goal: GoalView) -> Option<SolutionView> {
    match root_outcome(env, goal) {
        Outcome::Overflow => Some(SolutionView::Ambiguous),
        Outcome::Answers(tables) => if tables.len() == 0 {
            None
        } else if tables.len() == 1 {
            Some(
                SolutionView::Unique(
                    witness(open_root(goal, TableView::empty()).1.slots.len(), tables[0]),
                ),
            )
        } else {
            Some(SolutionView::Ambiguous)
        },
    }
}

/// The goal below its outermost existential quantifiers; see [`open_root`].
pub fn open_goal(goal: &Goal, table: InferenceTable) -> (r: (Goal, InferenceTable))
    ensures
        (r.0@, r.1@) == open_root(goal@, table@),
    decreases goal@.height(),
{
    match goal {
        Goal::Exists(n, b) => {
            let mut extended = table;
            let base = extended.slots.len();
            extended.add_variables(*n, 0);
            assert(extended@.slots.len() == base + *n);
            assert(extended.slots.len() == base + *n);
            let values = make_variables(base, *n);
            let body = b.instantiate(0, &values);
            proof {
                b@.lemma_instantiate_height(0, term_views(values@));
            }
            open_goal(&body, extended)
        },
        _ => (goal.duplicate(), table),
    }
}

/// The text of `root` under `table`.
fn render_answer(root: &Goal, table: &InferenceTable) -> (r: String)
    ensures
        r@ == root@.render(table@, Seq::empty()),
{
    let mut out = String::new();
    let names: Vec<usize> = Vec::new();
    assert(crate::render::name_views(names@) =~= Seq::<nat>::empty());
    write_goal(&mut out, root, table, &names);
    assert(out@ =~= root@.render(table@, Seq::empty()));
    out
}

/// The entry points of the engine.
pub struct Solver {}

impl Solver {
    /// Searches for `goal` from its root, within the depth limit.
    pub fn outcome(env: &Arc<Environment>, goal: &Goal) -> (r: Search)
        ensures
            r@ == root_outcome(env.visible(), goal@),
    {
        let (root, table) = open_goal(goal, InferenceTable::new());
        prove(env, &root, &table, 0, DEPTH_LIMIT)
    }

    /// Solves `goal` against the clauses that `env` shows and reports the
    /// solutions as `strategy` says: one text per successful branch, or one
    /// sentinel.
    pub fn solve(env: Arc<Environment>, goal: Goal, strategy: Strategy) -> (r: Vec<String>)
        ensures
            string_views(r@) == solutions(env.visible(), goal@, strategy),
    {
        let (root, table) = open_goal(&goal, InferenceTable::new());
        let mut out: Vec<String> = Vec::new();
        match prove(&env, &root, &table, 0, DEPTH_LIMIT) {
            Search::Overflow => {
                out.push(String::from_str("<<overflow>>"));
                assert(string_views(out@) =~= seq!["<<overflow>>"@]);
            },
            Search::Answers(tables) => {
                let ambiguous = match strategy {
                    Strategy::DepthFirstSearch => false,
                    Strategy::Rust => tables.len() >= 2,
                };
                if ambiguous {
                    out.push(String::from_str("<<ambiguous>>"));
                    assert(string_views(out@) =~= seq!["<<ambiguous>>"@]);
                } else {
                    let mut i: usize = 0;
                    while i < tables.len()
                        invariant
                            i <= tables.len(),
                            out.len() == i,
                            forall|j: int|
                                0 <= j < i ==> out@[j]@ == root@.render(
                                    tables@[j]@,
                                    Seq::empty(),
                                ),
                        decreases tables.len() - i,
                    {
                        out.push(render_answer(&root, &tables[i]));
                        i = i + 1;
                    }
                    assert(string_views(out@) =~= rendered(root@, table_views(tables@)));
                }
            },
        }
        out
    }

    /// Decides `goal` against the clauses that `env` shows; see [`decision`].
    pub fn decide(env: &Arc<Environment>, goal: &Goal) -> (r: Option<Solution>)
        ensures
            decision_view(r) == decision(env.visible(), goal@),
    {
        let (root, table) = open_goal(goal, InferenceTable::new());
        let n = table.slots.len();
        match prove(env, &root, &table, 0, DEPTH_LIMIT) {
            Search::Overflow => Some(Solution::Ambiguous),
            Search::Answers(tables) => {
                if tables.len() == 0 {
                    None
                } else if tables.len() == 1 {
                    let answer = &tables[0];
                    let mut values: Vec<Term> = Vec::new();
                    let mut v: usize = 0;
                    while v < n
                        invariant
                            v <= n,
                            values.len() == v,
                            forall|j: int|
                                0 <= j < v ==> values@[j]@ == TermView::Var(j as nat).resolve(
                                    answer@,
                                ),
                        decreases n - v,
                    {
                        values.push(answer.resolve(&Term::Var(v)));
                        v = v + 1;
                    }
                    assert(term_views(values@) =~= witness(n as nat, answer@));
                    Some(Solution::Unique(values))
                } else {
                    Some(Solution::Ambiguous)
                }
            },
        }
    }
}

} // verus!
