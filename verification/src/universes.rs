//! Placeholders stay in their universes: no variable is ever bound to a
//! term that holds a placeholder of a universe which the variable cannot
//! see.
use vstd::prelude::*;
use crate::formula::{
    enter, instantiate_all, lemma_instantiate_apply, ApplicationView, ClauseView, GoalView,
    TermView,
};
use crate::infer::{lemma_replace_apply, lemma_resolve_apply, replace_all, resolve_all, TableView};
use crate::solve::{
    attempt, fresh_placeholders, fresh_variables, open_root, resolve_with, root_outcome, search,
    search_each, Outcome, DEPTH_LIMIT,
};
use crate::soundness::{lemma_extended, lemma_open_root_sound, lemma_search_sound};
use crate::unify_laws::{
    law_unify_sound, lemma_mentions_apply, lemma_replace_absent, lemma_replace_mentions,
    lemma_resolve_settles, lemma_settles_args, lemma_unify_resolved_sound,
};

verus! {

impl TableView {
    /// Whether the table holds every variable that the term mentions.
    pub open spec fn covers(self, t: TermView) -> bool {
        forall|w: nat| t.mentions(w) ==> w < self.slots.len()
    }

    /// Whether the variable `v` may be bound to `t`: the placeholders of
    /// `t` lie in universes that `v` can see, and the variables of `t` are
    /// variables of the table that see no more than `v` does.
    pub open spec fn sees(self, v: int, t: TermView) -> bool {
        &&& t.visible_from(self.slots[v].universe)
        &&& forall|w: nat|
            t.mentions(w) ==> w < self.slots.len() && self.slots[w as int].universe
                <= self.slots[v].universe
    }

    /// Whether `after` has at least the variables of the table, and none
    /// of them sees more than it did.
    pub open spec fn kept_by(self, after: TableView) -> bool {
        &&& after.slots.len() >= self.slots.len()
        &&& forall|v: int|
            0 <= v < self.slots.len() ==> (#[trigger] after.slots[v]).universe
                <= self.slots[v].universe
    }

    /// Whether every bound variable may be bound to its binding.
    pub open spec fn scoped(self) -> bool {
        forall|v: int|
            0 <= v < self.slots.len() ==> ((#[trigger] self.slots[v]).binding matches Some(t)
                ==> self.sees(v, t))
    }
}

/// What is visible from a universe is visible from every universe above.
pub proof fn lemma_visible_above(t: TermView, low: nat, high: nat)
    requires
        t.visible_from(low),
        low <= high,
    ensures
        t.visible_from(high),
    decreases t,
{
    match t {
        TermView::Apply(_, args) => {
            assert forall|k: int| 0 <= k < args.len() implies (#[trigger] args[k]).visible_from(
                high,
            ) by {
                lemma_visible_above(args[k], low, high);
            }
        },
        _ => {},
    }
}

/// An application is visible where its arguments are.
pub proof fn lemma_visible_apply(name: Seq<char>, args: Seq<TermView>, universe: nat)
    ensures
        TermView::Apply(name, args).visible_from(universe) == forall|k: int|
            0 <= k < args.len() ==> (#[trigger] args[k]).visible_from(universe),
{
    let t = TermView::Apply(name, args);
    assert(t->Apply_1 == args);
}

/// A term stays visible where a variable of it is replaced by a visible
/// term.
pub proof fn lemma_replace_visible(y: TermView, x: nat, by: TermView, universe: nat)
    requires
        y.visible_from(universe),
        by.visible_from(universe),
    ensures
        y.replace(x, by).visible_from(universe),
    decreases y,
{
    match y {
        TermView::Apply(name, args) => {
            lemma_replace_apply(name, args, x, by);
            let replaced = replace_all(args, x, by);
            lemma_visible_apply(name, replaced, universe);
            assert forall|k: int| 0 <= k < replaced.len() implies (
            #[trigger] replaced[k]).visible_from(universe) by {
                assert(args[k].visible_from(universe));
                lemma_replace_visible(args[k], x, by, universe);
            }
        },
        _ => {},
    }
}

/// A table holds the variables of what it resolves, where it holds those
/// of the term and of its own bindings.
pub proof fn lemma_resolve_covers(table: TableView, x: TermView)
    requires
        table.scoped(),
        table.covers(x),
    ensures
        table.covers(x.resolve(table)),
    decreases x,
{
    match x {
        TermView::Apply(name, args) => {
            lemma_resolve_apply(name, args, table);
            let resolved = resolve_all(args, table);
            assert forall|w: nat| x.resolve(table).mentions(w) implies w < table.slots.len() by {
                lemma_mentions_apply(name, resolved, w);
                let k = choose|k: int| 0 <= k < resolved.len() && (#[trigger] resolved[k]).mentions(w);
                assert forall|u: nat| args[k].mentions(u) implies u < table.slots.len() by {
                    lemma_mentions_apply(name, args, u);
                }
                lemma_resolve_covers(table, args[k]);
            }
        },
        TermView::Var(v) => {
            if table.binds(v) {
                assert(table.sees(v as int, table.slots[v as int].binding->0));
            } else {
                assert(x.mentions(v));
            }
        },
        _ => {},
    }
}

/// A binding keeps the placeholders in their universes.
pub proof fn lemma_bind_scoped(table: TableView, x: nat, term: TermView)
    requires
        table.well_formed(),
        table.scoped(),
        table.settles(term),
        table.covers(term),
        table.bind(x, term) is Some,
    ensures
        table.bind(x, term)->0.scoped(),
        table.bind(x, term)->0.slots.len() == table.slots.len(),
        table.kept_by(table.bind(x, term)->0),
{
    let after = table.bind(x, term)->0;
    let home = table.slots[x as int].universe;
    assert forall|w: int| 0 <= w < table.slots.len() implies (#[trigger] after.slots[w]).universe
        <= table.slots[w].universe && (term.mentions(w as nat) ==> after.slots[w].universe
        <= home) by {}
    assert forall|v: int| 0 <= v < after.slots.len() implies ((
    #[trigger] after.slots[v]).binding matches Some(t) ==> after.sees(v, t)) by {
        if after.slots[v].binding is Some {
            let t = after.slots[v].binding->0;
            if v == x {
                assert forall|w: nat| t.mentions(w) implies w < after.slots.len()
                    && after.slots[w as int].universe <= after.slots[v].universe by {
                    assert(after.slots[w as int].universe <= home);
                }
            } else {
                let old = table.slots[v].binding->0;
                assert(table.sees(v, old));
                assert(table.binds(v as nat));
                assert(!term.mentions(v as nat));
                assert(after.slots[v].universe == table.slots[v].universe);
                if old.mentions(x) {
                    lemma_visible_above(term, home, table.slots[v].universe);
                    lemma_replace_visible(old, x, term, table.slots[v].universe);
                    assert forall|w: nat| t.mentions(w) implies w < after.slots.len()
                        && after.slots[w as int].universe <= after.slots[v].universe by {
                        lemma_replace_mentions(old, x, term, w);
                        assert(after.slots[w as int].universe <= table.slots[w as int].universe);
                    }
                } else {
                    lemma_replace_absent(old, x, term);
                    assert forall|w: nat| t.mentions(w) implies w < after.slots.len()
                        && after.slots[w as int].universe <= after.slots[v].universe by {
                        assert(after.slots[w as int].universe <= table.slots[w as int].universe);
                    }
                }
            }
        }
    }
}

/// Unification of resolved terms keeps the placeholders in their
/// universes, and adds no variable.
pub proof fn lemma_unify_resolved_scoped(table: TableView, a: TermView, b: TermView)
    requires
        table.well_formed(),
        table.scoped(),
        table.settles(a),
        table.settles(b),
        table.covers(a),
        table.covers(b),
    ensures
        table.unify_resolved(a, b) matches Some(u) ==> u.table.scoped() && u.table.slots.len()
            == table.slots.len() && table.kept_by(u.table),
    decreases table.unbound(), a, 1nat, 0nat,
{
    match a {
        TermView::Var(x) => {
            if b != a && table.bind(x, b) is Some {
                lemma_bind_scoped(table, x, b);
            }
        },
        TermView::Apply(name, args) => match b {
            TermView::Var(y) => {
                if table.bind(y, a) is Some {
                    lemma_bind_scoped(table, y, a);
                }
            },
            TermView::Apply(other, others) => {
                if name == other && args.len() == others.len() {
                    lemma_unify_args_scoped(table, a, b, 0);
                }
            },
            _ => {},
        },
        _ => match b {
            TermView::Var(y) => {
                if table.bind(y, a) is Some {
                    lemma_bind_scoped(table, y, a);
                }
            },
            _ => {},
        },
    }
}

/// The arguments of a term whose variables a table holds are held too.
pub proof fn lemma_covers_args(table: TableView, name: Seq<char>, args: Seq<TermView>, k: int)
    requires
        table.covers(TermView::Apply(name, args)),
        0 <= k < args.len(),
    ensures
        table.covers(args[k]),
{
    assert forall|w: nat| args[k].mentions(w) implies w < table.slots.len() by {
        lemma_mentions_apply(name, args, w);
    }
}

/// The same, of the arguments from position `i` on.
pub proof fn lemma_unify_args_scoped(table: TableView, a: TermView, b: TermView, i: nat)
    requires
        table.well_formed(),
        table.scoped(),
        table.settles(a),
        table.settles(b),
        table.covers(a),
        table.covers(b),
        a is Apply,
        b is Apply,
    ensures
        table.unify_args(a, b, i) matches Some(u) ==> u.table.scoped() && u.table.slots.len()
            == table.slots.len() && table.kept_by(u.table),
    decreases table.unbound(), a, 0nat, a->Apply_1.len() - i,
{
    let args = a->Apply_1;
    let others = b->Apply_1;
    if i < args.len() && i < others.len() {
        lemma_settles_args(table, a->Apply_0, args, i as int);
        lemma_settles_args(table, b->Apply_0, others, i as int);
        lemma_covers_args(table, a->Apply_0, args, i as int);
        lemma_covers_args(table, b->Apply_0, others, i as int);
        lemma_unify_resolved_scoped(table, args[i as int], others[i as int]);
        lemma_unify_resolved_sound(table, args[i as int], others[i as int]);
        table.lemma_unify_resolved_progress(args[i as int], others[i as int]);
        match table.unify_resolved(args[i as int], others[i as int]) {
            None => {},
            Some(first) => {
                if !first.changed {
                    lemma_unify_args_scoped(table, a, b, i + 1);
                } else {
                    let next = first.table;
                    lemma_resolve_settles(next, a);
                    lemma_resolve_settles(next, b);
                    lemma_resolve_covers(next, a);
                    lemma_resolve_covers(next, b);
                    lemma_resolve_apply(a->Apply_0, args, next);
                    lemma_resolve_apply(b->Apply_0, others, next);
                    lemma_unify_args_scoped(next, a.resolve(next), b.resolve(next), i + 1);
                }
            },
        }
    }
}

/// The unifier keeps the placeholders in their universes: where the table
/// is well formed and scoped, and holds the variables of both terms, the
/// table that a successful unification hands back is scoped and holds the
/// same variables.
pub proof fn law_unify_scoped(table: TableView, a: TermView, b: TermView)
    requires
        table.well_formed(),
        table.scoped(),
        table.covers(a),
        table.covers(b),
    ensures
        table.unify(a, b) matches Some(after) ==> after.scoped() && after.slots.len()
            == table.slots.len() && table.kept_by(after),
{
    lemma_resolve_settles(table, a);
    lemma_resolve_settles(table, b);
    lemma_resolve_covers(table, a);
    lemma_resolve_covers(table, b);
    lemma_unify_resolved_scoped(table, a.resolve(table), b.resolve(table));
}

/// Whether one of the terms mentions the variable `w`.
pub open spec fn any_mentions(terms: Seq<TermView>, w: nat) -> bool {
    exists|k: int| 0 <= k < terms.len() && (#[trigger] terms[k]).mentions(w)
}

impl GoalView {
    /// Whether the variable `w` occurs in the goal.
    pub open spec fn mentions(self, w: nat) -> bool
        decreases self,
    {
        match self {
            GoalView::Apply(app) => any_mentions(app.args, w),
            GoalView::And(l, r) => l.mentions(w) || r.mentions(w),
            GoalView::Implies(c, g) => c.mentions(w) || g.mentions(w),
            GoalView::ForAll(_, b) => b.mentions(w),
            GoalView::Exists(_, b) => b.mentions(w),
        }
    }
}

impl ClauseView {
    /// Whether the variable `w` occurs in the clause.
    pub open spec fn mentions(self, w: nat) -> bool
        decreases self,
    {
        any_mentions(self.conclusion.args, w) || match self.condition {
            Some(g) => g.mentions(w),
            None => false,
        }
    }
}

/// Whether the goal and the clauses mention variables below `n` only.
pub open spec fn within(env: Seq<ClauseView>, goal: GoalView, n: nat) -> bool {
    &&& forall|w: nat| goal.mentions(w) ==> w < n
    &&& forall|i: int, w: nat| 0 <= i < env.len() && #[trigger] env[i].mentions(w) ==> w < n
}

/// An instantiated term mentions what the term or one of the values
/// mentions.
pub proof fn lemma_instantiate_mentions(t: TermView, depth: nat, values: Seq<TermView>, w: nat)
    requires
        t.instantiate(depth, values).mentions(w),
    ensures
        t.mentions(w) || any_mentions(values, w),
    decreases t,
{
    match t {
        TermView::Apply(name, args) => {
            lemma_instantiate_apply(name, args, depth, values);
            let made = instantiate_all(args, depth, values);
            lemma_mentions_apply(name, made, w);
            let k = choose|k: int| 0 <= k < made.len() && (#[trigger] made[k]).mentions(w);
            lemma_instantiate_mentions(args[k], depth, values, w);
            lemma_mentions_apply(name, args, w);
        },
        TermView::Bound(i) => {
            if i >= depth && i - depth < values.len() {
                assert(values[i - depth].mentions(w));
            }
        },
        _ => {},
    }
}

/// The same, of each term of a sequence.
pub proof fn lemma_instantiate_all_mentions(
    terms: Seq<TermView>,
    depth: nat,
    values: Seq<TermView>,
    w: nat,
)
    requires
        any_mentions(instantiate_all(terms, depth, values), w),
    ensures
        any_mentions(terms, w) || any_mentions(values, w),
{
    let made = instantiate_all(terms, depth, values);
    let k = choose|k: int| 0 <= k < made.len() && (#[trigger] made[k]).mentions(w);
    lemma_instantiate_mentions(terms[k], depth, values, w);
}

/// The same, of a goal.
pub proof fn lemma_goal_instantiate_mentions(
    goal: GoalView,
    depth: nat,
    values: Seq<TermView>,
    w: nat,
)
    requires
        goal.instantiate(depth, values).mentions(w),
    ensures
        goal.mentions(w) || any_mentions(values, w),
    decreases goal,
{
    match goal {
        GoalView::Apply(app) => {
            lemma_instantiate_all_mentions(app.args, depth, values, w);
        },
        GoalView::And(l, r) => {
            if l.instantiate(depth, values).mentions(w) {
                lemma_goal_instantiate_mentions(*l, depth, values, w);
            } else {
                lemma_goal_instantiate_mentions(*r, depth, values, w);
            }
        },
        GoalView::Implies(c, g) => {
            if c.instantiate(depth, values).mentions(w) {
                lemma_clause_instantiate_mentions(*c, depth, values, w);
            } else {
                lemma_goal_instantiate_mentions(*g, depth, values, w);
            }
        },
        GoalView::ForAll(n, b) => {
            lemma_goal_instantiate_mentions(*b, enter(depth, n), values, w);
        },
        GoalView::Exists(n, b) => {
            lemma_goal_instantiate_mentions(*b, enter(depth, n), values, w);
        },
    }
}

/// The same, of a clause.
pub proof fn lemma_clause_instantiate_mentions(
    clause: ClauseView,
    depth: nat,
    values: Seq<TermView>,
    w: nat,
)
    requires
        clause.instantiate(depth, values).mentions(w),
    ensures
        clause.mentions(w) || any_mentions(values, w),
    decreases clause,
{
    let inner = enter(depth, clause.binders);
    if any_mentions(clause.instantiate(depth, values).conclusion.args, w) {
        lemma_instantiate_all_mentions(clause.conclusion.args, inner, values, w);
    } else {
        match clause.condition {
            Some(g) => {
                lemma_goal_instantiate_mentions(g, inner, values, w);
            },
            None => {},
        }
    }
}

/// More unbound variables, or one more universe, keep the placeholders in
/// their universes.
pub proof fn lemma_extended_scoped(table: TableView, n: nat, universe: nat)
    requires
        table.scoped(),
    ensures
        table.with_variables(n, universe).scoped(),
        table.kept_by(table.with_variables(n, universe)),
        table.with_universe().scoped(),
        table.kept_by(table.with_universe()),
{
    let more = table.with_variables(n, universe);
    assert forall|v: int| 0 <= v < more.slots.len() implies ((
    #[trigger] more.slots[v]).binding matches Some(t) ==> more.sees(v, t)) by {
        if more.slots[v].binding is Some {
            assert(v < table.slots.len());
            let t = table.slots[v].binding->0;
            assert(table.sees(v, t));
            assert forall|w: nat| t.mentions(w) implies w < more.slots.len()
                && more.slots[w as int].universe <= more.slots[v].universe by {
                assert(more.slots[w as int] == table.slots[w as int]);
            }
        }
    }
    let opened = table.with_universe();
    assert forall|v: int| 0 <= v < opened.slots.len() implies ((
    #[trigger] opened.slots[v]).binding matches Some(t) ==> opened.sees(v, t)) by {
        if opened.slots[v].binding is Some {
            assert(table.sees(v, table.slots[v].binding->0));
        }
    }
}

/// Whether each of `answers` keeps the placeholders in their universes and
/// keeps the variables of `before`.
pub open spec fn all_scoped(before: TableView, answers: Seq<TableView>) -> bool {
    forall|i: int|
        0 <= i < answers.len() ==> (#[trigger] answers[i]).scoped() && before.kept_by(answers[i])
}

/// The search keeps the placeholders in their universes.
pub proof fn lemma_search_scoped(
    env: Seq<ClauseView>,
    goal: GoalView,
    table: TableView,
    universe: nat,
    fuel: nat,
)
    requires
        table.well_formed(),
        table.scoped(),
        within(env, goal, table.slots.len()),
    ensures
        search(env, goal, table, universe, fuel) matches Outcome::Answers(answers) ==> all_scoped(
            table,
            answers,
        ),
    decreases fuel, goal.height(), 0nat,
{
    match goal {
        GoalView::Apply(app) => {
            lemma_resolve_scoped(env, env, app, table, universe, fuel);
        },
        GoalView::And(l, r) => {
            assert forall|w: nat| l.mentions(w) implies w < table.slots.len() by {
                assert(goal.mentions(w));
            }
            assert forall|w: nat| r.mentions(w) implies w < table.slots.len() by {
                assert(goal.mentions(w));
            }
            lemma_search_scoped(env, *l, table, universe, fuel);
            lemma_search_sound(env, *l, table, universe, fuel);
            match search(env, *l, table, universe, fuel) {
                Outcome::Overflow => {},
                Outcome::Answers(tables) => {
                    lemma_search_each_scoped(env, *r, table, tables, universe, fuel);
                },
            }
        },
        GoalView::Implies(c, g) => {
            let inner = seq![*c] + env;
            assert forall|i: int, w: nat| 0 <= i < inner.len() && #[trigger] inner[i].mentions(
                w,
            ) implies w < table.slots.len() by {
                if i > 0 {
                    assert(inner[i] == env[i - 1]);
                    assert(env[i - 1].mentions(w));
                } else {
                    assert(goal.mentions(w));
                }
            }
            assert forall|w: nat| g.mentions(w) implies w < table.slots.len() by {
                assert(goal.mentions(w));
            }
            lemma_search_scoped(inner, *g, table, universe, fuel);
        },
        GoalView::ForAll(n, b) => {
            if table.universes < usize::MAX {
                let inner = table.universes + 1;
                let values = fresh_placeholders(inner, n);
                let body = b.instantiate(0, values);
                b.lemma_instantiate_height(0, values);
                lemma_extended(table, 0, 0);
                lemma_extended_scoped(table, 0, 0);
                assert forall|w: nat| body.mentions(w) implies w < table.slots.len() by {
                    lemma_goal_instantiate_mentions(*b, 0, values, w);
                    if b.mentions(w) {
                        assert(goal.mentions(w));
                    }
                }
                lemma_search_scoped(env, body, table.with_universe(), inner, fuel);
            }
        },
        GoalView::Exists(n, b) => {
            let values = fresh_variables(table.slots.len(), n);
            let body = b.instantiate(0, values);
            let extended = table.with_variables(n, universe);
            b.lemma_instantiate_height(0, values);
            lemma_extended(table, n, universe);
            lemma_extended_scoped(table, n, universe);
            assert forall|w: nat| body.mentions(w) implies w < extended.slots.len() by {
                lemma_goal_instantiate_mentions(*b, 0, values, w);
                if b.mentions(w) {
                    assert(goal.mentions(w));
                }
                if any_mentions(values, w) {
                    let k = choose|k: int| 0 <= k < values.len() && (#[trigger] values[k]).mentions(w);
                    assert(values[k] == TermView::Var((table.slots.len() + k) as nat));
                }
            }
            lemma_search_scoped(env, body, extended, universe, fuel);
        },
    }
}

/// The same, of the search from each of several tables that keep the
/// variables of `before`.
pub proof fn lemma_search_each_scoped(
    env: Seq<ClauseView>,
    goal: GoalView,
    before: TableView,
    tables: Seq<TableView>,
    universe: nat,
    fuel: nat,
)
    requires
        within(env, goal, before.slots.len()),
        forall|j: int|
            0 <= j < tables.len() ==> (#[trigger] tables[j]).well_formed() && tables[j].scoped()
                && before.kept_by(tables[j]),
    ensures
        search_each(env, goal, tables, universe, fuel) matches Outcome::Answers(answers)
            ==> all_scoped(before, answers),
    decreases fuel, goal.height(), tables.len() + 1,
{
    if tables.len() > 0 {
        let rest = tables.drop_first();
        assert(before.kept_by(tables[0]));
        lemma_search_scoped(env, goal, tables[0], universe, fuel);
        assert forall|j: int| 0 <= j < rest.len() implies (#[trigger] rest[j]).well_formed()
            && rest[j].scoped() && before.kept_by(rest[j]) by {
            assert(rest[j] == tables[j + 1]);
        }
        lemma_search_each_scoped(env, goal, before, rest, universe, fuel);
        match search(env, goal, tables[0], universe, fuel) {
            Outcome::Overflow => {},
            Outcome::Answers(first) => match search_each(env, goal, rest, universe, fuel) {
                Outcome::Overflow => {},
                Outcome::Answers(more) => {
                    let answers = first + more;
                    assert forall|i: int| 0 <= i < answers.len() implies (
                    #[trigger] answers[i]).scoped() && before.kept_by(answers[i]) by {
                        if i < first.len() {
                            assert(answers[i] == first[i]);
                            assert(tables[0].kept_by(first[i]));
                        } else {
                            assert(answers[i] == more[i - first.len()]);
                        }
                    }
                },
            },
        }
    }
}

/// The same, of the resolution against clauses of the environment.
pub proof fn lemma_resolve_scoped(
    env: Seq<ClauseView>,
    candidates: Seq<ClauseView>,
    app: ApplicationView,
    table: TableView,
    universe: nat,
    fuel: nat,
)
    requires
        table.well_formed(),
        table.scoped(),
        within(env, GoalView::Apply(app), table.slots.len()),
        forall|k: int| 0 <= k < candidates.len() ==> env.contains(#[trigger] candidates[k]),
    ensures
        resolve_with(env, candidates, app, table, universe, fuel) matches Outcome::Answers(
            answers,
        ) ==> all_scoped(table, answers),
    decreases fuel, 0nat, candidates.len() + 1,
{
    if candidates.len() > 0 {
        let rest = candidates.drop_first();
        assert(env.contains(candidates[0]));
        lemma_attempt_scoped(env, candidates[0], app, table, universe, fuel);
        assert forall|k: int| 0 <= k < rest.len() implies env.contains(#[trigger] rest[k]) by {
            assert(rest[k] == candidates[k + 1]);
        }
        lemma_resolve_scoped(env, rest, app, table, universe, fuel);
        match attempt(env, candidates[0], app, table, universe, fuel) {
            Outcome::Overflow => {},
            Outcome::Answers(first) => match resolve_with(env, rest, app, table, universe, fuel) {
                Outcome::Overflow => {},
                Outcome::Answers(more) => {
                    let answers = first + more;
                    assert forall|i: int| 0 <= i < answers.len() implies (
                    #[trigger] answers[i]).scoped() && table.kept_by(answers[i]) by {
                        if i < first.len() {
                            assert(answers[i] == first[i]);
                        } else {
                            assert(answers[i] == more[i - first.len()]);
                        }
                    }
                },
            },
        }
    }
}

/// The same, of the resolution against one clause of the environment.
pub proof fn lemma_attempt_scoped(
    env: Seq<ClauseView>,
    clause: ClauseView,
    app: ApplicationView,
    table: TableView,
    universe: nat,
    fuel: nat,
)
    requires
        table.well_formed(),
        table.scoped(),
        within(env, GoalView::Apply(app), table.slots.len()),
        env.contains(clause),
    ensures
        attempt(env, clause, app, table, universe, fuel) matches Outcome::Answers(answers)
            ==> all_scoped(table, answers),
    decreases fuel, 0nat, 0nat,
{
    let at = choose|at: int| 0 <= at < env.len() && env[at] == clause;
    if clause.conclusion.name == app.name && clause.conclusion.args.len() == app.args.len() {
        let base = table.slots.len();
        let values = fresh_variables(base, clause.binders);
        let head = clause.conclusion.instantiate(0, values);
        let extended = table.with_variables(clause.binders, universe);
        lemma_extended(table, clause.binders, universe);
        lemma_extended_scoped(table, clause.binders, universe);
        let left = TermView::Apply(head.name, head.args);
        let right = TermView::Apply(app.name, app.args);
        assert forall|w: nat| any_mentions(values, w) implies w < extended.slots.len() by {
            let k = choose|k: int| 0 <= k < values.len() && (#[trigger] values[k]).mentions(w);
            assert(values[k] == TermView::Var((base + k) as nat));
        }
        assert forall|w: nat| left.mentions(w) implies w < extended.slots.len() by {
            lemma_mentions_apply(head.name, head.args, w);
            assert(any_mentions(head.args, w));
            lemma_instantiate_all_mentions(clause.conclusion.args, 0, values, w);
            if any_mentions(clause.conclusion.args, w) {
                assert(env[at].mentions(w));
            }
        }
        assert forall|w: nat| right.mentions(w) implies w < extended.slots.len() by {
            lemma_mentions_apply(app.name, app.args, w);
            assert(GoalView::Apply(app).mentions(w));
        }
        law_unify_sound(extended, left, right);
        law_unify_scoped(extended, left, right);
        match extended.unify_applications(head, app) {
            None => {},
            Some(unified) => {
                match clause.condition {
                    None => {
                        let answers = seq![unified];
                        assert(answers[0] == unified);
                    },
                    Some(g) => {
                        if fuel > 0 {
                            let body = g.instantiate(0, values);
                            assert forall|w: nat| body.mentions(w) implies w
                                < unified.slots.len() by {
                                lemma_goal_instantiate_mentions(g, 0, values, w);
                                if g.mentions(w) {
                                    assert(env[at].mentions(w));
                                }
                            }
                            lemma_search_scoped(env, body, unified, universe, (fuel - 1) as nat);
                        }
                    },
                }
            },
        }
    }
}

/// Placeholders stay in their universes: where a search for a goal
/// without variables, against clauses without variables, ends with
/// answers, no variable of an answer is bound to a term that holds a
/// placeholder of a universe which the variable cannot see; and the
/// values found for the outermost existential variables of the goal hold
/// no placeholder of a universe that a universal quantifier opened.
pub proof fn law_placeholders_stay(env: Seq<ClauseView>, goal: GoalView)
    requires
        within(env, goal, 0),
    ensures
        root_outcome(env, goal) matches Outcome::Answers(answers) ==> forall|i: int|
            0 <= i < answers.len() ==> (#[trigger] answers[i]).scoped() && forall|v: nat|
                v < open_root(goal, TableView::empty()).1.slots.len() ==> TermView::Var(
                    v,
                ).resolve(answers[i]).visible_from(0),
{
    let start = TableView::empty();
    let (root, table) = open_root(goal, start);
    assert(start.well_formed());
    assert(start.scoped());
    lemma_open_root_scoped(env, goal, start);
    lemma_open_root_sound(env, goal, start, start, 0);
    lemma_search_scoped(env, root, table, 0, DEPTH_LIMIT as nat);
    match root_outcome(env, goal) {
        Outcome::Overflow => {},
        Outcome::Answers(answers) => {
            assert forall|i: int| 0 <= i < answers.len() implies (#[trigger] answers[i]).scoped()
                && forall|v: nat|
                v < table.slots.len() ==> TermView::Var(v).resolve(answers[i]).visible_from(0) by {
                let answer = answers[i];
                assert(table.kept_by(answer));
                assert forall|v: nat| v < table.slots.len() implies TermView::Var(v).resolve(
                    answer,
                ).visible_from(0) by {
                    assert(answer.slots[v as int].universe <= table.slots[v as int].universe);
                    if answer.slots[v as int].binding is Some {
                        assert(answer.sees(v as int, answer.slots[v as int].binding->0));
                    }
                }
            }
        },
    }
}

/// The root of a goal keeps what the table keeps: its variables are all of
/// universe 0, and the root mentions variables of its table only.
pub proof fn lemma_open_root_scoped(env: Seq<ClauseView>, goal: GoalView, table: TableView)
    requires
        table.scoped(),
        within(env, goal, table.slots.len()),
        forall|v: int| 0 <= v < table.slots.len() ==> (#[trigger] table.slots[v]).universe == 0,
    ensures
        open_root(goal, table).1.scoped(),
        within(env, open_root(goal, table).0, open_root(goal, table).1.slots.len()),
        forall|v: int|
            0 <= v < open_root(goal, table).1.slots.len() ==> (#[trigger] open_root(
                goal,
                table,
            ).1.slots[v]).universe == 0,
    decreases goal.height(),
{
    match goal {
        GoalView::Exists(n, b) => {
            let values = fresh_variables(table.slots.len(), n);
            let body = b.instantiate(0, values);
            let extended = table.with_variables(n, 0);
            b.lemma_instantiate_height(0, values);
            lemma_extended_scoped(table, n, 0);
            assert forall|w: nat| body.mentions(w) implies w < extended.slots.len() by {
                lemma_goal_instantiate_mentions(*b, 0, values, w);
                if b.mentions(w) {
                    assert(goal.mentions(w));
                }
                if any_mentions(values, w) {
                    let k = choose|k: int| 0 <= k < values.len() && (#[trigger] values[k]).mentions(w);
                    assert(values[k] == TermView::Var((table.slots.len() + k) as nat));
                }
            }
            lemma_open_root_scoped(env, body, extended);
        },
        _ => {},
    }
}

} // verus!
