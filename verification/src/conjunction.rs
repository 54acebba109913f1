//! Conjunctions in either order, for questions about one variable against
//! facts: what `p(X), q(X)` and `q(X), p(X)` have in common.
use vstd::prelude::*;
use crate::formula::{instantiate_all, ApplicationView, ClauseView, GoalView, TermView};
use crate::infer::{lemma_resolve_apply, resolve_all, TableView, Unified};
use crate::laws::{
    ground, lemma_ground, lemma_resolve_facts, single, singles, unit_atom,
    unit_fact, unit_facts, unit_text,
};
use crate::render::render_all;
use crate::solve::{
    attempt, fresh_variables, join, open_root, rendered, resolve_with, root_outcome, search,
    search_each, solutions, Outcome, Strategy, DEPTH_LIMIT,
};

verus! {

/// The arguments of a term made of constructors are made of constructors.
pub proof fn lemma_ground_parts(t: TermView, k: int)
    requires
        ground(t),
        t is Apply,
        0 <= k < t->Apply_1.len(),
    ensures
        ground(t->Apply_1[k]),
{
}

/// Two terms made of constructors unify where they are equal, and there
/// alone; the table stays as it is.
pub proof fn lemma_unify_ground(table: TableView, a: TermView, b: TermView)
    requires
        ground(a),
        ground(b),
    ensures
        table.unify_resolved(a, b) == if a == b {
            Some(Unified { table, changed: false })
        } else {
            None
        },
    decreases a, 1nat, 0nat,
{
    if a->Apply_0 == b->Apply_0 && a->Apply_1.len() == b->Apply_1.len() {
        lemma_unify_ground_args(table, a, b, 0);
        if forall|j: int| 0 <= j < a->Apply_1.len() ==> a->Apply_1[j] == b->Apply_1[j] {
            assert(a->Apply_1 =~= b->Apply_1);
        }
    }
}

/// The same, of the arguments from position `i` on.
pub proof fn lemma_unify_ground_args(table: TableView, a: TermView, b: TermView, i: nat)
    requires
        ground(a),
        ground(b),
        a->Apply_1.len() == b->Apply_1.len(),
    ensures
        table.unify_args(a, b, i) == if forall|j: int|
            i <= j < a->Apply_1.len() ==> a->Apply_1[j] == b->Apply_1[j] {
            Some(Unified { table, changed: false })
        } else {
            None
        },
    decreases a, 0nat, a->Apply_1.len() - i,
{
    if i < a->Apply_1.len() {
        lemma_ground_parts(a, i as int);
        lemma_ground_parts(b, i as int);
        lemma_unify_ground(table, a->Apply_1[i as int], b->Apply_1[i as int]);
        lemma_unify_ground_args(table, a, b, i + 1);
    }
}

/// Resolution against clauses in two parts is the resolution against the
/// first part, then against the second.
pub proof fn lemma_resolve_parts(
    env: Seq<ClauseView>,
    first: Seq<ClauseView>,
    second: Seq<ClauseView>,
    app: ApplicationView,
    table: TableView,
    universe: nat,
    fuel: nat,
)
    ensures
        resolve_with(env, first + second, app, table, universe, fuel) == join(
            resolve_with(env, first, app, table, universe, fuel),
            resolve_with(env, second, app, table, universe, fuel),
        ),
    decreases first.len(),
{
    if first.len() == 0 {
        assert(first + second =~= second);
        match resolve_with(env, second, app, table, universe, fuel) {
            Outcome::Overflow => {},
            Outcome::Answers(b) => {
                assert(Seq::<TableView>::empty() + b =~= b);
            },
        }
    } else {
        let whole = first + second;
        assert(whole[0] == first[0]);
        assert(whole.drop_first() =~= first.drop_first() + second);
        lemma_resolve_parts(env, first.drop_first(), second, app, table, universe, fuel);
        let head = attempt(env, first[0], app, table, universe, fuel);
        let rest = resolve_with(env, first.drop_first(), app, table, universe, fuel);
        let tail = resolve_with(env, second, app, table, universe, fuel);
        match head {
            Outcome::Overflow => {},
            Outcome::Answers(h) => match rest {
                Outcome::Overflow => {},
                Outcome::Answers(r) => match tail {
                    Outcome::Overflow => {},
                    Outcome::Answers(t) => {
                        assert(h + (r + t) =~= (h + r) + t);
                    },
                },
            },
        }
    }
}

/// Facts about another predicate say nothing of an atom.
pub proof fn lemma_other_facts(
    env: Seq<ClauseView>,
    other: Seq<char>,
    cs: Seq<TermView>,
    name: Seq<char>,
    table: TableView,
    fuel: nat,
)
    requires
        other != name,
    ensures
        resolve_with(env, unit_facts(other, cs), unit_atom(name), table, 0, fuel)
            == Outcome::Answers(Seq::empty()),
    decreases cs.len(),
{
    let facts = unit_facts(other, cs);
    if cs.len() > 0 {
        assert(facts.drop_first() =~= unit_facts(other, cs.drop_first()));
        lemma_other_facts(env, other, cs.drop_first(), name, table, fuel);
        assert(facts[0] == unit_fact(other, cs[0]));
        assert(attempt(env, facts[0], unit_atom(name), table, 0, fuel) == Outcome::Answers(
            Seq::empty(),
        ));
        assert(Seq::<TableView>::empty() + Seq::<TableView>::empty() =~= Seq::<TableView>::empty());
    }
}

/// Where the variable is bound to a term made of constructors, a fact
/// answers the atom if it is about that term, and not else.
pub proof fn lemma_attempt_bound(
    env: Seq<ClauseView>,
    name: Seq<char>,
    d: TermView,
    c: TermView,
    fuel: nat,
)
    requires
        ground(d),
        ground(c),
    ensures
        attempt(env, unit_fact(name, d), unit_atom(name), single(Some(c)), 0, fuel) == if d == c {
            Outcome::Answers(seq![single(Some(c))])
        } else {
            Outcome::Answers(Seq::empty())
        },
{
    let table = single(Some(c));
    let values = fresh_variables(1, 0);
    lemma_ground(d, table, 0, values, 0, 0);
    lemma_ground(c, table, 0, values, 0, 0);
    assert(instantiate_all(seq![d], 0, values) =~= seq![d]);
    assert(table.with_variables(0, 0).slots =~= table.slots);
    let a = TermView::Apply(name, seq![d]);
    let b = TermView::Apply(name, seq![TermView::Var(0)]);
    let rb = TermView::Apply(name, seq![c]);
    lemma_resolve_apply(name, seq![d], table);
    lemma_resolve_apply(name, seq![TermView::Var(0)], table);
    assert(resolve_all(seq![d], table) =~= seq![d]);
    assert(resolve_all(seq![TermView::Var(0)], table) =~= seq![c]);
    assert(a.resolve(table) == a);
    assert(b.resolve(table) == rb);
    assert(a->Apply_1 == seq![d]);
    assert(rb->Apply_1 == seq![c]);
    assert(ground(a)) by {
        assert forall|k: int| 0 <= k < a->Apply_1.len() implies ground(#[trigger] a->Apply_1[k]) by {}
    }
    assert(ground(rb)) by {
        assert forall|k: int| 0 <= k < rb->Apply_1.len() implies ground(
            #[trigger] rb->Apply_1[k],
        ) by {}
    }
    lemma_unify_ground(table, a, rb);
    if d == c {
        assert(a == rb);
    } else {
        assert(a->Apply_1[0] != rb->Apply_1[0]);
        assert(a != rb);
    }
}

/// The table that binds the variable to `c`, once for each of `ds` that is
/// `c`.
pub open spec fn hits(ds: Seq<TermView>, c: TermView) -> Seq<TableView>
    decreases ds.len(),
{
    if ds.len() == 0 {
        Seq::empty()
    } else if ds[0] == c {
        seq![single(Some(c))] + hits(ds.drop_first(), c)
    } else {
        hits(ds.drop_first(), c)
    }
}

/// Where the variable is bound to a term made of constructors, the facts
/// answer the atom once for each of them that is about that term.
pub proof fn lemma_resolve_bound(
    env: Seq<ClauseView>,
    name: Seq<char>,
    ds: Seq<TermView>,
    c: TermView,
    fuel: nat,
)
    requires
        ground(c),
        forall|i: int| 0 <= i < ds.len() ==> ground(#[trigger] ds[i]),
    ensures
        resolve_with(env, unit_facts(name, ds), unit_atom(name), single(Some(c)), 0, fuel)
            == Outcome::Answers(hits(ds, c)),
    decreases ds.len(),
{
    let facts = unit_facts(name, ds);
    if ds.len() > 0 {
        let rest = ds.drop_first();
        assert(facts.drop_first() =~= unit_facts(name, rest));
        assert forall|i: int| 0 <= i < rest.len() implies ground(#[trigger] rest[i]) by {
            assert(rest[i] == ds[i + 1]);
        }
        lemma_resolve_bound(env, name, rest, c, fuel);
        assert(ground(ds[0]));
        lemma_attempt_bound(env, name, ds[0], c, fuel);
        assert(facts[0] == unit_fact(name, ds[0]));
        assert(Seq::<TableView>::empty() + hits(rest, c) =~= hits(rest, c));
    }
}

/// The hits are all the table that binds the variable to `c`, and there
/// is one if and only if `c` is among `ds`.
pub proof fn lemma_hits(ds: Seq<TermView>, c: TermView)
    ensures
        forall|i: int| 0 <= i < hits(ds, c).len() ==> (#[trigger] hits(ds, c)[i]) == single(Some(c)),
        hits(ds, c).len() > 0 <==> ds.contains(c),
    decreases ds.len(),
{
    if ds.len() > 0 {
        let rest = ds.drop_first();
        lemma_hits(rest, c);
        if ds[0] != c && ds.contains(c) {
            let i = choose|i: int| 0 <= i < ds.len() && ds[i] == c;
            assert(rest[i - 1] == c);
        }
        if rest.contains(c) {
            let i = choose|i: int| 0 <= i < rest.len() && rest[i] == c;
            assert(ds[i + 1] == c);
        }
    }
}

/// The answers to `q(X)` from each table that binds `X` to one of `cs`:
/// for each of `cs` in turn, the hits among `ds`.
pub open spec fn all_hits(cs: Seq<TermView>, ds: Seq<TermView>) -> Seq<TableView>
    decreases cs.len(),
{
    if cs.len() == 0 {
        Seq::empty()
    } else {
        hits(ds, cs[0]) + all_hits(cs.drop_first(), ds)
    }
}

/// An answer among all the hits binds the variable to a term that is among
/// both; and each term that is among both is bound by an answer.
pub proof fn lemma_all_hits(cs: Seq<TermView>, ds: Seq<TermView>)
    ensures
        forall|i: int|
            0 <= i < all_hits(cs, ds).len() ==> exists|c: TermView|
                cs.contains(c) && ds.contains(c) && (#[trigger] all_hits(cs, ds)[i]) == single(
                    Some(c),
                ),
        forall|c: TermView|
            cs.contains(c) && ds.contains(c) ==> all_hits(cs, ds).contains(
                #[trigger] single(Some(c)),
            ),
    decreases cs.len(),
{
    let all = all_hits(cs, ds);
    if cs.len() > 0 {
        let rest = cs.drop_first();
        let first = hits(ds, cs[0]);
        let more = all_hits(rest, ds);
        lemma_all_hits(rest, ds);
        lemma_hits(ds, cs[0]);
        assert forall|i: int| 0 <= i < all.len() implies exists|c: TermView|
            cs.contains(c) && ds.contains(c) && (#[trigger] all[i]) == single(Some(c)) by {
            if i < first.len() {
                assert(all[i] == first[i]);
                assert(cs.contains(cs[0]));
                assert(ds.contains(cs[0]));
            } else {
                assert(all[i] == more[i - first.len()]);
                let c = choose|c: TermView|
                    rest.contains(c) && ds.contains(c) && more[i - first.len()] == single(Some(c));
                let k = choose|k: int| 0 <= k < rest.len() && rest[k] == c;
                assert(cs[k + 1] == c);
            }
        }
        assert forall|c: TermView| cs.contains(c) && ds.contains(c) implies all.contains(
            #[trigger] single(Some(c)),
        ) by {
            if cs[0] == c {
                assert(first.len() > 0);
                assert(all[0] == first[0]);
            } else {
                let k = choose|k: int| 0 <= k < cs.len() && cs[k] == c;
                assert(rest[k - 1] == c);
                assert(more.contains(single(Some(c))));
                let j = choose|j: int| 0 <= j < more.len() && more[j] == single(Some(c));
                assert(all[first.len() + j] == more[j]);
            }
        }
    }
}

/// The clauses of the family: facts about `p`, then facts about `q`.
pub open spec fn two_kinds(
    p: Seq<char>,
    ps: Seq<TermView>,
    q: Seq<char>,
    qs: Seq<TermView>,
) -> Seq<ClauseView> {
    unit_facts(p, ps) + unit_facts(q, qs)
}

/// The question of what both `first` and `second` hold of, asked in that
/// order.
pub open spec fn both_query(first: Seq<char>, second: Seq<char>) -> GoalView {
    GoalView::Exists(
        1,
        Box::new(
            GoalView::And(
                Box::new(
                    GoalView::Apply(
                        ApplicationView { name: first, args: seq![TermView::Bound(0)] },
                    ),
                ),
                Box::new(
                    GoalView::Apply(
                        ApplicationView { name: second, args: seq![TermView::Bound(0)] },
                    ),
                ),
            ),
        ),
    )
}

/// The root of such a question.
pub open spec fn both_root(first: Seq<char>, second: Seq<char>) -> GoalView {
    GoalView::And(
        Box::new(GoalView::Apply(unit_atom(first))),
        Box::new(GoalView::Apply(unit_atom(second))),
    )
}

/// Whether the terms are all made of constructors.
pub open spec fn all_ground(cs: Seq<TermView>) -> bool {
    forall|i: int| 0 <= i < cs.len() ==> ground(#[trigger] cs[i])
}

/// From each table that binds the variable to one of `cs`, the atom about
/// `name` is answered by the hits among `ds`, the facts about `name`.
pub proof fn lemma_second_part(
    env: Seq<ClauseView>,
    before: Seq<ClauseView>,
    after: Seq<ClauseView>,
    name: Seq<char>,
    ds: Seq<TermView>,
    cs: Seq<TermView>,
    fuel: nat,
)
    requires
        all_ground(cs),
        all_ground(ds),
        env == before + unit_facts(name, ds) + after,
        forall|c: TermView|
            ground(c) ==> resolve_with(env, before, unit_atom(name), #[trigger] single(Some(c)), 0, fuel)
                == Outcome::Answers(Seq::<TableView>::empty()) && resolve_with(
                env,
                after,
                unit_atom(name),
                single(Some(c)),
                0,
                fuel,
            ) == Outcome::Answers(Seq::<TableView>::empty()),
    ensures
        search_each(env, GoalView::Apply(unit_atom(name)), singles(cs), 0, fuel)
            == Outcome::Answers(all_hits(cs, ds)),
    decreases cs.len(),
{
    let tables = singles(cs);
    if cs.len() > 0 {
        let rest = cs.drop_first();
        assert(tables.drop_first() =~= singles(rest));
        assert forall|i: int| 0 <= i < rest.len() implies ground(#[trigger] rest[i]) by {
            assert(rest[i] == cs[i + 1]);
        }
        lemma_second_part(env, before, after, name, ds, rest, fuel);
        let c = cs[0];
        assert(ground(c));
        let table = single(Some(c));
        assert(tables[0] == table);
        let app = unit_atom(name);
        let middle = unit_facts(name, ds);
        lemma_resolve_parts(env, before + middle, after, app, table, 0, fuel);
        lemma_resolve_parts(env, before, middle, app, table, 0, fuel);
        lemma_resolve_bound(env, name, ds, c, fuel);
        assert(Seq::<TableView>::empty() + hits(ds, c) =~= hits(ds, c));
        assert(hits(ds, c) + Seq::<TableView>::empty() =~= hits(ds, c));
        assert(search(env, GoalView::Apply(app), table, 0, fuel) == Outcome::Answers(hits(ds, c)));
    }
}

/// The root of a question about both is its conjunction about one
/// unbound variable.
pub proof fn lemma_both_root(first: Seq<char>, second: Seq<char>)
    ensures
        open_root(both_query(first, second), TableView::empty()) == (
            both_root(first, second),
            single(None),
        ),
{
    let values = fresh_variables(0, 1);
    assert(instantiate_all(seq![TermView::Bound(0)], 0, values) =~= seq![TermView::Var(0)]);
    assert(TableView::empty().with_variables(1, 0).slots =~= single(None).slots);
    let body = GoalView::And(
        Box::new(
            GoalView::Apply(ApplicationView { name: first, args: seq![TermView::Bound(0)] }),
        ),
        Box::new(
            GoalView::Apply(ApplicationView { name: second, args: seq![TermView::Bound(0)] }),
        ),
    );
    assert(body.instantiate(0, values) == both_root(first, second)) by {
        reveal_with_fuel(GoalView::instantiate, 2);
    }
    reveal_with_fuel(open_root, 2);
}

/// Against facts about `p` and facts about `q`, the question of what both
/// hold of, asked of `p` first, is answered once for each pair of a fact
/// about `p` and a fact about `q` that are about one term; asked of `q`
/// first, likewise with the parts exchanged.
pub proof fn lemma_both_answers(p: Seq<char>, ps: Seq<TermView>, q: Seq<char>, qs: Seq<TermView>)
    requires
        p != q,
        all_ground(ps),
        all_ground(qs),
    ensures
        root_outcome(two_kinds(p, ps, q, qs), both_query(p, q)) == Outcome::Answers(
            all_hits(ps, qs),
        ),
        root_outcome(two_kinds(p, ps, q, qs), both_query(q, p)) == Outcome::Answers(
            all_hits(qs, ps),
        ),
{
    let env = two_kinds(p, ps, q, qs);
    let pf = unit_facts(p, ps);
    let qf = unit_facts(q, qs);
    let none = Seq::<ClauseView>::empty();
    let fuel = DEPTH_LIMIT as nat;
    let start = single(None);
    lemma_both_root(p, q);
    lemma_both_root(q, p);
    // the first parts
    lemma_resolve_parts(env, pf, qf, unit_atom(p), start, 0, fuel);
    lemma_resolve_facts(env, p, ps, fuel);
    lemma_other_facts(env, q, qs, p, start, fuel);
    assert(singles(ps) + Seq::<TableView>::empty() =~= singles(ps));
    assert(search(env, GoalView::Apply(unit_atom(p)), start, 0, fuel) == Outcome::Answers(
        singles(ps),
    ));
    lemma_resolve_parts(env, pf, qf, unit_atom(q), start, 0, fuel);
    lemma_resolve_facts(env, q, qs, fuel);
    lemma_other_facts(env, p, ps, q, start, fuel);
    assert(Seq::<TableView>::empty() + singles(qs) =~= singles(qs));
    assert(search(env, GoalView::Apply(unit_atom(q)), start, 0, fuel) == Outcome::Answers(
        singles(qs),
    ));
    // the second parts
    assert(env =~= pf + qf + none);
    assert forall|c: TermView| ground(c) implies resolve_with(
        env,
        pf,
        unit_atom(q),
        #[trigger] single(Some(c)),
        0,
        fuel,
    ) == Outcome::Answers(Seq::<TableView>::empty()) && resolve_with(
        env,
        none,
        unit_atom(q),
        single(Some(c)),
        0,
        fuel,
    ) == Outcome::Answers(Seq::<TableView>::empty()) by {
        lemma_other_facts(env, p, ps, q, single(Some(c)), fuel);
    }
    lemma_second_part(env, pf, none, q, qs, ps, fuel);
    assert(env =~= none + pf + qf);
    assert forall|c: TermView| ground(c) implies resolve_with(
        env,
        none,
        unit_atom(p),
        #[trigger] single(Some(c)),
        0,
        fuel,
    ) == Outcome::Answers(Seq::<TableView>::empty()) && resolve_with(
        env,
        qf,
        unit_atom(p),
        single(Some(c)),
        0,
        fuel,
    ) == Outcome::Answers(Seq::<TableView>::empty()) by {
        lemma_other_facts(env, q, qs, p, single(Some(c)), fuel);
    }
    lemma_second_part(env, none, qf, p, ps, qs, fuel);
    assert(search(env, both_root(p, q), start, 0, fuel) == Outcome::Answers(all_hits(ps, qs)));
    assert(search(env, both_root(q, p), start, 0, fuel) == Outcome::Answers(all_hits(qs, ps)));
}

/// The text of a conjunction of two parts.
pub open spec fn and_text(left: Seq<char>, right: Seq<char>) -> Seq<char> {
    "and("@ + left + ", "@ + right + ")"@
}

/// Under the table that binds the variable to `c`, the root of a question
/// about both reads as the conjunction of the two facts about `c`, in the
/// order of the question.
pub proof fn lemma_both_text(first: Seq<char>, second: Seq<char>, c: TermView)
    ensures
        both_root(first, second).render(single(Some(c)), Seq::empty()) == and_text(
            unit_text(first, c),
            unit_text(second, c),
        ),
{
    let table = single(Some(c));
    assert(resolve_all(seq![TermView::Var(0)], table) =~= seq![c]);
    assert(render_all(seq![c], Seq::empty()) =~= seq![c.render(Seq::empty())]);
    reveal_with_fuel(GoalView::render, 2);
}

/// A conjunction and its swap succeed together: against facts about `p`
/// and facts about `q`, each about a term made of constructors, the
/// question of what both hold of has no solution asked of `p` first if and
/// only if it has none asked of `q` first, under either strategy.
pub proof fn law_swapped_conjunctions_succeed_together(
    p: Seq<char>,
    ps: Seq<TermView>,
    q: Seq<char>,
    qs: Seq<TermView>,
    strategy: Strategy,
)
    requires
        p != q,
        all_ground(ps),
        all_ground(qs),
    ensures
        solutions(two_kinds(p, ps, q, qs), both_query(p, q), strategy).len() == 0 <==> solutions(
            two_kinds(p, ps, q, qs),
            both_query(q, p),
            strategy,
        ).len() == 0,
{
    lemma_both_answers(p, ps, q, qs);
    lemma_both_root(p, q);
    lemma_both_root(q, p);
    lemma_all_hits(ps, qs);
    lemma_all_hits(qs, ps);
    let forth = all_hits(ps, qs);
    let back = all_hits(qs, ps);
    if forth.len() > 0 {
        let c = choose|c: TermView| ps.contains(c) && qs.contains(c) && forth[0] == single(Some(c));
        assert(back.contains(single(Some(c))));
    }
    if back.len() > 0 {
        let c = choose|c: TermView| qs.contains(c) && ps.contains(c) && back[0] == single(Some(c));
        assert(forth.contains(single(Some(c))));
    }
}

/// A conjunction and its swap bind the same value and differ in the order
/// of their text alone: against facts about `p` and facts about `q`, each
/// about a term made of constructors, where the question of what both hold
/// of has a single answer asked either way, both answers bind the variable
/// to one term, and the two solutions are the conjunctions of the same two
/// facts, each in the order of its question.
pub proof fn law_swapped_conjunctions_bind_the_same(
    p: Seq<char>,
    ps: Seq<TermView>,
    q: Seq<char>,
    qs: Seq<TermView>,
    strategy: Strategy,
)
    requires
        p != q,
        all_ground(ps),
        all_ground(qs),
        solutions(two_kinds(p, ps, q, qs), both_query(p, q), Strategy::DepthFirstSearch).len()
            == 1,
        solutions(two_kinds(p, ps, q, qs), both_query(q, p), Strategy::DepthFirstSearch).len()
            == 1,
    ensures
        exists|c: TermView|
            #![trigger single(Some(c))]
            {
                &&& ps.contains(c) && qs.contains(c)
                &&& root_outcome(two_kinds(p, ps, q, qs), both_query(p, q)) == Outcome::Answers(
                    seq![single(Some(c))],
                )
                &&& root_outcome(two_kinds(p, ps, q, qs), both_query(q, p)) == Outcome::Answers(
                    seq![single(Some(c))],
                )
                &&& solutions(two_kinds(p, ps, q, qs), both_query(p, q), strategy) == seq![
                    and_text(unit_text(p, c), unit_text(q, c)),
                ]
                &&& solutions(two_kinds(p, ps, q, qs), both_query(q, p), strategy) == seq![
                    and_text(unit_text(q, c), unit_text(p, c)),
                ]
            },
{
    let env = two_kinds(p, ps, q, qs);
    lemma_both_answers(p, ps, q, qs);
    lemma_both_root(p, q);
    lemma_both_root(q, p);
    lemma_all_hits(ps, qs);
    lemma_all_hits(qs, ps);
    let forth = all_hits(ps, qs);
    let back = all_hits(qs, ps);
    let c = choose|c: TermView| ps.contains(c) && qs.contains(c) && forth[0] == single(Some(c));
    let d = choose|d: TermView| qs.contains(d) && ps.contains(d) && back[0] == single(Some(d));
    assert(forth.contains(single(Some(d))));
    let k = choose|k: int| 0 <= k < forth.len() && forth[k] == single(Some(d));
    assert(single(Some(d)).slots[0] == single(Some(c)).slots[0]);
    assert(d == c);
    assert(forth =~= seq![single(Some(c))]);
    assert(back =~= seq![single(Some(c))]);
    lemma_both_text(p, q, c);
    lemma_both_text(q, p, c);
    assert(rendered(both_root(p, q), forth) =~= seq![and_text(unit_text(p, c), unit_text(q, c))]);
    assert(rendered(both_root(q, p), back) =~= seq![and_text(unit_text(q, c), unit_text(p, c))]);
    assert(single(Some(c)) == single(Some(c)));
}

} // verus!
