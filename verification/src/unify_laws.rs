//! The unifier returns unifiers: what holds of a table whose bindings
//! mention unbound variables only, and of what unification makes of it.
use vstd::prelude::*;
use crate::formula::TermView;
use crate::infer::{
    lemma_replace_apply, lemma_resolve_apply, replace_all, resolve_all, TableView, Unified,
};

verus! {

impl TableView {
    /// Whether `v` is a bound variable of the table.
    pub open spec fn binds(self, v: nat) -> bool {
        v < self.slots.len() && self.slots[v as int].binding is Some
    }

    /// Whether the term mentions no bound variable of the table.
    pub open spec fn settles(self, t: TermView) -> bool {
        forall|w: nat| t.mentions(w) ==> !self.binds(w)
    }

    /// Whether every binding of the table mentions unbound variables only,
    /// so that resolving a term once resolves it for good.
    pub open spec fn well_formed(self) -> bool {
        forall|v: int|
            0 <= v < self.slots.len() ==> ((#[trigger] self.slots[v]).binding matches Some(t)
                ==> self.settles(t))
    }

    /// Whether `after` knows all that the table knows: to resolve under the
    /// table first changes nothing of what `after` makes of a term.
    pub open spec fn refined_by(self, after: TableView) -> bool {
        forall|y: TermView| #[trigger] self.agrees(after, y)
    }

    /// Whether `after` makes of `y` what it makes of `y` resolved under
    /// the table.
    pub open spec fn agrees(self, after: TableView, y: TermView) -> bool {
        y.resolve(after) == y.resolve(self).resolve(after)
    }
}

/// An application mentions what its arguments mention.
pub proof fn lemma_mentions_apply(name: Seq<char>, args: Seq<TermView>, w: nat)
    ensures
        TermView::Apply(name, args).mentions(w) == exists|k: int|
            0 <= k < args.len() && (#[trigger] args[k]).mentions(w),
{
    let t = TermView::Apply(name, args);
    assert(t->Apply_1 == args);
}

/// What is resolved under a well-formed table mentions no bound variable.
pub proof fn lemma_resolve_settles(table: TableView, x: TermView)
    requires
        table.well_formed(),
    ensures
        table.settles(x.resolve(table)),
    decreases x,
{
    match x {
        TermView::Apply(name, args) => {
            lemma_resolve_apply(name, args, table);
            let resolved = resolve_all(args, table);
            assert forall|w: nat| x.resolve(table).mentions(w) implies !table.binds(w) by {
                lemma_mentions_apply(name, resolved, w);
                let k = choose|k: int| 0 <= k < resolved.len() && (#[trigger] resolved[k]).mentions(w);
                lemma_resolve_settles(table, args[k]);
            }
        },
        TermView::Var(v) => {
            if table.binds(v) {
                assert(table.settles(table.slots[v as int].binding->0));
            }
        },
        _ => {},
    }
}

/// A term that mentions no bound variable resolves to itself.
pub proof fn lemma_settled_fixed(table: TableView, x: TermView)
    requires
        table.settles(x),
    ensures
        x.resolve(table) == x,
    decreases x,
{
    match x {
        TermView::Apply(name, args) => {
            lemma_resolve_apply(name, args, table);
            assert forall|k: int| 0 <= k < args.len() implies (#[trigger] args[k]).resolve(table)
                == args[k] by {
                assert forall|w: nat| args[k].mentions(w) implies !table.binds(w) by {
                    lemma_mentions_apply(name, args, w);
                }
                lemma_settled_fixed(table, args[k]);
            }
            assert(resolve_all(args, table) =~= args);
        },
        TermView::Var(v) => {
            assert(x.mentions(v));
        },
        _ => {},
    }
}

/// A term that does not mention `x` stays as it is where `x` is replaced.
pub proof fn lemma_replace_absent(y: TermView, x: nat, by: TermView)
    requires
        !y.mentions(x),
    ensures
        y.replace(x, by) == y,
    decreases y,
{
    match y {
        TermView::Apply(name, args) => {
            lemma_replace_apply(name, args, x, by);
            assert forall|k: int| 0 <= k < args.len() implies (#[trigger] args[k]).replace(x, by)
                == args[k] by {
                lemma_mentions_apply(name, args, x);
                lemma_replace_absent(args[k], x, by);
            }
            assert(replace_all(args, x, by) =~= args);
        },
        _ => {},
    }
}

/// After `x` was replaced by a term, only what the term mentions, and what
/// was mentioned beside `x`, is mentioned.
pub proof fn lemma_replace_mentions(y: TermView, x: nat, by: TermView, w: nat)
    requires
        y.replace(x, by).mentions(w),
    ensures
        (y.mentions(w) && w != x) || by.mentions(w),
    decreases y,
{
    match y {
        TermView::Apply(name, args) => {
            lemma_replace_apply(name, args, x, by);
            let replaced = replace_all(args, x, by);
            lemma_mentions_apply(name, replaced, w);
            let k = choose|k: int| 0 <= k < replaced.len() && (#[trigger] replaced[k]).mentions(w);
            lemma_replace_mentions(args[k], x, by, w);
            lemma_mentions_apply(name, args, w);
            if !by.mentions(w) {
                assert(args[k].mentions(w));
            }
        },
        _ => {},
    }
}

/// A binding keeps a table well formed, where the term bound mentions no
/// bound variable.
pub proof fn lemma_bind_well_formed(table: TableView, x: nat, term: TermView)
    requires
        table.well_formed(),
        table.settles(term),
        table.bind(x, term) is Some,
    ensures
        table.bind(x, term)->0.well_formed(),
{
    let after = table.bind(x, term)->0;
    assert forall|w: nat| after.binds(w) implies table.binds(w) || w == x by {}
    assert forall|v: int| 0 <= v < after.slots.len() implies ((
    #[trigger] after.slots[v]).binding matches Some(t) ==> after.settles(t)) by {
        if after.slots[v].binding is Some {
            let t = after.slots[v].binding->0;
            assert forall|w: nat| t.mentions(w) implies !after.binds(w) by {
                if v == x {
                    assert(!table.binds(w));
                } else {
                    let old = table.slots[v].binding->0;
                    assert(table.settles(old));
                    lemma_replace_mentions(old, x, term, w);
                    assert(!table.binds(w));
                }
            }
        }
    }
}

/// After a binding of `x`, a term resolves to what it resolved to before,
/// with `x` replaced by the term bound.
pub proof fn lemma_bind_resolve(table: TableView, x: nat, term: TermView, y: TermView)
    requires
        table.bind(x, term) is Some,
    ensures
        y.resolve(table.bind(x, term)->0) == y.resolve(table).replace(x, term),
    decreases y,
{
    let after = table.bind(x, term)->0;
    match y {
        TermView::Apply(name, args) => {
            lemma_resolve_apply(name, args, table);
            lemma_resolve_apply(name, args, after);
            lemma_replace_apply(name, resolve_all(args, table), x, term);
            assert forall|k: int| 0 <= k < args.len() implies (#[trigger] args[k]).resolve(after)
                == args[k].resolve(table).replace(x, term) by {
                lemma_bind_resolve(table, x, term, args[k]);
            }
            assert(resolve_all(args, after) =~= replace_all(resolve_all(args, table), x, term));
        },
        _ => {},
    }
}

/// A binding refines the table, where the table is well formed.
pub proof fn lemma_bind_refines(table: TableView, x: nat, term: TermView)
    requires
        table.well_formed(),
        table.bind(x, term) is Some,
    ensures
        table.refined_by(table.bind(x, term)->0),
{
    let after = table.bind(x, term)->0;
    assert forall|y: TermView| #[trigger] table.agrees(after, y) by {
        let z = y.resolve(table);
        lemma_resolve_settles(table, y);
        lemma_settled_fixed(table, z);
        lemma_bind_resolve(table, x, term, y);
        lemma_bind_resolve(table, x, term, z);
    }
}

/// What refines a refinement refines the table.
pub proof fn lemma_refines_twice(first: TableView, second: TableView, third: TableView)
    requires
        first.refined_by(second),
        second.refined_by(third),
    ensures
        first.refined_by(third),
{
    assert forall|y: TermView| #[trigger] first.agrees(third, y) by {
        let z = y.resolve(first);
        assert(second.agrees(third, y));
        assert(first.agrees(second, y));
        assert(second.agrees(third, z));
    }
}

/// A well-formed table refines itself.
pub proof fn lemma_refines_itself(table: TableView)
    requires
        table.well_formed(),
    ensures
        table.refined_by(table),
{
    assert forall|y: TermView| #[trigger] table.agrees(table, y) by {
        lemma_resolve_settles(table, y);
        lemma_settled_fixed(table, y.resolve(table));
    }
}

/// What a successful unification has made: a well-formed table that
/// refines the table before and under which the two terms are one. Where
/// no variable was bound, the terms were equal.
pub open spec fn unifies(before: TableView, a: TermView, b: TermView, u: Unified) -> bool {
    &&& u.table.well_formed()
    &&& before.refined_by(u.table)
    &&& a.resolve(u.table) == b.resolve(u.table)
    &&& !u.changed ==> a == b
}

/// The arguments of a term that mentions no bound variable mention none.
pub proof fn lemma_settles_args(table: TableView, name: Seq<char>, args: Seq<TermView>, k: int)
    requires
        table.settles(TermView::Apply(name, args)),
        0 <= k < args.len(),
    ensures
        table.settles(args[k]),
{
    assert forall|w: nat| args[k].mentions(w) implies !table.binds(w) by {
        lemma_mentions_apply(name, args, w);
    }
}

/// Unification of resolved terms is sound.
pub proof fn lemma_unify_resolved_sound(table: TableView, a: TermView, b: TermView)
    requires
        table.well_formed(),
        table.settles(a),
        table.settles(b),
    ensures
        table.unify_resolved(a, b) matches Some(u) ==> unifies(table, a, b, u),
    decreases table.unbound(), a, 1nat, 0nat,
{
    lemma_refines_itself(table);
    match a {
        TermView::Var(x) => {
            if b != a {
                lemma_bound_unifies(table, x, b);
            }
        },
        TermView::Apply(name, args) => match b {
            TermView::Var(y) => {
                lemma_bound_unifies(table, y, a);
            },
            TermView::Apply(other, others) => {
                if name == other && args.len() == others.len() {
                    lemma_unify_args_sound(table, a, b, 0);
                }
            },
            _ => {},
        },
        _ => match b {
            TermView::Var(y) => {
                lemma_bound_unifies(table, y, a);
            },
            _ => {},
        },
    }
}

/// A binding makes the variable and the term bound to it one.
pub proof fn lemma_bound_unifies(table: TableView, x: nat, term: TermView)
    requires
        table.well_formed(),
        table.settles(term),
    ensures
        table.bind(x, term) matches Some(after) ==> unifies(
            table,
            TermView::Var(x),
            term,
            Unified { table: after, changed: true },
        ) && unifies(table, term, TermView::Var(x), Unified { table: after, changed: true }),
{
    if table.bind(x, term) is Some {
        let after = table.bind(x, term)->0;
        lemma_bind_well_formed(table, x, term);
        lemma_bind_refines(table, x, term);
        lemma_bind_resolve(table, x, term, term);
        lemma_settled_fixed(table, term);
        lemma_replace_absent(term, x, term);
    }
}

/// Unification of the arguments of two applications is sound, from a
/// position before which the arguments are equal.
pub proof fn lemma_unify_args_sound(table: TableView, a: TermView, b: TermView, i: nat)
    requires
        table.well_formed(),
        table.settles(a),
        table.settles(b),
        a is Apply,
        b is Apply,
        a->Apply_0 == b->Apply_0,
        a->Apply_1.len() == b->Apply_1.len(),
        forall|j: int| 0 <= j < i && j < a->Apply_1.len() ==> a->Apply_1[j] == b->Apply_1[j],
    ensures
        table.unify_args(a, b, i) matches Some(u) ==> unifies(table, a, b, u),
    decreases table.unbound(), a, 0nat, a->Apply_1.len() - i,
{
    let name = a->Apply_0;
    let args = a->Apply_1;
    let others = b->Apply_1;
    lemma_refines_itself(table);
    if i < args.len() {
        lemma_settles_args(table, name, args, i as int);
        lemma_settles_args(table, name, others, i as int);
        lemma_unify_resolved_sound(table, args[i as int], others[i as int]);
        table.lemma_unify_resolved_progress(args[i as int], others[i as int]);
        match table.unify_resolved(args[i as int], others[i as int]) {
            None => {},
            Some(first) => {
                if !first.changed {
                    lemma_unify_args_sound(table, a, b, i + 1);
                } else {
                    let next = first.table;
                    let a2 = a.resolve(next);
                    let b2 = b.resolve(next);
                    lemma_resolve_apply(name, args, next);
                    lemma_resolve_apply(name, others, next);
                    lemma_resolve_settles(next, a);
                    lemma_resolve_settles(next, b);
                    assert forall|j: int| 0 <= j < i + 1 && j < a2->Apply_1.len() implies
                        a2->Apply_1[j] == b2->Apply_1[j] by {
                        assert(a2->Apply_1[j] == args[j].resolve(next));
                        assert(b2->Apply_1[j] == others[j].resolve(next));
                    }
                    lemma_unify_args_sound(next, a2, b2, i + 1);
                    match next.unify_args(a2, b2, i + 1) {
                        Some(rest) => {
                            lemma_refines_twice(table, next, rest.table);
                            assert(next.agrees(rest.table, a));
                            assert(next.agrees(rest.table, b));
                        },
                        None => {},
                    }
                }
            },
        }
    } else {
        assert(args =~= others);
    }
}

/// The unifier returns a unifier: where the unification of two terms under
/// a well-formed table succeeds, the table that it hands back is well
/// formed, keeps what the table before had bound, and resolves both terms
/// to the same term.
pub proof fn law_unify_sound(table: TableView, a: TermView, b: TermView)
    requires
        table.well_formed(),
    ensures
        table.unify(a, b) matches Some(after) ==> after.well_formed() && table.refined_by(after)
            && a.resolve(after) == b.resolve(after),
{
    lemma_resolve_settles(table, a);
    lemma_resolve_settles(table, b);
    lemma_unify_resolved_sound(table, a.resolve(table), b.resolve(table));
    if table.unify(a, b) is Some {
        let after = table.unify(a, b)->0;
        assert(table.agrees(after, a));
        assert(table.agrees(after, b));
    }
}

/// The same of two applications: where their unification succeeds, they
/// have one name, and the table handed back resolves their arguments to
/// the same terms.
pub proof fn law_unify_applications_sound(
    table: TableView,
    a: crate::formula::ApplicationView,
    b: crate::formula::ApplicationView,
)
    requires
        table.well_formed(),
    ensures
        table.unify_applications(a, b) matches Some(after) ==> after.well_formed()
            && table.refined_by(after) && a.name == b.name && resolve_all(a.args, after)
            == resolve_all(b.args, after),
{
    law_unify_sound(table, TermView::Apply(a.name, a.args), TermView::Apply(b.name, b.args));
    if table.unify_applications(a, b) is Some {
        let after = table.unify_applications(a, b)->0;
        lemma_resolve_apply(a.name, a.args, after);
        lemma_resolve_apply(b.name, b.args, after);
    }
}

} // verus!
