//! The text form of terms, goals and clauses: the surface on which solutions
//! are reported and compared.
use vstd::prelude::*;
use crate::formula::{
    lemma_view_apply, term_views, Application, ApplicationView, Clause, ClauseView, Goal,
    GoalView, Term, TermView,
};
use crate::infer::{resolve_all, InferenceTable, TableView};

verus! {

/// The character of the decimal digit `d`.
pub open spec fn digit(d: nat) -> char {
    ((48 + d) as u8) as char
}

/// The decimal numeral of `n`.
pub open spec fn decimal(n: nat) -> Seq<char>
    decreases n,
{
    if n < 10 {
        seq![digit(n)]
    } else {
        decimal(n / 10).push(digit(n % 10))
    }
}

/// The name of the bound variable numbered `k` from the outside: a capital
/// letter, followed from the twenty-seventh variable on by a number.
pub open spec fn letter(k: nat) -> Seq<char> {
    if k < 26 {
        seq![((65 + k) as u8) as char]
    } else {
        seq![((65 + k % 26) as u8) as char] + decimal(k / 26)
    }
}

/// The parts with `", "` between them.
pub open spec fn listed(parts: Seq<Seq<char>>) -> Seq<char>
    decreases parts.len(),
{
    if parts.len() == 0 {
        Seq::empty()
    } else if parts.len() == 1 {
        parts[0]
    } else {
        listed(parts.drop_last()) + ", "@ + parts.last()
    }
}

/// A quoted name, followed by its rendered arguments in brackets where it
/// has any.
pub open spec fn applied(name: Seq<char>, args: Seq<Seq<char>>) -> Seq<char> {
    if args.len() == 0 {
        "\""@ + name + "\""@
    } else {
        "\""@ + name + "\""@ + "("@ + listed(args) + ")"@
    }
}

/// The numbers of the variables in scope after `n` more are bound: the new
/// ones first, numbered on from those already in scope.
pub open spec fn bound_names(names: Seq<nat>, n: nat) -> Seq<nat> {
    Seq::new(n, |i: int| (names.len() + i) as nat) + names
}

/// The names of `n` variables bound where `level` are in scope, listed.
pub open spec fn binders(level: nat, n: nat) -> Seq<char> {
    listed(Seq::new(n, |i: int| letter((level + i) as nat)))
}

impl TermView {
    /// The text of the term; `names` numbers the bound variables in scope,
    /// the innermost first.
    pub open spec fn render(self, names: Seq<nat>) -> Seq<char>
        decreases self, 1nat,
    {
        match self {
            TermView::Bound(i) => if i < names.len() {
                letter(names[i as int])
            } else {
                "^"@ + decimal(i)
            },
            TermView::Var(v) => "?"@ + decimal(v),
            TermView::Rigid(u, i) => "!"@ + decimal(u) + "_"@ + decimal(i),
            TermView::Apply(name, _) => applied(name, self.render_args(names)),
        }
    }

    /// The texts of the arguments of an application.
    pub open spec fn render_args(self, names: Seq<nat>) -> Seq<Seq<char>>
        decreases self, 0nat,
    {
        match self {
            TermView::Apply(_, args) => Seq::new(
                args.len(),
                |k: int|
                    if 0 <= k < args.len() {
                        args[k].render(names)
                    } else {
                        Seq::empty()
                    },
            ),
            _ => Seq::empty(),
        }
    }
}

/// The text of each term of a sequence.
pub open spec fn render_all(terms: Seq<TermView>, names: Seq<nat>) -> Seq<Seq<char>> {
    Seq::new(terms.len(), |k: int| terms[k].render(names))
}

/// The text of an application is made of the texts of its arguments.
pub proof fn lemma_render_apply(name: Seq<char>, args: Seq<TermView>, names: Seq<nat>)
    ensures
        TermView::Apply(name, args).render(names) == applied(name, render_all(args, names)),
{
    assert(TermView::Apply(name, args).render_args(names) =~= render_all(args, names));
}

impl ApplicationView {
    /// The text of the application with the bindings of `table` filled in.
    pub open spec fn render(self, table: TableView, names: Seq<nat>) -> Seq<char> {
        applied(self.name, render_all(resolve_all(self.args, table), names))
    }
}

impl GoalView {
    /// The text of the goal with the bindings of `table` filled in.
    pub open spec fn render(self, table: TableView, names: Seq<nat>) -> Seq<char>
        decreases self,
    {
        match self {
            GoalView::Apply(app) => app.render(table, names),
            GoalView::And(l, r) => "and("@ + l.render(table, names) + ", "@ + r.render(
                table,
                names,
            ) + ")"@,
            GoalView::Implies(c, g) => "implies("@ + c.render(table, names) + " => "@ + g.render(
                table,
                names,
            ) + ")"@,
            GoalView::ForAll(n, b) => "forall("@ + binders(names.len(), n) + " -> "@ + b.render(
                table,
                bound_names(names, n),
            ) + ")"@,
            GoalView::Exists(n, b) => "exists("@ + binders(names.len(), n) + " -> "@ + b.render(
                table,
                bound_names(names, n),
            ) + ")"@,
        }
    }
}

impl ClauseView {
    /// The text of what stands under the clause's binders.
    pub open spec fn render_body(self, table: TableView, names: Seq<nat>) -> Seq<char>
        decreases self, 0nat,
    {
        match self.condition {
            None => self.conclusion.render(table, names),
            Some(g) => "implies("@ + g.render(table, names) + " => "@ + self.conclusion.render(
                table,
                names,
            ) + ")"@,
        }
    }

    /// The text of the clause: its body, under `forall` where it binds
    /// variables.
    pub open spec fn render(self, table: TableView, names: Seq<nat>) -> Seq<char>
        decreases self, 1nat,
    {
        if self.binders == 0 {
            self.render_body(table, bound_names(names, 0))
        } else {
            "forall("@ + binders(names.len(), self.binders) + " -> "@ + self.render_body(
                table,
                bound_names(names, self.binders),
            ) + ")"@
        }
    }
}

/// The numbers held in `names`, as naturals.
pub open spec fn name_views(names: Seq<usize>) -> Seq<nat> {
    Seq::new(names.len(), |i: int| names[i] as nat)
}

/// `String::push`: appends one character to the string.
#[verifier::external_body]
pub(crate) fn push_char(out: &mut String, c: char)
    ensures
        final(out)@ == old(out)@.push(c),
{
    out.push(c);
}

/// Appends the decimal numeral of `n`.
pub fn write_decimal(out: &mut String, n: usize)
    ensures
        final(out)@ == old(out)@ + decimal(n as nat),
    decreases n,
{
    if n >= 10 {
        write_decimal(out, n / 10);
    }
    let d: usize = n % 10;
    let ghost before = out@;
    push_char(out, ((48 + d) as u8) as char);
    proof {
        if n >= 10 {
            assert(out@ =~= old(out)@ + decimal((n / 10) as nat).push(digit((n % 10) as nat)));
        } else {
            assert(out@ =~= old(out)@ + seq![digit(n as nat)]);
        }
    }
}

/// Appends the name of the bound variable numbered `k`.
pub fn write_letter(out: &mut String, k: usize)
    ensures
        final(out)@ == old(out)@ + letter(k as nat),
{
    let r: usize = k % 26;
    push_char(out, ((65 + r) as u8) as char);
    if k >= 26 {
        let ghost middle = out@;
        write_decimal(out, k / 26);
        assert(out@ =~= old(out)@ + (seq![((65 + k % 26) as u8) as char] + decimal((k / 26) as nat)));
    } else {
        assert(out@ =~= old(out)@ + seq![((65 + k) as u8) as char]);
    }
}

/// One more part of a list goes after the parts before it and a separator.
pub proof fn lemma_listed_step(parts: Seq<Seq<char>>, k: int)
    requires
        0 <= k < parts.len(),
    ensures
        listed(parts.take(k + 1)) == if k == 0 {
            parts[0]
        } else {
            listed(parts.take(k)) + ", "@ + parts[k]
        },
{
    assert(parts.take(k + 1).drop_last() =~= parts.take(k));
    assert(parts.take(k + 1).last() == parts[k]);
}

/// Appends the names of `n` variables bound where `level` are in scope.
pub fn write_binders(out: &mut String, level: usize, n: usize)
    requires
        level + n <= usize::MAX,
    ensures
        final(out)@ == old(out)@ + binders(level as nat, n as nat),
{
    let ghost parts = Seq::new(n as nat, |i: int| letter((level + i) as nat));
    let mut i: usize = 0;
    assert(old(out)@ + listed(parts.take(0)) =~= old(out)@);
    while i < n
        invariant
            i <= n,
            level + n <= usize::MAX,
            parts == Seq::new(n as nat, |i: int| letter((level + i) as nat)),
            out@ == old(out)@ + listed(parts.take(i as int)),
        decreases n - i,
    {
        let ghost before = out@;
        if i > 0 {
            out.append(", ");
        }
        write_letter(out, level + i);
        proof {
            lemma_listed_step(parts, i as int);
            if i > 0 {
                assert(out@ =~= old(out)@ + (listed(parts.take(i as int)) + ", "@ + parts[i as int]));
            } else {
                assert(out@ =~= old(out)@ + parts[0]);
            }
        }
        i = i + 1;
    }
    assert(parts.take(n as int) =~= parts);
}

/// The numbers of the variables in scope after `n` more are bound.
pub fn extend_names(names: &Vec<usize>, n: usize) -> (r: Vec<usize>)
    ensures
        name_views(r@) == bound_names(name_views(names@), n as nat),
        r@.len() == names@.len() + n,
{
    let level = names.len();
    let mut out: Vec<usize> = Vec::new();
    let mut k: usize = 0;
    while k < n
        invariant
            k <= n,
            out.len() == k,
        decreases n - k,
    {
        out.push(0);
        k = k + 1;
    }
    let mut j: usize = 0;
    while j < level
        invariant
            j <= level,
            level == names.len(),
            out.len() == n + j,
            forall|i: int| 0 <= i < j ==> out@[n + i] == names@[i],
        decreases level - j,
    {
        out.push(names[j]);
        j = j + 1;
    }
    let mut i: usize = 0;
    while i < n
        invariant
            i <= n,
            level == names.len(),
            out.len() == n + level,
            forall|i: int| 0 <= i < level ==> out@[n + i] == names@[i],
            forall|m: int| 0 <= m < i ==> out@[m] == level + m,
        decreases n - i,
    {
        out.set(i, level + i);
        i = i + 1;
    }
    assert(name_views(out@) =~= bound_names(name_views(names@), n as nat));
    out
}

/// Appends the text of `t`.
pub fn write_term(out: &mut String, t: &Term, names: &Vec<usize>)
    ensures
        final(out)@ == old(out)@ + t@.render(name_views(names@)),
    decreases t,
{
    match t {
        Term::Bound(i) => {
            if *i < names.len() {
                write_letter(out, names[*i]);
            } else {
                out.append("^");
                write_decimal(out, *i);
                assert(out@ =~= old(out)@ + ("^"@ + decimal(*i as nat)));
            }
        },
        Term::Var(v) => {
            out.append("?");
            write_decimal(out, *v);
            assert(out@ =~= old(out)@ + ("?"@ + decimal(*v as nat)));
        },
        Term::Rigid(u, i) => {
            out.append("!");
            write_decimal(out, *u);
            out.append("_");
            write_decimal(out, *i);
            assert(out@ =~= old(out)@ + ("!"@ + decimal(*u as nat) + "_"@ + decimal(*i as nat)));
        },
        Term::Apply(name, args) => {
            let ghost parts = render_all(term_views(args@), name_views(names@));
            proof {
                lemma_view_apply(*name, *args);
                lemma_render_apply(name@, term_views(args@), name_views(names@));
            }
            out.append("\"");
            out.append(name.as_str());
            out.append("\"");
            if args.len() > 0 {
                out.append("(");
                let ghost head = out@;
                assert(head =~= old(out)@ + ("\""@ + name@ + "\""@ + "("@));
                assert(head + listed(parts.take(0)) =~= head);
                let mut k: usize = 0;
                while k < args.len()
                    invariant
                        t is Apply,
                        t->Apply_1 == *args,
                        k <= args.len(),
                        parts == render_all(term_views(args@), name_views(names@)),
                        out@ == head + listed(parts.take(k as int)),
                    decreases args.len() - k,
                {
                    if k > 0 {
                        out.append(", ");
                    }
                    write_term(out, &args[k], names);
                    proof {
                        lemma_listed_step(parts, k as int);
                        if k > 0 {
                            assert(out@ =~= head + (listed(parts.take(k as int)) + ", "@
                                + parts[k as int]));
                        } else {
                            assert(out@ =~= head + parts[0]);
                        }
                    }
                    k = k + 1;
                }
                assert(parts.take(args.len() as int) =~= parts);
                out.append(")");
                assert(out@ =~= old(out)@ + ("\""@ + name@ + "\""@ + "("@ + listed(parts) + ")"@));
            } else {
                assert(out@ =~= old(out)@ + ("\""@ + name@ + "\""@));
            }
        },
    }
}

/// Appends the text of `app` with the bindings of `table` filled in.
pub fn write_application(
    out: &mut String,
    app: &Application,
    table: &InferenceTable,
    names: &Vec<usize>,
)
    ensures
        final(out)@ == old(out)@ + app@.render(table@, name_views(names@)),
{
    let ghost parts = render_all(resolve_all(term_views(app.args@), table@), name_views(names@));
    out.append("\"");
    out.append(app.name.as_str());
    out.append("\"");
    if app.args.len() > 0 {
        out.append("(");
        let ghost head = out@;
        assert(head =~= old(out)@ + ("\""@ + app.name@ + "\""@ + "("@));
        assert(head + listed(parts.take(0)) =~= head);
        let mut k: usize = 0;
        while k < app.args.len()
            invariant
                k <= app.args.len(),
                parts == render_all(
                    resolve_all(term_views(app.args@), table@),
                    name_views(names@),
                ),
                out@ == head + listed(parts.take(k as int)),
            decreases app.args.len() - k,
        {
            if k > 0 {
                out.append(", ");
            }
            let resolved = table.resolve(&app.args[k]);
            write_term(out, &resolved, names);
            proof {
                lemma_listed_step(parts, k as int);
                if k > 0 {
                    assert(out@ =~= head + (listed(parts.take(k as int)) + ", "@ + parts[k as int]));
                } else {
                    assert(out@ =~= head + parts[0]);
                }
            }
            k = k + 1;
        }
        assert(parts.take(app.args.len() as int) =~= parts);
        out.append(")");
        assert(out@ =~= old(out)@ + ("\""@ + app.name@ + "\""@ + "("@ + listed(parts) + ")"@));
    } else {
        assert(out@ =~= old(out)@ + ("\""@ + app.name@ + "\""@));
    }
}

/// Appends the text of `goal` with the bindings of `table` filled in.
pub fn write_goal(out: &mut String, goal: &Goal, table: &InferenceTable, names: &Vec<usize>)
    ensures
        final(out)@ == old(out)@ + goal@.render(table@, name_views(names@)),
    decreases goal, 2nat,
{
    let ghost nv = name_views(names@);
    match goal {
        Goal::Apply(app) => {
            write_application(out, app, table, names);
        },
        Goal::And(l, r) => {
            out.append("and(");
            write_goal(out, l, table, names);
            out.append(", ");
            write_goal(out, r, table, names);
            out.append(")");
            assert(out@ =~= old(out)@ + ("and("@ + l@.render(table@, nv) + ", "@ + r@.render(
                table@,
                nv,
            ) + ")"@));
        },
        Goal::Implies(c, g) => {
            out.append("implies(");
            write_clause(out, c, table, names);
            out.append(" => ");
            write_goal(out, g, table, names);
            out.append(")");
            assert(out@ =~= old(out)@ + ("implies("@ + c@.render(table@, nv) + " => "@ + g@.render(
                table@,
                nv,
            ) + ")"@));
        },
        Goal::ForAll(n, b) => {
            let inner = extend_names(names, *n);
            assert(inner.len() == names.len() + *n);
            out.append("forall(");
            write_binders(out, names.len(), *n);
            out.append(" -> ");
            write_goal(out, b, table, &inner);
            out.append(")");
            assert(out@ =~= old(out)@ + ("forall("@ + binders(nv.len(), *n as nat) + " -> "@
                + b@.render(table@, bound_names(nv, *n as nat)) + ")"@));
        },
        Goal::Exists(n, b) => {
            let inner = extend_names(names, *n);
            assert(inner.len() == names.len() + *n);
            out.append("exists(");
            write_binders(out, names.len(), *n);
            out.append(" -> ");
            write_goal(out, b, table, &inner);
            out.append(")");
            assert(out@ =~= old(out)@ + ("exists("@ + binders(nv.len(), *n as nat) + " -> "@
                + b@.render(table@, bound_names(nv, *n as nat)) + ")"@));
        },
    }
}

/// Appends the text of what stands under the binders of `clause`.
pub fn write_clause_body(
    out: &mut String,
    clause: &Clause,
    table: &InferenceTable,
    names: &Vec<usize>,
)
    ensures
        final(out)@ == old(out)@ + clause@.render_body(table@, name_views(names@)),
    decreases clause, 0nat,
{
    let ghost nv = name_views(names@);
    match &clause.condition {
        None => {
            write_application(out, &clause.conclusion, table, names);
        },
        Some(g) => {
            out.append("implies(");
            write_goal(out, g, table, names);
            out.append(" => ");
            write_application(out, &clause.conclusion, table, names);
            out.append(")");
            assert(out@ =~= old(out)@ + ("implies("@ + g@.render(table@, nv) + " => "@
                + clause.conclusion@.render(table@, nv) + ")"@));
        },
    }
}

/// Appends the text of `clause` with the bindings of `table` filled in.
pub fn write_clause(out: &mut String, clause: &Clause, table: &InferenceTable, names: &Vec<usize>)
    ensures
        final(out)@ == old(out)@ + clause@.render(table@, name_views(names@)),
    decreases clause, 1nat,
{
    let ghost nv = name_views(names@);
    let inner = extend_names(names, clause.binders);
    assert(inner.len() == names.len() + clause.binders);
    if clause.binders == 0 {
        write_clause_body(out, clause, table, &inner);
    } else {
        out.append("forall(");
        write_binders(out, names.len(), clause.binders);
        out.append(" -> ");
        write_clause_body(out, clause, table, &inner);
        out.append(")");
        assert(out@ =~= old(out)@ + ("forall("@ + binders(nv.len(), clause.binders as nat)
            + " -> "@ + clause@.render_body(table@, bound_names(nv, clause.binders as nat))
            + ")"@));
    }
}

} // verus!
