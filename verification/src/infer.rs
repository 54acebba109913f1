//! The unifier: a table of existential variables, each unbound or bound to a
//! term, with the universe that each variable may name placeholders of.
use vstd::prelude::*;
use crate::unify_laws::{law_unify_applications_sound, law_unify_sound};
use crate::formula::{
    duplicate_terms, lemma_view_apply, term_views, Application, ApplicationView, Term, TermView,
};

verus! {

/// One existential variable: its binding, if any, and its universe.
pub struct Slot {
    pub binding: Option<Term>,
    pub universe: usize,
}

/// The mathematical value of a [`Slot`].
pub struct SlotView {
    pub binding: Option<TermView>,
    pub universe: nat,
}

impl View for Slot {
    type V = SlotView;

    open spec fn view(&self) -> SlotView {
        SlotView {
            binding: match self.binding {
                Some(t) => Some(t@),
                None => None,
            },
            universe: self.universe as nat,
        }
    }
}

/// The variables of one search branch. Variable `v` is slot `v`; a binding
/// never mentions a bound variable of the same table.
pub struct InferenceTable {
    pub slots: Vec<Slot>,
    /// How many universes have been opened on this branch.
    pub universes: usize,
}

/// The mathematical value of an [`InferenceTable`].
pub struct TableView {
    pub slots: Seq<SlotView>,
    pub universes: nat,
}

/// The views of a sequence of slots, element by element.
pub open spec fn slot_views(slots: Seq<Slot>) -> Seq<SlotView> {
    Seq::new(slots.len(), |i: int| slots[i]@)
}

impl View for InferenceTable {
    type V = TableView;

    open spec fn view(&self) -> TableView {
        TableView { slots: slot_views(self.slots@), universes: self.universes as nat }
    }
}

/// What a successful unification hands back: the table, and whether any
/// variable was bound on the way.
pub struct Unified {
    pub table: TableView,
    pub changed: bool,
}

/// How many of the slots are unbound.
pub open spec fn count_unbound(slots: Seq<SlotView>) -> nat
    decreases slots.len(),
{
    if slots.len() == 0 {
        0
    } else {
        count_unbound(slots.drop_last()) + if slots.last().binding is None {
            1nat
        } else {
            0nat
        }
    }
}

impl TermView {
    /// The term with each bound variable of `table` replaced by its binding.
    pub open spec fn resolve(self, table: TableView) -> TermView
        decreases self,
    {
        match self {
            TermView::Var(v) => if v < table.slots.len() {
                match table.slots[v as int].binding {
                    Some(t) => t,
                    None => self,
                }
            } else {
                self
            },
            TermView::Apply(name, args) => TermView::Apply(
                name,
                Seq::new(
                    args.len(),
                    |k: int|
                        if 0 <= k < args.len() {
                            args[k].resolve(table)
                        } else {
                            TermView::Bound(0)
                        },
                ),
            ),
            _ => self,
        }
    }

    /// The term with the variable `x` replaced by `by`.
    pub open spec fn replace(self, x: nat, by: TermView) -> TermView
        decreases self,
    {
        match self {
            TermView::Var(v) => if v == x {
                by
            } else {
                self
            },
            TermView::Apply(name, args) => TermView::Apply(
                name,
                Seq::new(
                    args.len(),
                    |k: int|
                        if 0 <= k < args.len() {
                            args[k].replace(x, by)
                        } else {
                            TermView::Bound(0)
                        },
                ),
            ),
            _ => self,
        }
    }
}

/// Resolution of each term of a sequence.
pub open spec fn resolve_all(terms: Seq<TermView>, table: TableView) -> Seq<TermView> {
    Seq::new(terms.len(), |k: int| terms[k].resolve(table))
}

/// Replacement in each term of a sequence.
pub open spec fn replace_all(terms: Seq<TermView>, x: nat, by: TermView) -> Seq<TermView> {
    Seq::new(terms.len(), |k: int| terms[k].replace(x, by))
}

/// An application is resolved argument by argument.
pub proof fn lemma_resolve_apply(name: Seq<char>, args: Seq<TermView>, table: TableView)
    ensures
        TermView::Apply(name, args).resolve(table) == TermView::Apply(
            name,
            resolve_all(args, table),
        ),
{
    let t = TermView::Apply(name, args).resolve(table);
    assert(t->Apply_1 =~= resolve_all(args, table));
}

/// A variable is replaced in an application argument by argument.
pub proof fn lemma_replace_apply(name: Seq<char>, args: Seq<TermView>, x: nat, by: TermView)
    ensures
        TermView::Apply(name, args).replace(x, by) == TermView::Apply(
            name,
            replace_all(args, x, by),
        ),
{
    let t = TermView::Apply(name, args).replace(x, by);
    assert(t->Apply_1 =~= replace_all(args, x, by));
}

impl SlotView {
    /// The slot after the variable `x`, of universe `universe`, was bound to
    /// `term`: `x` is replaced in the binding, and a variable that `term`
    /// mentions sees no more than `x` did.
    pub open spec fn rebound(self, me: nat, x: nat, term: TermView, universe: nat) -> SlotView {
        if me == x {
            SlotView { binding: Some(term), universe: self.universe }
        } else {
            SlotView {
                binding: match self.binding {
                    Some(t) => Some(t.replace(x, term)),
                    None => None,
                },
                universe: if term.mentions(me) && universe < self.universe {
                    universe
                } else {
                    self.universe
                },
            }
        }
    }
}

impl TableView {
    /// A table without variables or universes.
    pub open spec fn empty() -> TableView {
        TableView { slots: Seq::empty(), universes: 0 }
    }

    /// How many variables are unbound.
    pub open spec fn unbound(self) -> nat {
        count_unbound(self.slots)
    }

    /// The table with `n` more unbound variables of universe `universe`.
    pub open spec fn with_variables(self, n: nat, universe: nat) -> TableView {
        TableView {
            slots: self.slots + Seq::new(n, |i: int| SlotView { binding: None, universe }),
            universes: self.universes,
        }
    }

    /// The table with one more universe.
    pub open spec fn with_universe(self) -> TableView {
        TableView { slots: self.slots, universes: self.universes + 1 }
    }

    /// Binds the unbound variable `x` to `term`. It fails where `x` is no
    /// unbound variable of the table, where `term` mentions `x`, and where
    /// `term` holds a placeholder of a universe that `x` cannot see.
    pub open spec fn bind(self, x: nat, term: TermView) -> Option<TableView> {
        if x < self.slots.len() && self.slots[x as int].binding is None && !term.mentions(x)
            && term.visible_from(self.slots[x as int].universe) {
            Some(
                TableView {
                    slots: Seq::new(
                        self.slots.len(),
                        |v: int|
                            self.slots[v].rebound(
                                v as nat,
                                x,
                                term,
                                self.slots[x as int].universe,
                            ),
                    ),
                    universes: self.universes,
                },
            )
        } else {
            None
        }
    }

    /// Binds `x` to `term` and reports the change.
    pub open spec fn bind_changed(self, x: nat, term: TermView) -> Option<Unified> {
        match self.bind(x, term) {
            Some(table) => Some(Unified { table, changed: true }),
            None => None,
        }
    }

    /// Unifies two terms that hold no bound variable of the table.
    pub open spec fn unify_resolved(self, a: TermView, b: TermView) -> Option<Unified>
        decreases self.unbound(), a, 1nat, 0nat,
    {
        match a {
            TermView::Var(x) => if b == a {
                Some(Unified { table: self, changed: false })
            } else {
                self.bind_changed(x, b)
            },
            TermView::Apply(name, args) => match b {
                TermView::Var(y) => self.bind_changed(y, a),
                TermView::Apply(other, others) => if name == other && args.len() == others.len() {
                    self.unify_args(a, b, 0)
                } else {
                    None
                },
                _ => None,
            },
            _ => match b {
                TermView::Var(y) => self.bind_changed(y, a),
                _ => if b == a {
                    Some(Unified { table: self, changed: false })
                } else {
                    None
                },
            },
        }
    }

    /// Unifies the arguments of two applications from position `i` on. After
    /// an argument that bound a variable, the remaining ones are resolved
    /// again; a binding leaves fewer unbound variables, so the last branch is
    /// never taken.
    pub open spec fn unify_args(self, a: TermView, b: TermView, i: nat) -> Option<Unified>
        decreases self.unbound(), a, 0nat, a->Apply_1.len() - i,
    {
        if a is Apply && b is Apply && i < a->Apply_1.len() && i < b->Apply_1.len() {
            match self.unify_resolved(a->Apply_1[i as int], b->Apply_1[i as int]) {
                None => None,
                Some(first) => if !first.changed {
                    self.unify_args(a, b, i + 1)
                } else if first.table.unbound() < self.unbound() {
                    match first.table.unify_args(
                        a.resolve(first.table),
                        b.resolve(first.table),
                        i + 1,
                    ) {
                        Some(rest) => Some(Unified { table: rest.table, changed: true }),
                        None => None,
                    }
                } else {
                    None
                },
            }
        } else {
            Some(Unified { table: self, changed: false })
        }
    }

    /// Unifies two terms under the table's bindings: both are resolved, and
    /// what they resolve to is unified.
    pub open spec fn unify(self, a: TermView, b: TermView) -> Option<TableView> {
        match self.unify_resolved(a.resolve(self), b.resolve(self)) {
            Some(u) => Some(u.table),
            None => None,
        }
    }

    /// Unifies two applications: their names and arities must agree, and
    /// their arguments unify in turn.
    pub open spec fn unify_applications(self, a: ApplicationView, b: ApplicationView) -> Option<
        TableView,
    > {
        self.unify(TermView::Apply(a.name, a.args), TermView::Apply(b.name, b.args))
    }
}

/// Slots that are bound at the same positions have the same count of
/// unbound ones.
pub proof fn lemma_count_same(s1: Seq<SlotView>, s2: Seq<SlotView>)
    requires
        s1.len() == s2.len(),
        forall|v: int| 0 <= v < s1.len() ==> (s1[v].binding is None) == (s2[v].binding is None),
    ensures
        count_unbound(s1) == count_unbound(s2),
    decreases s1.len(),
{
    if s1.len() > 0 {
        lemma_count_same(s1.drop_last(), s2.drop_last());
    }
}

/// Binding one unbound slot leaves one unbound slot fewer.
pub proof fn lemma_count_bound(s1: Seq<SlotView>, s2: Seq<SlotView>, x: int)
    requires
        s1.len() == s2.len(),
        0 <= x < s1.len(),
        s1[x].binding is None,
        s2[x].binding is Some,
        forall|v: int|
            0 <= v < s1.len() && v != x ==> (s1[v].binding is None) == (s2[v].binding is None),
    ensures
        count_unbound(s2) + 1 == count_unbound(s1),
    decreases s1.len(),
{
    if x == s1.len() - 1 {
        lemma_count_same(s1.drop_last(), s2.drop_last());
    } else {
        lemma_count_bound(s1.drop_last(), s2.drop_last(), x);
    }
}

impl TableView {
    /// A binding leaves one unbound variable fewer.
    pub proof fn lemma_bind_unbound(self, x: nat, term: TermView)
        requires
            self.bind(x, term) is Some,
        ensures
            self.bind(x, term)->0.unbound() + 1 == self.unbound(),
    {
        lemma_count_bound(self.slots, self.bind(x, term)->0.slots, x as int);
    }

    /// A unification that reports no change hands the table back; one that
    /// reports a change leaves fewer unbound variables.
    pub proof fn lemma_unify_resolved_progress(self, a: TermView, b: TermView)
        ensures
            match self.unify_resolved(a, b) {
                Some(u) => if u.changed {
                    u.table.unbound() < self.unbound()
                } else {
                    u.table == self
                },
                None => true,
            },
        decreases self.unbound(), a, 1nat, 0nat,
    {
        match a {
            TermView::Var(x) => {
                if b != a && self.bind(x, b) is Some {
                    self.lemma_bind_unbound(x, b);
                }
            },
            TermView::Apply(name, args) => match b {
                TermView::Var(y) => {
                    if self.bind(y, a) is Some {
                        self.lemma_bind_unbound(y, a);
                    }
                },
                TermView::Apply(other, others) => {
                    if name == other && args.len() == others.len() {
                        self.lemma_unify_args_progress(a, b, 0);
                    }
                },
                _ => {},
            },
            _ => match b {
                TermView::Var(y) => {
                    if self.bind(y, a) is Some {
                        self.lemma_bind_unbound(y, a);
                    }
                },
                _ => {},
            },
        }
    }

    /// The same, of the arguments from position `i` on.
    pub proof fn lemma_unify_args_progress(self, a: TermView, b: TermView, i: nat)
        ensures
            match self.unify_args(a, b, i) {
                Some(u) => if u.changed {
                    u.table.unbound() < self.unbound()
                } else {
                    u.table == self
                },
                None => true,
            },
        decreases self.unbound(), a, 0nat, a->Apply_1.len() - i,
    {
        if a is Apply && b is Apply && i < a->Apply_1.len() && i < b->Apply_1.len() {
            self.lemma_unify_resolved_progress(a->Apply_1[i as int], b->Apply_1[i as int]);
            match self.unify_resolved(a->Apply_1[i as int], b->Apply_1[i as int]) {
                None => {},
                Some(first) => {
                    if !first.changed {
                        self.lemma_unify_args_progress(a, b, i + 1);
                    } else {
                        first.table.lemma_unify_args_progress(
                            a.resolve(first.table),
                            b.resolve(first.table),
                            i + 1,
                        );
                    }
                },
            }
        }
    }
}

impl Term {
    /// Whether the existential variable `v` occurs in the term.
    pub fn mentions(&self, v: usize) -> (r: bool)
        ensures
            r == self@.mentions(v as nat),
        decreases self,
    {
        match self {
            Term::Var(w) => *w == v,
            Term::Apply(name, args) => {
                proof {
                    lemma_view_apply(*name, *args);
                }
                let mut k: usize = 0;
                while k < args.len()
                    invariant
                        self is Apply,
                        self->Apply_1 == *args,
                        k <= args.len(),
                        forall|j: int| 0 <= j < k ==> !(#[trigger] args@[j]@).mentions(v as nat),
                        self@ == TermView::Apply(name@, term_views(args@)),
                    decreases args.len() - k,
                {
                    if args[k].mentions(v) {
                        assert(self@->Apply_1[k as int].mentions(v as nat));
                        assert(self@.mentions(v as nat));
                        return true;
                    }
                    k = k + 1;
                }
                assert forall|j: int| 0 <= j < term_views(args@).len() implies !(
                #[trigger] term_views(args@)[j]).mentions(v as nat) by {
                    assert(!args@[j]@.mentions(v as nat));
                }
                false
            },
            _ => false,
        }
    }

    /// Whether every placeholder of the term lies in a universe that
    /// `universe` can see.
    pub fn visible_from(&self, universe: usize) -> (r: bool)
        ensures
            r == self@.visible_from(universe as nat),
        decreases self,
    {
        match self {
            Term::Rigid(u, _) => *u <= universe,
            Term::Apply(name, args) => {
                proof {
                    lemma_view_apply(*name, *args);
                }
                let mut k: usize = 0;
                while k < args.len()
                    invariant
                        self is Apply,
                        self->Apply_1 == *args,
                        k <= args.len(),
                        forall|j: int|
                            0 <= j < k ==> (#[trigger] args@[j]@).visible_from(universe as nat),
                        self@ == TermView::Apply(name@, term_views(args@)),
                    decreases args.len() - k,
                {
                    if !args[k].visible_from(universe) {
                        assert(!self@->Apply_1[k as int].visible_from(universe as nat));
                        assert(!self@.visible_from(universe as nat));
                        return false;
                    }
                    k = k + 1;
                }
                assert forall|j: int| 0 <= j < term_views(args@).len() implies (
                #[trigger] term_views(args@)[j]).visible_from(universe as nat) by {
                    assert(args@[j]@.visible_from(universe as nat));
                }
                true
            },
            _ => true,
        }
    }

    /// The term with the variable `x` replaced by `by`.
    pub fn replace(&self, x: usize, by: &Term) -> (r: Term)
        ensures
            r@ == self@.replace(x as nat, by@),
        decreases self,
    {
        match self {
            Term::Bound(i) => Term::Bound(*i),
            Term::Var(v) => if *v == x {
                by.duplicate()
            } else {
                Term::Var(*v)
            },
            Term::Rigid(u, i) => Term::Rigid(*u, *i),
            Term::Apply(name, args) => {
                let mut out: Vec<Term> = Vec::new();
                let mut k: usize = 0;
                while k < args.len()
                    invariant
                        self is Apply,
                        self->Apply_1 == *args,
                        k <= args.len(),
                        out.len() == k,
                        forall|j: int|
                            0 <= j < k ==> out@[j]@ == args@[j]@.replace(x as nat, by@),
                    decreases args.len() - k,
                {
                    let t = args[k].replace(x, by);
                    out.push(t);
                    k = k + 1;
                }
                proof {
                    lemma_view_apply(*name, *args);
                    lemma_view_apply(*name, out);
                    lemma_replace_apply(name@, term_views(args@), x as nat, by@);
                    assert(term_views(out@) =~= replace_all(term_views(args@), x as nat, by@));
                }
                Term::Apply(name.clone(), out)
            },
        }
    }

    /// Whether the term is no application and equals `other`.
    pub fn same_leaf(&self, other: &Term) -> (r: bool)
        ensures
            r == (!(self@ is Apply) && self@ == other@),
    {
        match self {
            Term::Bound(i) => match other {
                Term::Bound(j) => *i == *j,
                _ => false,
            },
            Term::Var(v) => match other {
                Term::Var(w) => *v == *w,
                _ => false,
            },
            Term::Rigid(u, i) => match other {
                Term::Rigid(w, j) => *u == *w && *i == *j,
                _ => false,
            },
            Term::Apply(_, _) => false,
        }
    }
}

impl InferenceTable {
    /// A table without variables or universes.
    pub fn new() -> (r: InferenceTable)
        ensures
            r@ == TableView::empty(),
    {
        let r = InferenceTable { slots: Vec::new(), universes: 0 };
        assert(r@.slots =~= Seq::empty());
        r
    }

    /// A deep copy.
    pub fn duplicate(&self) -> (r: InferenceTable)
        ensures
            r@ == self@,
    {
        let mut slots: Vec<Slot> = Vec::new();
        let mut k: usize = 0;
        while k < self.slots.len()
            invariant
                k <= self.slots.len(),
                slots.len() == k,
                forall|j: int| 0 <= j < k ==> slots@[j]@ == self.slots@[j]@,
            decreases self.slots.len() - k,
        {
            let binding = match &self.slots[k].binding {
                Some(t) => Some(t.duplicate()),
                None => None,
            };
            slots.push(Slot { binding, universe: self.slots[k].universe });
            k = k + 1;
        }
        let r = InferenceTable { slots, universes: self.universes };
        assert(r@.slots =~= self@.slots);
        r
    }

    /// Adds `n` unbound variables of universe `universe`; the first of them
    /// is the variable numbered as the table was long.
    pub fn add_variables(&mut self, n: usize, universe: usize)
        ensures
            final(self)@ == old(self)@.with_variables(n as nat, universe as nat),
    {
        let mut k: usize = 0;
        while k < n
            invariant
                k <= n,
                self@ == old(self)@.with_variables(k as nat, universe as nat),
            decreases n - k,
        {
            let ghost before = self@;
            self.slots.push(Slot { binding: None, universe });
            k = k + 1;
            assert(self@.slots =~= before.slots.push(
                SlotView { binding: None, universe: universe as nat },
            ));
            assert(self@.slots =~= old(self)@.with_variables(k as nat, universe as nat).slots);
        }
        assert(self@.slots =~= old(self)@.with_variables(n as nat, universe as nat).slots);
    }

    /// The term with each bound variable replaced by its binding.
    pub fn resolve(&self, t: &Term) -> (r: Term)
        ensures
            r@ == t@.resolve(self@),
        decreases t,
    {
        match t {
            Term::Bound(i) => Term::Bound(*i),
            Term::Var(v) => {
                if *v < self.slots.len() {
                    match &self.slots[*v].binding {
                        Some(b) => b.duplicate(),
                        None => Term::Var(*v),
                    }
                } else {
                    Term::Var(*v)
                }
            },
            Term::Rigid(u, i) => Term::Rigid(*u, *i),
            Term::Apply(name, args) => {
                let mut out: Vec<Term> = Vec::new();
                let mut k: usize = 0;
                while k < args.len()
                    invariant
                        t is Apply,
                        t->Apply_1 == *args,
                        k <= args.len(),
                        out.len() == k,
                        forall|j: int| 0 <= j < k ==> out@[j]@ == args@[j]@.resolve(self@),
                    decreases args.len() - k,
                {
                    let r = self.resolve(&args[k]);
                    out.push(r);
                    k = k + 1;
                }
                proof {
                    lemma_view_apply(*name, *args);
                    lemma_view_apply(*name, out);
                    lemma_resolve_apply(name@, term_views(args@), self@);
                    assert(term_views(out@) =~= resolve_all(term_views(args@), self@));
                }
                Term::Apply(name.clone(), out)
            },
        }
    }

    /// Binds the variable `x` to `term`, or fails as [`TableView::bind`] says.
    pub fn bind(self, x: usize, term: &Term) -> (r: Option<InferenceTable>)
        ensures
            match r {
                Some(t) => self@.bind(x as nat, term@) == Some(t@),
                None => self@.bind(x as nat, term@) is None,
            },
    {
        if x >= self.slots.len() {
            return None;
        }
        if self.slots[x].binding.is_some() {
            return None;
        }
        let universe = self.slots[x].universe;
        if term.mentions(x) || !term.visible_from(universe) {
            return None;
        }
        let mut slots: Vec<Slot> = Vec::new();
        let mut v: usize = 0;
        while v < self.slots.len()
            invariant
                v <= self.slots.len(),
                slots.len() == v,
                x < self.slots.len(),
                universe == self.slots@[x as int].universe,
                forall|j: int|
                    0 <= j < v ==> slots@[j]@ == self@.slots[j].rebound(
                        j as nat,
                        x as nat,
                        term@,
                        universe as nat,
                    ),
            decreases self.slots.len() - v,
        {
            let slot = &self.slots[v];
            if v == x {
                slots.push(Slot { binding: Some(term.duplicate()), universe: slot.universe });
            } else {
                let binding = match &slot.binding {
                    Some(t) => Some(t.replace(x, term)),
                    None => None,
                };
                let lowered = if term.mentions(v) && universe < slot.universe {
                    universe
                } else {
                    slot.universe
                };
                slots.push(Slot { binding, universe: lowered });
            }
            v = v + 1;
        }
        let r = InferenceTable { slots, universes: self.universes };
        assert(r@.slots =~= self@.bind(x as nat, term@)->0.slots);
        Some(r)
    }

    /// Unifies two terms that hold no bound variable of the table.
    pub fn unify_resolved(self, a: &Term, b: &Term) -> (r: Option<(InferenceTable, bool)>)
        ensures
            match r {
                Some((t, changed)) => self@.unify_resolved(a@, b@) == Some(
                    Unified { table: t@, changed },
                ),
                None => self@.unify_resolved(a@, b@) is None,
            },
        decreases self@.unbound(), a@, 1nat, 0nat,
    {
        match a {
            Term::Apply(name, args) => match b {
                Term::Var(y) => match self.bind(*y, a) {
                    Some(t) => Some((t, true)),
                    None => None,
                },
                Term::Apply(other, others) => {
                    proof {
                        lemma_view_apply(*name, *args);
                        lemma_view_apply(*other, *others);
                    }
                    if *name == *other && args.len() == others.len() {
                        self.unify_args(a, b, 0)
                    } else {
                        None
                    }
                },
                _ => None,
            },
            Term::Var(x) => if a.same_leaf(b) {
                Some((self, false))
            } else {
                match self.bind(*x, b) {
                    Some(t) => Some((t, true)),
                    None => None,
                }
            },
            _ => match b {
                Term::Var(y) => match self.bind(*y, a) {
                    Some(t) => Some((t, true)),
                    None => None,
                },
                _ => if a.same_leaf(b) {
                    Some((self, false))
                } else {
                    None
                },
            },
        }
    }

    /// Unifies the arguments of two applications from position `i` on.
    pub fn unify_args(self, a: &Term, b: &Term, i: usize) -> (r: Option<(InferenceTable, bool)>)
        ensures
            match r {
                Some((t, changed)) => self@.unify_args(a@, b@, i as nat) == Some(
                    Unified { table: t@, changed },
                ),
                None => self@.unify_args(a@, b@, i as nat) is None,
            },
        decreases self@.unbound(), a@, 0nat, a@->Apply_1.len() - i,
    {
        match a {
            Term::Apply(name, args) => match b {
                Term::Apply(other, others) => {
                    proof {
                        lemma_view_apply(*name, *args);
                        lemma_view_apply(*other, *others);
                    }
                    if i < args.len() && i < others.len() {
                        let ghost before = self@;
                        proof {
                            before.lemma_unify_resolved_progress(args@[i as int]@, others@[i as int]@);
                        }
                        match self.unify_resolved(&args[i], &others[i]) {
                            None => None,
                            Some((first, changed)) => {
                                if !changed {
                                    first.unify_args(a, b, i + 1)
                                } else {
                                    let a2 = first.resolve(a);
                                    let b2 = first.resolve(b);
                                    match first.unify_args(&a2, &b2, i + 1) {
                                        Some((rest, _)) => Some((rest, true)),
                                        None => None,
                                    }
                                }
                            },
                        }
                    } else {
                        Some((self, false))
                    }
                },
                _ => Some((self, false)),
            },
            _ => Some((self, false)),
        }
    }

    /// Unifies two terms under the table's bindings. Where the table is
    /// well formed and the unification succeeds, the table handed back is
    /// well formed, keeps what was bound, and resolves both terms to the
    /// same term.
    pub fn unify(self, a: &Term, b: &Term) -> (r: Option<InferenceTable>)
        ensures
            match r {
                Some(t) => self@.unify(a@, b@) == Some(t@),
                None => self@.unify(a@, b@) is None,
            },
            self@.well_formed() ==> (r matches Some(t) ==> t@.well_formed() && self@.refined_by(t@)
                && a@.resolve(t@) == b@.resolve(t@)),
    {
        proof {
            if self@.well_formed() {
                law_unify_sound(self@, a@, b@);
            }
        }
        let a2 = self.resolve(a);
        let b2 = self.resolve(b);
        match self.unify_resolved(&a2, &b2) {
            Some((t, _)) => Some(t),
            None => None,
        }
    }
}

impl InferenceTable {
    /// Unifies two applications under the table's bindings. Where the
    /// table is well formed and the unification succeeds, the table handed
    /// back is well formed, keeps what was bound, and resolves the
    /// arguments of both to the same terms.
    pub fn unify_applications(self, a: &Application, b: &Application) -> (r: Option<
        InferenceTable,
    >)
        ensures
            match r {
                Some(t) => self@.unify_applications(a@, b@) == Some(t@),
                None => self@.unify_applications(a@, b@) is None,
            },
            self@.well_formed() ==> (r matches Some(t) ==> t@.well_formed() && self@.refined_by(t@)
                && a@.name == b@.name && resolve_all(a@.args, t@) == resolve_all(b@.args, t@)),
    {
        proof {
            if self@.well_formed() {
                law_unify_applications_sound(self@, a@, b@);
            }
        }
        let left = Term::Apply(a.name.clone(), duplicate_terms(&a.args));
        let right = Term::Apply(b.name.clone(), duplicate_terms(&b.args));
        proof {
            lemma_view_apply(left->Apply_0, left->Apply_1);
            lemma_view_apply(right->Apply_0, right->Apply_1);
        }
        self.unify(&left, &right)
    }
}

} // verus!
