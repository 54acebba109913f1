use chalk::environment::Environment;
use chalk::formula::{Application, Clause, Goal, Term};
use chalk::infer::InferenceTable;
use chalk::render::{write_clause, write_goal, write_term};
use chalk::solve::{Solution, Solver, Strategy, DEPTH_LIMIT};
use std::sync::Arc;

fn b(i: usize) -> Term {
    Term::Bound(i)
}

fn c(name: &str) -> Term {
    Term::Apply(name.to_string(), vec![])
}

fn f(name: &str, args: Vec<Term>) -> Term {
    Term::Apply(name.to_string(), args)
}

fn atom(name: &str, args: Vec<Term>) -> Goal {
    Goal::Apply(Application { name: name.to_string(), args })
}

fn fact(binders: usize, name: &str, args: Vec<Term>) -> Clause {
    Clause { binders, condition: None, conclusion: Application { name: name.to_string(), args } }
}

fn rule(binders: usize, condition: Goal, name: &str, args: Vec<Term>) -> Clause {
    Clause {
        binders,
        condition: Some(condition),
        conclusion: Application { name: name.to_string(), args },
    }
}

fn both(l: Goal, r: Goal) -> Goal {
    Goal::And(Box::new(l), Box::new(r))
}

fn given(clause: Clause, goal: Goal) -> Goal {
    Goal::Implies(Box::new(clause), Box::new(goal))
}

fn every(n: usize, goal: Goal) -> Goal {
    Goal::ForAll(n, Box::new(goal))
}

fn some(n: usize, goal: Goal) -> Goal {
    Goal::Exists(n, Box::new(goal))
}

fn root(clauses: Vec<Clause>) -> Arc<Environment> {
    Arc::new(Environment::new(None, clauses))
}

fn dfs(clauses: Vec<Clause>, goal: Goal) -> Vec<String> {
    Solver::solve(root(clauses), goal, Strategy::DepthFirstSearch)
}

fn rust(clauses: Vec<Clause>, goal: Goal) -> Vec<String> {
    Solver::solve(root(clauses), goal, Strategy::Rust)
}

fn text_of_goal(goal: &Goal) -> String {
    let mut out = String::new();
    write_goal(&mut out, goal, &InferenceTable::new(), &Vec::new());
    out
}

fn text_of_term(term: &Term) -> String {
    let mut out = String::new();
    write_term(&mut out, term, &Vec::new());
    out
}

fn equate() -> Clause {
    fact(1, "equate", vec![b(0), b(0)])
}

#[test]
fn three_facts_give_three_solutions_in_order() {
    let facts = || {
        vec![
            fact(0, "p", vec![c("one")]),
            fact(0, "p", vec![f("s", vec![c("one")])]),
            fact(0, "p", vec![c("three")]),
        ]
    };
    assert_eq!(
        dfs(facts(), some(1, atom("p", vec![b(0)]))),
        vec![r#""p"("one")"#, r#""p"("s"("one"))"#, r#""p"("three")"#]
    );
    assert_eq!(rust(facts(), some(1, atom("p", vec![b(0)]))), vec!["<<ambiguous>>"]);
}

#[test]
fn one_fact_is_no_ambiguity() {
    assert_eq!(
        rust(vec![fact(0, "p", vec![c("one")])], some(1, atom("p", vec![b(0)]))),
        vec![r#""p"("one")"#]
    );
}

#[test]
fn identical_branches_are_ambiguous_too() {
    let twice = || vec![fact(0, "p", vec![c("one")]), fact(0, "p", vec![c("one")])];
    assert_eq!(
        dfs(twice(), atom("p", vec![c("one")])),
        vec![r#""p"("one")"#, r#""p"("one")"#]
    );
    assert_eq!(rust(twice(), atom("p", vec![c("one")])), vec!["<<ambiguous>>"]);
}

#[test]
fn empty_clause_set_proves_no_atom() {
    for strategy in [Strategy::DepthFirstSearch, Strategy::Rust] {
        let goals = vec![
            atom("p", vec![]),
            every(2, atom("p", vec![b(0), b(1)])),
            both(atom("p", vec![]), atom("q", vec![])),
            some(1, every(1, atom("p", vec![b(0), b(1)]))),
        ];
        for goal in goals {
            assert!(Solver::solve(root(vec![]), goal, strategy).is_empty());
        }
    }
}

#[test]
fn occurs_check_rejects_cyclic_binding() {
    // equate(X, f(X)) has no solution.
    assert!(dfs(vec![equate()], some(1, atom("equate", vec![b(0), f("f", vec![b(0)])]))).is_empty());
    // equate(f(X), f(g(Y))) binds X to g(Y).
    assert_eq!(
        dfs(
            vec![equate()],
            some(
                2,
                atom("equate", vec![f("f", vec![b(0)]), f("f", vec![f("g", vec![b(1)])])])
            )
        ),
        vec![r#""equate"("f"("g"(?1)), "f"("g"(?1)))"#]
    );
}

#[test]
fn later_arguments_see_earlier_bindings() {
    // pair(A, A) against pair(X, one) and pair(one, two).
    let same = fact(1, "pair", vec![b(0), b(0)]);
    assert_eq!(
        dfs(vec![same.duplicate()], some(1, atom("pair", vec![b(0), c("one")]))),
        vec![r#""pair"("one", "one")"#]
    );
    assert!(dfs(vec![same], atom("pair", vec![c("one"), c("two")])).is_empty());
}

#[test]
fn placeholder_does_not_escape_its_universe() {
    // exists X. forall A. equate(X, A) fails: X cannot name A.
    assert!(dfs(vec![equate()], some(1, every(1, atom("equate", vec![b(1), b(0)])))).is_empty());
    // forall A. exists X. equate(X, A) holds.
    let goal = every(1, some(1, atom("equate", vec![b(0), b(1)])));
    assert_eq!(
        dfs(vec![equate()], goal.duplicate()),
        vec![r#"forall(A -> exists(B -> "equate"(B, A)))"#]
    );
    assert_eq!(rust(vec![equate()], goal), vec![r#"forall(A -> exists(B -> "equate"(B, A)))"#]);
}

#[test]
fn placeholder_does_not_escape_through_another_variable() {
    // exists X. forall A. exists Y. equate(X, Y), equate(Y, A) fails as well.
    let goal = some(
        1,
        every(
            1,
            some(
                1,
                both(atom("equate", vec![b(2), b(0)]), atom("equate", vec![b(0), b(1)])),
            ),
        ),
    );
    assert!(dfs(vec![equate()], goal).is_empty());
}

#[test]
fn premise_is_visible_in_its_goal_only() {
    let inner = given(fact(0, "foo", vec![c("bar")]), atom("foo", vec![c("bar")]));
    assert_eq!(
        dfs(vec![], inner.duplicate()),
        vec![r#"implies("foo"("bar") => "foo"("bar"))"#]
    );
    assert!(dfs(vec![], both(inner, atom("foo", vec![c("bar")]))).is_empty());
}

#[test]
fn local_clauses_are_tried_before_the_root() {
    assert_eq!(
        dfs(
            vec![fact(0, "foo", vec![c("baz")])],
            some(1, given(fact(0, "foo", vec![c("bar")]), atom("foo", vec![b(0)])))
        ),
        vec![
            r#"implies("foo"("bar") => "foo"("bar"))"#,
            r#"implies("foo"("bar") => "foo"("baz"))"#
        ]
    );
}

#[test]
fn nested_scopes_show_the_inner_clauses_first() {
    let outer = root(vec![fact(0, "foo", vec![c("a")]), fact(0, "foo", vec![c("b")])]);
    let inner = Arc::new(Environment::new(Some(outer), vec![fact(0, "foo", vec![c("c")])]));
    assert_eq!(
        Solver::solve(inner, some(1, atom("foo", vec![b(0)])), Strategy::DepthFirstSearch),
        vec![r#""foo"("c")"#, r#""foo"("a")"#, r#""foo"("b")"#]
    );
}

#[test]
fn premise_may_mention_the_variables_in_scope() {
    // forall A. (foo(A) => foo(A)) holds; forall A. forall B. (foo(A) => foo(B)) does not.
    assert_eq!(
        dfs(vec![], every(1, given(fact(0, "foo", vec![b(0)]), atom("foo", vec![b(0)])))),
        vec![r#"forall(A -> implies("foo"(A) => "foo"(A)))"#]
    );
    assert!(
        dfs(vec![], every(2, given(fact(0, "foo", vec![b(0)]), atom("foo", vec![b(1)])))).is_empty()
    );
}

fn ladder(steps: usize) -> Vec<Clause> {
    // step0 :- step1, step1 :- step2, ..., and the last step as a fact.
    let mut clauses = Vec::new();
    for i in 0..steps {
        clauses.push(rule(0, atom(&format!("step{}", i + 1), vec![]), &format!("step{}", i), vec![]));
    }
    clauses.push(fact(0, &format!("step{}", steps), vec![]));
    clauses
}

#[test]
fn depth_limit_is_exact() {
    assert_eq!(DEPTH_LIMIT, 32);
    assert_eq!(dfs(ladder(0), atom("step0", vec![])), vec![r#""step0""#]);
    assert_eq!(dfs(ladder(DEPTH_LIMIT), atom("step0", vec![])), vec![r#""step0""#]);
    assert_eq!(rust(ladder(DEPTH_LIMIT), atom("step0", vec![])), vec![r#""step0""#]);
    assert_eq!(dfs(ladder(DEPTH_LIMIT + 1), atom("step0", vec![])), vec!["<<overflow>>"]);
    assert_eq!(rust(ladder(DEPTH_LIMIT + 1), atom("step0", vec![])), vec!["<<overflow>>"]);
}

#[test]
fn overflow_replaces_the_solutions_found_before() {
    // p(one). p(X) :- p(X).
    let clauses = vec![
        fact(0, "p", vec![c("one")]),
        rule(1, atom("p", vec![b(0)]), "p", vec![b(0)]),
    ];
    assert_eq!(dfs(clauses, atom("p", vec![c("one")])), vec!["<<overflow>>"]);
}

#[test]
fn conjunction_stops_where_its_first_part_fails() {
    let looping = || vec![rule(1, atom("p", vec![b(0)]), "p", vec![b(0)])];
    let p = || atom("p", vec![c("a")]);
    let q = || atom("q", vec![c("a")]);
    assert!(dfs(looping(), both(q(), p())).is_empty());
    assert_eq!(dfs(looping(), both(p(), q())), vec!["<<overflow>>"]);
}

#[test]
fn conjunction_in_either_order_binds_the_same_value() {
    let clauses = || {
        vec![
            fact(0, "small", vec![c("one")]),
            fact(0, "small", vec![c("two")]),
            fact(0, "even", vec![c("two")]),
            fact(0, "even", vec![c("four")]),
        ]
    };
    assert_eq!(
        dfs(clauses(), some(1, both(atom("small", vec![b(0)]), atom("even", vec![b(0)])))),
        vec![r#"and("small"("two"), "even"("two"))"#]
    );
    assert_eq!(
        dfs(clauses(), some(1, both(atom("even", vec![b(0)]), atom("small", vec![b(0)])))),
        vec![r#"and("even"("two"), "small"("two"))"#]
    );
    let none = || some(1, both(atom("small", vec![b(0)]), atom("even", vec![c("one")])));
    assert!(dfs(clauses(), none()).is_empty());
    assert!(rust(clauses(), none()).is_empty());
}

#[test]
fn decide_reports_the_witness() {
    let env = root(vec![
        fact(0, "p", vec![c("one"), c("two")]),
        fact(0, "q", vec![c("a")]),
        fact(0, "q", vec![c("b")]),
        rule(1, atom("loop", vec![b(0)]), "loop", vec![b(0)]),
    ]);
    match Solver::decide(&env, &some(2, atom("p", vec![b(0), b(1)]))) {
        Some(Solution::Unique(witness)) => {
            let texts: Vec<String> = witness.iter().map(text_of_term).collect();
            assert_eq!(texts, vec![r#""one""#, r#""two""#]);
        }
        _ => panic!("the goal has one proof"),
    }
    match Solver::decide(&env, &atom("p", vec![c("one"), c("two")])) {
        Some(Solution::Unique(witness)) => assert!(witness.is_empty()),
        _ => panic!("the goal has one proof"),
    }
    assert!(Solver::decide(&env, &atom("p", vec![c("two"), c("one")])).is_none());
    assert!(matches!(
        Solver::decide(&env, &some(1, atom("q", vec![b(0)]))),
        Some(Solution::Ambiguous)
    ));
    assert!(matches!(
        Solver::decide(&env, &atom("loop", vec![c("a")])),
        Some(Solution::Ambiguous)
    ));
}

#[test]
fn unify_binds_and_resolves() {
    let mut table = InferenceTable::new();
    table.add_variables(2, 0);
    let left = f("pair", vec![Term::Var(0), c("b")]);
    let right = f("pair", vec![f("s", vec![Term::Var(1)]), Term::Var(1)]);
    let table = match table.unify(&left, &right) {
        Some(table) => table,
        None => panic!("the terms unify"),
    };
    assert_eq!(text_of_term(&table.resolve(&Term::Var(0))), r#""s"("b")"#);
    assert_eq!(text_of_term(&table.resolve(&Term::Var(1))), r#""b""#);
    assert_eq!(text_of_term(&table.resolve(&left)), text_of_term(&table.resolve(&right)));
    assert!(table.unify(&c("a"), &c("b")).is_none());
}

#[test]
fn unify_fails_on_names_and_arities() {
    let table = || InferenceTable::new();
    assert!(table().unify(&f("f", vec![c("a")]), &f("g", vec![c("a")])).is_none());
    assert!(table().unify(&f("f", vec![c("a")]), &f("f", vec![c("a"), c("a")])).is_none());
    assert!(table().unify(&Term::Rigid(1, 0), &Term::Rigid(1, 1)).is_none());
    assert!(table().unify(&Term::Rigid(1, 0), &Term::Rigid(1, 0)).is_some());
    assert!(table().unify(&Term::Rigid(1, 0), &c("a")).is_none());
    // a variable that the table does not hold behaves as a constant
    assert!(table().unify(&Term::Var(3), &c("a")).is_none());
    assert!(table().unify(&Term::Var(3), &Term::Var(3)).is_some());
}

#[test]
fn variable_sees_its_own_universe_only() {
    let mut table = InferenceTable::new();
    table.add_variables(1, 0);
    table.add_variables(1, 2);
    assert!(table.duplicate().unify(&Term::Var(0), &Term::Rigid(1, 0)).is_none());
    assert!(table.duplicate().unify(&Term::Var(1), &Term::Rigid(1, 0)).is_some());
    assert!(table.duplicate().unify(&Term::Var(1), &Term::Rigid(3, 0)).is_none());
    // bound to the older variable, the younger sees no more than it
    let table = match table.unify(&Term::Var(0), &f("s", vec![Term::Var(1)])) {
        Some(table) => table,
        None => panic!("the terms unify"),
    };
    assert!(table.unify(&Term::Var(1), &Term::Rigid(1, 0)).is_none());
}

#[test]
fn instantiate_replaces_and_shifts() {
    let term = f("t", vec![b(0), b(1), b(2), b(3)]);
    let values = vec![c("x"), c("y")];
    let mut out = String::new();
    write_term(&mut out, &term.instantiate(1, &values), &vec![7, 8, 9]);
    // b(0) stays, b(1) and b(2) are replaced, b(3) moves to b(1)
    assert_eq!(out, r#""t"(H, "x", "y", I)"#);
}

#[test]
fn text_of_terms() {
    assert_eq!(text_of_term(&Term::Var(0)), "?0");
    assert_eq!(text_of_term(&Term::Var(1207)), "?1207");
    assert_eq!(text_of_term(&Term::Rigid(12, 340)), "!12_340");
    assert_eq!(text_of_term(&b(3)), "^3");
    assert_eq!(text_of_term(&c("")), r#""""#);
    assert_eq!(text_of_term(&f("f", vec![c("a"), f("g", vec![c("b")]), c("c")])), r#""f"("a", "g"("b"), "c")"#);
}

#[test]
fn text_of_bound_variables() {
    let mut names = String::new();
    write_term(
        &mut names,
        &f("t", vec![b(0), b(1), b(2), b(3), b(4)]),
        &vec![0, 25, 26, 27, 52 + 3],
    );
    assert_eq!(names, r#""t"(A, Z, A1, B1, D2)"#);
}

#[test]
fn text_of_goals() {
    let goal = every(
        2,
        some(1, both(atom("p", vec![b(0), b(1), b(2)]), every(0, atom("q", vec![b(2), b(1)])))),
    );
    assert_eq!(
        text_of_goal(&goal),
        r#"forall(A, B -> exists(C -> and("p"(C, A, B), forall( -> "q"(B, A)))))"#
    );
}

#[test]
fn text_of_clauses() {
    let show = |clause: &Clause| {
        let mut out = String::new();
        write_clause(&mut out, clause, &InferenceTable::new(), &Vec::new());
        out
    };
    assert_eq!(show(&fact(0, "p", vec![c("a")])), r#""p"("a")"#);
    assert_eq!(show(&fact(2, "p", vec![b(1), b(0)])), r#"forall(A, B -> "p"(B, A))"#);
    assert_eq!(
        show(&rule(0, atom("q", vec![]), "p", vec![])),
        r#"implies("q" => "p")"#
    );
    assert_eq!(
        show(&rule(1, both(atom("q", vec![b(0)]), atom("r", vec![b(0)])), "p", vec![b(0)])),
        r#"forall(A -> implies(and("q"(A), "r"(A)) => "p"(A)))"#
    );
}

#[test]
fn solution_fills_in_what_was_found() {
    // exists X, Y. p(X, Y) against p(A, s(A)): Y is known in terms of X.
    assert_eq!(
        dfs(
            vec![fact(1, "p", vec![b(0), f("s", vec![b(0)])])],
            some(2, atom("p", vec![b(0), b(1)]))
        ),
        vec![r#""p"(?0, "s"(?0))"#]
    );
}

#[test]
fn conjunction_order_matters_where_a_part_is_unbounded() {
    // nat(z). nat(s(X)) :- nat(X). equate(A, A).
    let clauses = || {
        vec![
            fact(0, "nat", vec![c("z")]),
            rule(1, atom("nat", vec![b(0)]), "nat", vec![f("s", vec![b(0)])]),
            equate(),
        ]
    };
    // With the number fixed first, there is one proof.
    assert_eq!(
        dfs(
            clauses(),
            some(1, both(atom("equate", vec![b(0), c("z")]), atom("nat", vec![b(0)])))
        ),
        vec![r#"and("equate"("z", "z"), "nat"("z"))"#]
    );
    // The numbers alone have no end within the depth limit.
    assert_eq!(
        dfs(
            clauses(),
            some(1, both(atom("nat", vec![b(0)]), atom("equate", vec![b(0), c("z")])))
        ),
        vec!["<<overflow>>"]
    );
}

#[test]
fn swapped_conjunctions_agree_on_facts() {
    let clauses = || {
        vec![
            fact(0, "small", vec![c("one")]),
            fact(0, "small", vec![c("two")]),
            fact(0, "small", vec![c("two")]),
            fact(0, "even", vec![c("two")]),
            fact(0, "odd", vec![c("three")]),
        ]
    };
    let ask = |first: &str, second: &str| {
        dfs(clauses(), some(1, both(atom(first, vec![b(0)]), atom(second, vec![b(0)]))))
    };
    // one answer for each pair of facts about one term, either way
    assert_eq!(
        ask("small", "even"),
        vec![r#"and("small"("two"), "even"("two"))"#, r#"and("small"("two"), "even"("two"))"#]
    );
    assert_eq!(
        ask("even", "small"),
        vec![r#"and("even"("two"), "small"("two"))"#, r#"and("even"("two"), "small"("two"))"#]
    );
    // nothing in common: no solution, either way
    assert!(ask("small", "odd").is_empty());
    assert!(ask("odd", "small").is_empty());
    // a single answer binds the same term, either way
    assert_eq!(ask("even", "even"), vec![r#"and("even"("two"), "even"("two"))"#]);
}
