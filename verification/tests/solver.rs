use chalk::environment::Environment;
use chalk::formula::{Application, Clause, Goal, Term};
use chalk::solve::{Solver, Strategy};
use std::sync::Arc;

fn bound(i: usize) -> Term {
    Term::Bound(i)
}

fn con(name: &str, args: Vec<Term>) -> Term {
    Term::Apply(name.to_string(), args)
}

fn app(name: &str, args: Vec<Term>) -> Application {
    Application { name: name.to_string(), args }
}

fn atom(name: &str, args: Vec<Term>) -> Goal {
    Goal::Apply(app(name, args))
}

fn and(l: Goal, r: Goal) -> Goal {
    Goal::And(Box::new(l), Box::new(r))
}

fn implies(c: Clause, g: Goal) -> Goal {
    Goal::Implies(Box::new(c), Box::new(g))
}

fn for_all(n: usize, g: Goal) -> Goal {
    Goal::ForAll(n, Box::new(g))
}

fn there_is(n: usize, g: Goal) -> Goal {
    Goal::Exists(n, Box::new(g))
}

fn fact(binders: usize, name: &str, args: Vec<Term>) -> Clause {
    Clause { binders, condition: None, conclusion: app(name, args) }
}

fn rule(binders: usize, condition: Goal, name: &str, args: Vec<Term>) -> Clause {
    Clause { binders, condition: Some(condition), conclusion: app(name, args) }
}

fn copy_goal(goal: &Goal) -> Goal {
    goal.duplicate()
}

fn copy_clauses(clauses: &Vec<Clause>) -> Vec<Clause> {
    clauses.iter().map(|c| c.duplicate()).collect()
}

fn solve_all(clauses: Vec<Clause>, goal: Goal, expected_solutions: Vec<&str>) {
    solve_dfs(copy_clauses(&clauses), copy_goal(&goal), expected_solutions.clone());
    solve_rust(clauses, goal, expected_solutions);
}

fn solve_dfs(clauses: Vec<Clause>, goal: Goal, expected_solutions: Vec<&str>) {
    solve(Strategy::DepthFirstSearch, clauses, goal, expected_solutions)
}

fn solve_rust(clauses: Vec<Clause>, goal: Goal, expected_solutions: Vec<&str>) {
    solve(Strategy::Rust, clauses, goal, expected_solutions)
}

fn solve(strategy: Strategy, clauses: Vec<Clause>, goal: Goal, expected_solutions: Vec<&str>) {
    let root_environment = Arc::new(Environment::new(None, clauses));
    let solutions = Solver::solve(root_environment, goal, strategy);
    assert_eq!(expected_solutions, solutions);
}

#[test]
fn simple_fail() {
    solve_all(vec![], there_is(1, atom("foo", vec![bound(0)])), vec![]);
}

#[test]
fn forall_in_clause() {
    solve_all(
        vec![],
        there_is(1, implies(fact(1, "foo", vec![bound(0)]), atom("foo", vec![bound(0)]))),
        vec![r#"implies(forall(A -> "foo"(A)) => "foo"(?0))"#],
    );
}

#[test]
fn one_clause() {
    solve_all(
        vec![],
        there_is(1, implies(fact(0, "foo", vec![con("bar", vec![])]), atom("foo", vec![bound(0)]))),
        vec![r#"implies("foo"("bar") => "foo"("bar"))"#],
    );
}

fn two_facts() -> Vec<Clause> {
    vec![
        fact(0, "foo", vec![con("bar", vec![])]),
        fact(0, "foo", vec![con("baz", vec![])]),
    ]
}

#[test]
fn two_clause_in_env() {
    solve_dfs(
        two_facts(),
        there_is(1, atom("foo", vec![bound(0)])),
        vec![r#""foo"("bar")"#, r#""foo"("baz")"#],
    );

    solve_rust(two_facts(), there_is(1, atom("foo", vec![bound(0)])), vec![r#"<<ambiguous>>"#]);

    solve_rust(two_facts(), atom("foo", vec![con("bar", vec![])]), vec![r#""foo"("bar")"#]);
}

fn family() -> Vec<Clause> {
    vec![
        fact(0, "parent", vec![con("n", vec![]), con("d", vec![])]),
        fact(0, "parent", vec![con("c", vec![]), con("n", vec![])]),
        // ancestor(A, B) :- parent(A, B).
        rule(
            2,
            atom("parent", vec![bound(0), bound(1)]),
            "ancestor",
            vec![bound(0), bound(1)],
        ),
        // ancestor(A, C) :- parent(A, B), ancestor(B, C).
        rule(
            3,
            and(
                atom("parent", vec![bound(0), bound(1)]),
                atom("ancestor", vec![bound(1), bound(2)]),
            ),
            "ancestor",
            vec![bound(0), bound(2)],
        ),
    ]
}

#[test]
fn enumerate_ancestors() {
    solve_dfs(
        family(),
        there_is(1, atom("ancestor", vec![bound(0), con("d", vec![])])),
        vec![r#""ancestor"("n", "d")"#, r#""ancestor"("c", "d")"#],
    );
}

#[test]
fn enumerate_ancestors_rust() {
    solve_rust(
        family(),
        there_is(1, atom("ancestor", vec![bound(0), con("d", vec![])])),
        vec![r#"<<ambiguous>>"#],
    );
}

#[test]
fn forall_fails() {
    solve_all(two_facts(), for_all(1, atom("foo", vec![bound(0)])), vec![]);
}

#[test]
fn for_all_clause_for_all_goal() {
    solve_all(
        vec![fact(1, "foo", vec![bound(0)])],
        for_all(1, atom("foo", vec![bound(0)])),
        vec![r#"forall(A -> "foo"(A))"#],
    );
}

#[test]
fn recursive() {
    // foo X :- foo X.
    //
    // Fails to prove `foo A`
    solve_all(
        vec![rule(1, atom("foo", vec![bound(0)]), "foo", vec![bound(0)])],
        for_all(1, atom("foo", vec![bound(0)])),
        vec!["<<overflow>>"],
    )
}

#[test]
fn simple_impl() {
    solve_all(
        vec![
            // Copy implementedFor: i32
            fact(0, "implementedFor", vec![con("Copy", vec![]), con("i32", vec![])]),
            // Copy implementedFor: u32
            fact(0, "implementedFor", vec![con("Copy", vec![]), con("u32", vec![])]),
            // Copy implementedFor: Vec[?T] :- Copy implementedFor: ?T.
            rule(
                1,
                atom("implementedFor", vec![con("Copy", vec![]), bound(0)]),
                "implementedFor",
                vec![con("Copy", vec![]), con("Vec", vec![bound(0)])],
            ),
        ],
        atom("implementedFor", vec![con("Copy", vec![]), con("Vec", vec![con("i32", vec![])])]),
        vec![r#""implementedFor"("Copy", "Vec"("i32"))"#],
    );
}

#[test]
fn conditional_impl() {
    let clauses = || {
        vec![
            // Copy implementedFor: i32
            fact(0, "implementedFor", vec![con("Copy", vec![]), con("i32", vec![])]),
            // Copy implementedFor: u32
            fact(0, "implementedFor", vec![con("Copy", vec![]), con("u32", vec![])]),
            // Trait implementedFor: Vec[?T] :- Copy implementedFor: ?T.
            rule(
                1,
                atom("implementedFor", vec![con("Copy", vec![]), bound(0)]),
                "implementedFor",
                vec![con("Trait", vec![]), con("Vec", vec![bound(0)])],
            ),
            // Trait implementedFor: Vec[String].
            //
            // Key point: `String: Copy` does not hold.
            fact(
                0,
                "implementedFor",
                vec![con("Trait", vec![]), con("Vec", vec![con("String", vec![])])],
            ),
            // equate(A, A).
            fact(1, "equate", vec![bound(0), bound(0)]),
        ]
    };

    solve_all(
        clauses(),
        atom("implementedFor", vec![con("Trait", vec![]), con("Vec", vec![con("i32", vec![])])]),
        vec![r#""implementedFor"("Trait", "Vec"("i32"))"#],
    );

    solve_all(
        clauses(),
        atom(
            "implementedFor",
            vec![con("Trait", vec![]), con("Vec", vec![con("String", vec![])])],
        ),
        vec![r#""implementedFor"("Trait", "Vec"("String"))"#],
    );

    // if asked to solve `Trait implementedFor: Vec[?A]`, we fail to infer what `?A` is.
    solve_rust(
        clauses(),
        there_is(
            1,
            atom("implementedFor", vec![con("Trait", vec![]), con("Vec", vec![bound(0)])]),
        ),
        vec![r#"<<ambiguous>>"#],
    );

    // In these two variations, the second rule, `equate(?0, i32)`,
    // allows us to eventually solve the first
    solve_all(
        clauses(),
        there_is(
            1,
            and(
                atom("implementedFor", vec![con("Trait", vec![]), con("Vec", vec![bound(0)])]),
                atom("equate", vec![bound(0), con("i32", vec![])]),
            ),
        ),
        vec![r#"and("implementedFor"("Trait", "Vec"("i32")), "equate"("i32", "i32"))"#],
    );
    solve_all(
        clauses(),
        there_is(
            1,
            and(
                atom("equate", vec![bound(0), con("i32", vec![])]),
                atom("implementedFor", vec![con("Trait", vec![]), con("Vec", vec![bound(0)])]),
            ),
        ),
        vec![r#"and("equate"("i32", "i32"), "implementedFor"("Trait", "Vec"("i32")))"#],
    );
}
