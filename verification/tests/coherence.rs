use chalk::coherence::orphan::perform_orphan_check;
use chalk::coherence::{
    CoherenceError, ImplDatum, ImplId, PolarizedTraitRef, Program, TraitId, TraitRef,
};
use chalk::environment::Environment;
use chalk::forest::{is_forest, specialization_depths};
use chalk::formula::{Application, Clause, Term};
use chalk::solve::Strategy;
use std::sync::Arc;

fn ty(name: &str, args: Vec<Term>) -> Term {
    Term::Apply(name.to_string(), args)
}

fn impl_of(trait_id: usize, binders: usize, parameters: Vec<Term>) -> ImplDatum {
    ImplDatum {
        binders,
        trait_ref: PolarizedTraitRef::Positive(TraitRef { trait_id: TraitId(trait_id), parameters }),
        where_clauses: vec![],
        specialization_priority: 0,
    }
}

fn program(impl_data: Vec<ImplDatum>, trait_names: Vec<&str>, clauses: Vec<Clause>) -> Program {
    Program {
        impl_data,
        trait_names: trait_names.into_iter().map(|n| n.to_string()).collect(),
        environment: Arc::new(Environment::new(None, clauses)),
    }
}

fn priorities(program: &Program) -> Vec<usize> {
    program.impl_data.iter().map(|d| d.specialization_priority).collect()
}

// impl<T> Foo for T, impl<T> Foo for Vec<T>, impl Foo for Vec<i32>
fn three_impls() -> Program {
    program(
        vec![
            impl_of(0, 1, vec![Term::Bound(0)]),
            impl_of(0, 1, vec![ty("Vec", vec![Term::Bound(0)])]),
            impl_of(0, 0, vec![ty("Vec", vec![ty("i32", vec![])])]),
        ],
        vec!["Foo"],
        vec![],
    )
}

#[test]
fn chain_of_specializations() {
    let mut p = three_impls();
    p.set_priorities(&vec![(0, 1), (1, 2)]);
    assert_eq!(priorities(&p), vec![0, 1, 2]);
}

#[test]
fn chain_given_from_the_leaf() {
    let mut p = three_impls();
    p.set_priorities(&vec![(1, 2), (0, 1)]);
    assert_eq!(priorities(&p), vec![0, 1, 2]);
}

#[test]
fn impls_without_edges_get_priority_zero() {
    let mut p = three_impls();
    p.impl_data[0].specialization_priority = 3;
    p.impl_data[1].specialization_priority = 1;
    p.set_priorities(&vec![]);
    assert_eq!(priorities(&p), vec![0, 0, 0]);
}

#[test]
fn impl_outside_the_forest_gets_priority_zero() {
    let mut p = three_impls();
    p.impl_data[2].specialization_priority = 7;
    p.set_priorities(&vec![(0, 1)]);
    assert_eq!(priorities(&p), vec![0, 1, 0]);
}

#[test]
fn old_priorities_do_not_survive() {
    // impl Foo for i32, impl Foo for u32: disjoint, whatever was noted before.
    let mut p = program(
        vec![impl_of(0, 0, vec![ty("i32", vec![])]), impl_of(0, 0, vec![ty("u32", vec![])])],
        vec!["Foo"],
        vec![],
    );
    p.impl_data[0].specialization_priority = 7;
    p.impl_data[1].specialization_priority = 9;
    assert!(record(&mut p, Strategy::Rust).is_ok());
    assert_eq!(priorities(&p), vec![0, 0]);
    // and a chain is counted from 0 again
    let mut p = three_impls();
    p.impl_data[0].specialization_priority = 4;
    p.impl_data[1].specialization_priority = 4;
    p.impl_data[2].specialization_priority = 4;
    assert!(record(&mut p, Strategy::DepthFirstSearch).is_ok());
    assert_eq!(priorities(&p), vec![0, 1, 2]);
}

#[test]
fn deepest_parent_decides() {
    // 0 -> 1 -> 2 and the shortcut 0 -> 2, in every order of the edges.
    let orders: Vec<Vec<(usize, usize)>> = vec![
        vec![(0, 1), (0, 2), (1, 2)],
        vec![(0, 2), (0, 1), (1, 2)],
        vec![(1, 2), (0, 2), (0, 1)],
        vec![(1, 2), (0, 1), (0, 2)],
    ];
    for edges in orders {
        let mut p = three_impls();
        p.set_priorities(&edges);
        assert_eq!(priorities(&p), vec![0, 1, 2]);
    }
}

#[test]
fn repeated_edges_count_once() {
    let mut p = three_impls();
    p.set_priorities(&vec![(0, 1), (0, 1), (1, 2), (0, 1)]);
    assert_eq!(priorities(&p), vec![0, 1, 2]);
}

#[test]
fn two_trees() {
    // 0 -> 1, 0 -> 2, 3 -> 4 -> 5; 6 stands alone.
    let depths = specialization_depths(7, &vec![(3, 4), (0, 1), (4, 5), (0, 2)]);
    assert_eq!(
        depths,
        vec![Some(0), Some(1), Some(1), Some(0), Some(1), Some(2), None]
    );
}

fn allowed(binders: usize, subject: Term) -> Clause {
    Clause {
        binders,
        condition: None,
        conclusion: Application { name: "LocalImplAllowed".to_string(), args: vec![subject] },
    }
}

#[test]
fn local_impl_of_local_trait_passes() {
    // trait Foo {}  struct Bar {}  impl Foo for Bar {}
    // A local trait may be implemented for every type.
    let p = program(
        vec![impl_of(0, 0, vec![ty("Bar", vec![])])],
        vec!["Foo"],
        vec![allowed(1, ty("Foo", vec![Term::Bound(0)]))],
    );
    assert!(perform_orphan_check(&p, ImplId(0)).is_ok());
}

#[test]
fn generic_local_impl_passes() {
    // impl<T> Foo for Vec<T> {}
    let p = program(
        vec![impl_of(0, 1, vec![ty("Vec", vec![Term::Bound(0)])])],
        vec!["Foo"],
        vec![allowed(1, ty("Foo", vec![Term::Bound(0)]))],
    );
    assert!(perform_orphan_check(&p, ImplId(0)).is_ok());
}

#[test]
fn negative_impl_is_checked_like_a_positive_one() {
    let mut datum = impl_of(0, 0, vec![ty("Bar", vec![])]);
    datum.trait_ref = PolarizedTraitRef::Negative(TraitRef {
        trait_id: TraitId(0),
        parameters: vec![ty("Bar", vec![])],
    });
    let p = program(vec![datum], vec!["Foo"], vec![allowed(1, ty("Foo", vec![Term::Bound(0)]))]);
    assert!(perform_orphan_check(&p, ImplId(0)).is_ok());
}

#[test]
fn upstream_trait_for_upstream_type_fails() {
    // #[upstream] trait Remote {}  #[upstream] struct Far {}  struct Near {}
    // impl Remote for Far {}: only `Remote for Near` is allowed here.
    let p = program(
        vec![impl_of(1, 0, vec![ty("Far", vec![])]), impl_of(1, 0, vec![ty("Near", vec![])])],
        vec!["Foo", "Remote"],
        vec![
            allowed(1, ty("Foo", vec![Term::Bound(0)])),
            allowed(0, ty("Remote", vec![ty("Near", vec![])])),
        ],
    );
    match perform_orphan_check(&p, ImplId(0)) {
        Err(CoherenceError::FailedOrphanCheck(name)) => assert_eq!(name, "Remote"),
        _ => panic!("the impl must fail the orphan check"),
    }
    assert!(perform_orphan_check(&p, ImplId(1)).is_ok());
}

#[test]
fn blanket_impl_of_upstream_trait_fails() {
    // impl<T> Remote for T {} is allowed for `Near` alone, so not for all `T`.
    let p = program(
        vec![impl_of(0, 1, vec![Term::Bound(0)])],
        vec!["Remote"],
        vec![allowed(0, ty("Remote", vec![ty("Near", vec![])]))],
    );
    match perform_orphan_check(&p, ImplId(0)) {
        Err(e) => {
            assert_eq!(e.message(), "impl for trait \"Remote\" violates the orphan rules")
        }
        Ok(()) => panic!("the impl must fail the orphan check"),
    }
}

#[test]
fn ambiguous_answer_fails_the_orphan_check() {
    // Two clauses allow the impl: the goal has two proofs, not one.
    let p = program(
        vec![impl_of(0, 0, vec![ty("Bar", vec![])])],
        vec!["Foo"],
        vec![
            allowed(1, ty("Foo", vec![Term::Bound(0)])),
            allowed(0, ty("Foo", vec![ty("Bar", vec![])])),
        ],
    );
    match perform_orphan_check(&p, ImplId(0)) {
        Err(CoherenceError::FailedOrphanCheck(name)) => assert_eq!(name, "Foo"),
        _ => panic!("the impl must fail the orphan check"),
    }
}

#[test]
fn overlap_message() {
    let e = CoherenceError::OverlappingImpls("Foo".to_string());
    assert_eq!(e.message(), "overlapping impls of trait \"Foo\"");
}

fn record(program: &mut Program, strategy: Strategy) -> Result<(), CoherenceError> {
    let env = program.environment.clone();
    program.record_specialization_priorities(env, strategy)
}

#[test]
fn specialization_priorities_follow_the_chain() {
    // impl<T> Foo for T, impl<T> Foo for Vec<T>, impl Foo for Vec<i32>
    for strategy in [Strategy::DepthFirstSearch, Strategy::Rust] {
        let mut p = three_impls();
        let forest = match p.build_specialization_forest(&p.environment, strategy) {
            Ok(forest) => forest,
            Err(_) => panic!("the impls are ordered"),
        };
        assert_eq!(forest, vec![(0, 1), (0, 2), (1, 2)]);
        assert!(record(&mut p, strategy).is_ok());
        assert_eq!(priorities(&p), vec![0, 1, 2]);
    }
}

#[test]
fn specialization_is_found_in_either_order() {
    // impl Foo for Vec<i32>, impl<T> Foo for T
    let mut p = program(
        vec![
            impl_of(0, 0, vec![ty("Vec", vec![ty("i32", vec![])])]),
            impl_of(0, 1, vec![Term::Bound(0)]),
        ],
        vec!["Foo"],
        vec![],
    );
    assert!(record(&mut p, Strategy::Rust).is_ok());
    assert_eq!(priorities(&p), vec![1, 0]);
}

#[test]
fn disjoint_impls_get_priority_zero() {
    // impl Foo for i32, impl Foo for u32
    let mut p = program(
        vec![impl_of(0, 0, vec![ty("i32", vec![])]), impl_of(0, 0, vec![ty("u32", vec![])])],
        vec!["Foo"],
        vec![],
    );
    assert!(record(&mut p, Strategy::Rust).is_ok());
    assert_eq!(priorities(&p), vec![0, 0]);
}

#[test]
fn impls_of_different_traits_are_unrelated() {
    // impl<T> Foo for T, impl Bar for i32
    let mut p = program(
        vec![impl_of(0, 1, vec![Term::Bound(0)]), impl_of(1, 0, vec![ty("i32", vec![])])],
        vec!["Foo", "Bar"],
        vec![],
    );
    assert!(record(&mut p, Strategy::Rust).is_ok());
    assert_eq!(priorities(&p), vec![0, 0]);
}

#[test]
fn overlap_without_order_is_an_error() {
    // impl<T> Foo for (T, i32), impl<T> Foo for (i32, T)
    let mut p = program(
        vec![
            impl_of(0, 1, vec![ty("Tuple", vec![Term::Bound(0), ty("i32", vec![])])]),
            impl_of(0, 1, vec![ty("Tuple", vec![ty("i32", vec![]), Term::Bound(0)])]),
        ],
        vec!["Foo"],
        vec![],
    );
    match record(&mut p, Strategy::Rust) {
        Err(CoherenceError::OverlappingImpls(name)) => assert_eq!(name, "Foo"),
        _ => panic!("the impls overlap without an order"),
    }
    assert_eq!(priorities(&p), vec![0, 0]);
}

#[test]
fn identical_impls_are_an_error() {
    // impl<T> Foo for T, twice
    let mut p = program(
        vec![impl_of(0, 1, vec![Term::Bound(0)]), impl_of(0, 1, vec![Term::Bound(0)])],
        vec!["Foo"],
        vec![],
    );
    match record(&mut p, Strategy::DepthFirstSearch) {
        Err(e) => assert_eq!(e.message(), "overlapping impls of trait \"Foo\""),
        Ok(()) => panic!("the impls overlap without an order"),
    }
}

#[test]
fn two_negative_impls_never_overlap() {
    let deny = |parameters: Vec<Term>| ImplDatum {
        binders: 1,
        trait_ref: PolarizedTraitRef::Negative(TraitRef { trait_id: TraitId(0), parameters }),
        where_clauses: vec![],
        specialization_priority: 0,
    };
    let mut p = program(
        vec![deny(vec![Term::Bound(0)]), deny(vec![Term::Bound(0)])],
        vec!["Foo"],
        vec![],
    );
    assert!(record(&mut p, Strategy::Rust).is_ok());
    assert_eq!(priorities(&p), vec![0, 0]);
}

fn copy(subject: Term) -> Application {
    Application { name: "Copy".to_string(), args: vec![subject] }
}

#[test]
fn where_clauses_decide_the_overlap() {
    // impl<T> Foo for T where T: Copy, impl Foo for String, impl Foo for i32;
    // `i32: Copy` holds, `String: Copy` does not.
    let mut bounded = impl_of(0, 1, vec![Term::Bound(0)]);
    bounded.where_clauses = vec![copy(Term::Bound(0))];
    let mut p = program(
        vec![
            bounded,
            impl_of(0, 0, vec![ty("String", vec![])]),
            impl_of(0, 0, vec![ty("i32", vec![])]),
        ],
        vec!["Foo"],
        vec![Clause { binders: 0, condition: None, conclusion: copy(ty("i32", vec![])) }],
    );
    let forest = match p.build_specialization_forest(&p.environment, Strategy::Rust) {
        Ok(forest) => forest,
        Err(_) => panic!("the impls are ordered"),
    };
    assert_eq!(forest, vec![(0, 2)]);
    assert!(record(&mut p, Strategy::Rust).is_ok());
    assert_eq!(priorities(&p), vec![0, 0, 1]);
}

#[test]
fn forests_are_told_from_cycles() {
    assert!(is_forest(0, &vec![]));
    assert!(is_forest(3, &vec![]));
    assert!(is_forest(3, &vec![(0, 1), (1, 2)]));
    assert!(is_forest(3, &vec![(0, 1), (0, 2), (1, 2)]));
    assert!(is_forest(4, &vec![(2, 3), (1, 2), (0, 1), (0, 3)]));
    // a loop on one impl, a cycle of two, a cycle of three behind a root
    assert!(!is_forest(1, &vec![(0, 0)]));
    assert!(!is_forest(2, &vec![(0, 1), (1, 0)]));
    assert!(!is_forest(4, &vec![(0, 1), (1, 2), (2, 3), (3, 1)]));
    // an end that is no impl
    assert!(!is_forest(2, &vec![(0, 2)]));
}
