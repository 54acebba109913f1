use chalk::environment::Environment;
use chalk::formula::{Application, Clause, Goal, Term};
use chalk::render::write_term;
use chalk::solve::{Solution, Solver};
use std::sync::Arc;

fn b(i: usize) -> Term {
    Term::Bound(i)
}

fn ty(name: &str) -> Term {
    Term::Apply(name.to_string(), vec![])
}

fn ty_of(name: &str, args: Vec<Term>) -> Term {
    Term::Apply(name.to_string(), args)
}

fn tuple(fields: Vec<Term>) -> Term {
    ty_of("Tuple", fields)
}

fn array(element: Term, len: &str) -> Term {
    ty_of("Array", vec![element, ty(len)])
}

fn slice(element: Term) -> Term {
    ty_of("Slice", vec![element])
}

// `dyn Trait + 'a`
fn object(principal: Term, lifetime: Term) -> Term {
    ty_of("Dyn", vec![principal, lifetime])
}

// `source: Unsize<target>`
fn unsize(source: Term, target: Term) -> Application {
    implemented(source, ty_of("Unsize", vec![target]))
}

// `ty: Trait`
fn implemented(ty: Term, trait_ref: Term) -> Application {
    Application { name: "Implemented".to_string(), args: vec![ty, trait_ref] }
}

fn fact(binders: usize, conclusion: Application) -> Clause {
    Clause { binders, condition: None, conclusion }
}

fn rule(binders: usize, condition: Goal, conclusion: Application) -> Clause {
    Clause { binders, condition: Some(condition), conclusion }
}

fn holds(app: Application) -> Goal {
    Goal::Apply(app)
}

fn both(l: Goal, r: Goal) -> Goal {
    Goal::And(Box::new(l), Box::new(r))
}

fn for_each(n: usize, goal: Goal) -> Goal {
    Goal::ForAll(n, Box::new(goal))
}

// T: Unsize<dyn Trait + 'a> :- T: Trait, T: Sized.
fn object_rule(principal: &str) -> Clause {
    rule(
        2,
        both(holds(implemented(b(0), ty(principal))), holds(implemented(b(0), ty("Sized")))),
        unsize(b(0), object(ty(principal), b(1))),
    )
}

// (A, T): Unsize<(A, U)> :- T: Unsize<U>.
fn pair_rule() -> Clause {
    rule(3, holds(unsize(b(1), b(2))), unsize(tuple(vec![b(0), b(1)]), tuple(vec![b(0), b(2)])))
}

// (A, B, T): Unsize<(A, B, U)> :- T: Unsize<U>.
fn triple_rule() -> Clause {
    rule(
        4,
        holds(unsize(b(2), b(3))),
        unsize(tuple(vec![b(0), b(1), b(2)]), tuple(vec![b(0), b(1), b(3)])),
    )
}

// [T; N]: Unsize<[T]>.
fn array_rule() -> Clause {
    fact(2, unsize(ty_of("Array", vec![b(0), b(1)]), slice(b(0))))
}

fn describe(result: Option<Solution>) -> String {
    match result {
        Some(Solution::Unique(witness)) => {
            let names: Vec<usize> = Vec::new();
            let mut bindings = String::new();
            for (i, value) in witness.iter().enumerate() {
                if i > 0 {
                    bindings.push_str(", ");
                }
                bindings.push_str(&format!("?{} := ", i));
                write_term(&mut bindings, value, &names);
            }
            format!("Unique; substitution [{}], lifetime constraints []", bindings)
        }
        Some(Solution::Ambiguous) => format!("Ambiguous; no inference guidance"),
        None => format!("No possible solution"),
    }
}

fn yields(program: &Arc<Environment>, goal: Goal, expected: &str) {
    let result = describe(Solver::decide(program, &goal));
    assert!(
        !expected.is_empty() && result.starts_with(expected),
        "expected {:?}, found {:?}",
        expected,
        result
    );
}

#[test]
fn tuple_unsizing() {
    // struct Foo {}
    // #[object_safe] trait Principal {}
    // #[object_safe] trait OtherPrincipal {}
    // impl Principal for Foo {}
    let program = Arc::new(Environment::new(
        None,
        vec![
            fact(0, implemented(ty("Foo"), ty("Principal"))),
            fact(0, implemented(ty("Foo"), ty("Sized"))),
            fact(0, implemented(ty("u32"), ty("Sized"))),
            fact(0, implemented(ty("u64"), ty("Sized"))),
            object_rule("Principal"),
            object_rule("OtherPrincipal"),
            pair_rule(),
            triple_rule(),
        ],
    ));

    // (): Unsize<()>
    yields(&program, holds(unsize(tuple(vec![]), tuple(vec![]))), "No possible solution");

    // (u32, u32): Unsize<(u32, u32)>
    yields(
        &program,
        holds(unsize(tuple(vec![ty("u32"), ty("u32")]), tuple(vec![ty("u32"), ty("u32")]))),
        "No possible solution",
    );

    // forall<'a> { (u32, Foo): Unsize<(u32, dyn Principal + 'a)> }
    yields(
        &program,
        for_each(
            1,
            holds(unsize(
                tuple(vec![ty("u32"), ty("Foo")]),
                tuple(vec![ty("u32"), object(ty("Principal"), b(0))]),
            )),
        ),
        "Unique; substitution [], lifetime constraints []",
    );

    // Last field does not implement `Unsize`
    yields(
        &program,
        for_each(
            1,
            holds(unsize(
                tuple(vec![ty("u32"), ty("Foo")]),
                tuple(vec![ty("u32"), object(ty("OtherPrincipal"), b(0))]),
            )),
        ),
        "No possible solution",
    );

    // Mismatch of head fields
    yields(
        &program,
        for_each(
            1,
            holds(unsize(
                tuple(vec![ty("u32"), ty("Foo")]),
                tuple(vec![ty("u64"), object(ty("Principal"), b(0))]),
            )),
        ),
        "No possible solution",
    );

    // Tuple length mismatch
    yields(
        &program,
        for_each(
            1,
            holds(unsize(
                tuple(vec![ty("u32"), ty("u32"), ty("Foo")]),
                tuple(vec![ty("u32"), object(ty("Principal"), b(0))]),
            )),
        ),
        "No possible solution",
    );

    // Multilevel tuple test
    yields(
        &program,
        for_each(
            1,
            holds(unsize(
                tuple(vec![ty("u32"), tuple(vec![ty("u32"), ty("Foo")])]),
                tuple(vec![ty("u32"), tuple(vec![ty("u32"), object(ty("Principal"), b(0))])]),
            )),
        ),
        "Unique; substitution [], lifetime constraints []",
    );
}

#[test]
fn array_unsizing() {
    // struct Foo<T> {}
    let program = Arc::new(Environment::new(None, vec![array_rule()]));

    // [Foo<u8>; 2]: Unsize<[Foo<u8>]>
    yields(
        &program,
        holds(unsize(
            array(ty_of("Foo", vec![ty("u8")]), "2"),
            slice(ty_of("Foo", vec![ty("u8")])),
        )),
        "Unique",
    );

    // [Foo<u8>; 5]: Unsize<[Foo<u16>]>
    yields(
        &program,
        holds(unsize(
            array(ty_of("Foo", vec![ty("u8")]), "5"),
            slice(ty_of("Foo", vec![ty("u16")])),
        )),
        "No possible solution",
    );
}

#[test]
fn struct_unsizing() {
    // struct Foo {}
    // struct Bar<T> {}
    // struct Baz<'a> {}
    // #[object_safe] trait Principal {}
    // #[object_safe] trait OtherPrincipal {}
    // impl Principal for Foo {}
    let program = Arc::new(Environment::new(
        None,
        vec![
            fact(0, implemented(ty("Foo"), ty("Principal"))),
            fact(0, implemented(ty("Foo"), ty("Sized"))),
            fact(0, implemented(ty("u32"), ty("Sized"))),
            object_rule("Principal"),
            object_rule("OtherPrincipal"),
            pair_rule(),
            array_rule(),
            // struct S1<T1> { t1: T1 }
            rule(
                2,
                holds(unsize(b(0), b(1))),
                unsize(ty_of("S1", vec![b(0)]), ty_of("S1", vec![b(1)])),
            ),
            // struct S12<T1, T2> where T1: Sized { t1: T1, t2: T2 }
            rule(
                3,
                holds(unsize(b(1), b(2))),
                unsize(ty_of("S12", vec![b(0), b(1)]), ty_of("S12", vec![b(0), b(2)])),
            ),
            // struct SParamsInMultipleFields<T> { t1: Bar<T>, t2: T }
            // has no rule: its last parameter occurs in a head field.
            //
            // struct SNested<T1, T2, T3> where T1: Sized, T2: Sized {
            //     t1: T1, t2: (T2, S1<T3>)
            // }
            rule(
                4,
                holds(unsize(
                    tuple(vec![b(1), ty_of("S1", vec![b(2)])]),
                    tuple(vec![b(1), ty_of("S1", vec![b(3)])]),
                )),
                unsize(
                    ty_of("SNested", vec![b(0), b(1), b(2)]),
                    ty_of("SNested", vec![b(0), b(1), b(3)]),
                ),
            ),
            // struct SBad<T1, T2> where T1: Sized { t1: Bar<S1<T2>>, t2: (T1, S1<T2>) }
            // has no rule either.
            //
            // struct SWithBinders<T3, T1> where T1: Sized {
            //     t1: T1, t2: for<'a> fn(dyn Principal + 'a), t3: T3
            // }
            rule(
                3,
                holds(unsize(b(0), b(1))),
                unsize(
                    ty_of("SWithBinders", vec![b(0), b(2)]),
                    ty_of("SWithBinders", vec![b(1), b(2)]),
                ),
            ),
            // struct SLifetime<'a, T> { t1: Baz<'a>, t2: S12<Baz<'a>, T> }
            rule(
                3,
                holds(unsize(
                    ty_of("S12", vec![ty_of("Baz", vec![b(0)]), b(1)]),
                    ty_of("S12", vec![ty_of("Baz", vec![b(0)]), b(2)]),
                )),
                unsize(
                    ty_of("SLifetime", vec![b(0), b(1)]),
                    ty_of("SLifetime", vec![b(0), b(2)]),
                ),
            ),
            // struct SConst<const N, T> { t: T }
            rule(
                3,
                holds(unsize(b(1), b(2))),
                unsize(ty_of("SConst", vec![b(0), b(1)]), ty_of("SConst", vec![b(0), b(2)])),
            ),
            // struct SGoodConst<const N, T> { t1: u32, t2: SConst<N, T> }
            rule(
                3,
                holds(unsize(
                    ty_of("SConst", vec![b(0), b(1)]),
                    ty_of("SConst", vec![b(0), b(2)]),
                )),
                unsize(
                    ty_of("SGoodConst", vec![b(0), b(1)]),
                    ty_of("SGoodConst", vec![b(0), b(2)]),
                ),
            ),
            // struct SBadConst<const N, T> { t1: [u32; N], t2: SConst<N, T> }
            // has no rule: `N` occurs in a head field.
        ],
    ));
    let principal = || object(ty("Principal"), b(0));

    // Single field struct tests
    yields(&program, holds(unsize(ty("Foo"), ty("Foo"))), "No possible solution");

    yields(
        &program,
        for_each(
            1,
            holds(unsize(ty_of("S1", vec![ty("Foo")]), ty_of("S1", vec![principal()]))),
        ),
        "Unique; substitution [], lifetime constraints []",
    );

    yields(
        &program,
        for_each(
            1,
            holds(unsize(
                ty_of("S1", vec![ty("Foo")]),
                ty_of("S1", vec![object(ty("OtherPrincipal"), b(0))]),
            )),
        ),
        "No possible solution",
    );

    // Unsizing parameter is used in head fields
    yields(
        &program,
        for_each(
            1,
            holds(unsize(
                ty_of("SParamsInMultipleFields", vec![ty("Foo")]),
                ty_of("SParamsInMultipleFields", vec![principal()]),
            )),
        ),
        "No possible solution",
    );

    // Two-field struct test
    yields(
        &program,
        for_each(
            1,
            holds(unsize(
                ty_of("S12", vec![ty("Foo"), ty("Foo")]),
                ty_of("S12", vec![ty("Foo"), principal()]),
            )),
        ),
        "Unique; substitution [], lifetime constraints []",
    );

    // Test for the unsizing parameters collector
    // (checking that it ignores the binder inside `SWithBinders`)
    yields(
        &program,
        for_each(
            1,
            holds(unsize(
                ty_of("SWithBinders", vec![ty("Foo"), ty("Foo")]),
                ty_of("SWithBinders", vec![principal(), ty("Foo")]),
            )),
        ),
        "Unique; substitution [], lifetime constraints []",
    );

    // Non-trivial unsizing of the last field
    yields(
        &program,
        for_each(
            1,
            holds(unsize(
                ty_of("SNested", vec![ty("Foo"), ty_of("Bar", vec![ty("Foo")]), ty("Foo")]),
                ty_of("SNested", vec![ty("Foo"), ty_of("Bar", vec![ty("Foo")]), principal()]),
            )),
        ),
        "Unique; substitution [], lifetime constraints []",
    );

    yields(
        &program,
        for_each(
            1,
            holds(unsize(
                ty_of("SBad", vec![ty("Foo"), ty("Foo")]),
                ty_of("SBad", vec![ty("Foo"), principal()]),
            )),
        ),
        "No possible solution",
    );

    // Check that lifetimes can't be used as unsizing parameters
    yields(
        &program,
        for_each(
            1,
            holds(unsize(
                ty_of("SLifetime", vec![b(0), ty("Foo")]),
                ty_of("SLifetime", vec![b(0), principal()]),
            )),
        ),
        "Unique; substitution [], lifetime constraints []",
    );

    // Tests with constant as an unsizing parameter
    yields(
        &program,
        holds(unsize(
            ty_of("SGoodConst", vec![ty("5"), array(ty("u32"), "2")]),
            ty_of("SGoodConst", vec![ty("5"), slice(ty("u32"))]),
        )),
        "Unique; substitution [], lifetime constraints []",
    );

    // Target does not match source
    yields(
        &program,
        holds(unsize(
            ty_of("SGoodConst", vec![ty("4"), array(ty("u32"), "2")]),
            ty_of("SGoodConst", vec![ty("5"), slice(ty("u32"))]),
        )),
        "No possible solution",
    );

    // Unsizing parameter is used in head fields
    yields(
        &program,
        holds(unsize(
            ty_of("SBadConst", vec![ty("5"), array(ty("u32"), "2")]),
            ty_of("SBadConst", vec![ty("5"), slice(ty("u32"))]),
        )),
        "No possible solution",
    );
}
