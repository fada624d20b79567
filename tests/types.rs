use value_core::types::Type;

fn tuple(ts: Vec<Type>) -> Type {
    Type::Tuple(ts)
}

#[test]
fn any_accepts_everything() {
    for t in [Type::Int, Type::Undefined, tuple(vec![]), Type::Union(vec![]), Type::Scission(vec![Type::Int])] {
        assert!(Type::Any.matches(&t));
    }
}

#[test]
fn primitives_accept_themselves_and_any() {
    let all = vec![
        Type::Undefined,
        Type::Int,
        Type::Float,
        Type::Bool,
        Type::String,
        Type::Object,
        Type::Proc,
        Type::ForeignProc,
        Type::Type,
    ];
    for (i, a) in all.iter().enumerate() {
        assert!(a.matches(&Type::Any));
        for (j, b) in all.iter().enumerate() {
            assert_eq!(a.matches(b), i == j, "{a:?} {b:?}");
        }
    }
}

#[test]
fn tuples_and_vectors() {
    assert!(tuple(vec![Type::Int, Type::Any]).matches(&tuple(vec![Type::Int, Type::Bool])));
    assert!(!tuple(vec![Type::Int]).matches(&tuple(vec![Type::Int, Type::Bool])));
    assert!(!tuple(vec![Type::Int, Type::Bool]).matches(&tuple(vec![Type::Int, Type::Int])));
    assert!(!tuple(vec![]).matches(&Type::Int));
    let vi = Type::Vector(Box::new(Type::Int));
    assert!(vi.matches(&Type::Vector(Box::new(Type::Int))));
    assert!(!vi.matches(&Type::Vector(Box::new(Type::String))));
    assert!(!vi.matches(&Type::Int));
}

#[test]
fn union_semantics() {
    let u = Type::Union(vec![Type::Int, Type::String]);
    assert!(u.matches(&Type::Int));
    assert!(!u.matches(&Type::Bool));
    assert!(Type::Int.matches(&u));
    assert!(!Type::Bool.matches(&u));
    assert!(u.matches(&Type::Any));
    assert!(!Type::Union(vec![]).matches(&Type::Int));
}

#[test]
fn scission_semantics() {
    let s = Type::Scission(vec![Type::Int, Type::String]);
    assert!(s.matches(&Type::Bool));
    assert!(!s.matches(&Type::Int));
    assert!(Type::Bool.matches(&s));
    assert!(!Type::String.matches(&s));
    assert!(Type::Scission(vec![]).matches(&Type::Int));
}

#[test]
fn union_scission_disjointness() {
    assert!(!Type::Union(vec![Type::Int]).matches(&Type::Scission(vec![Type::Int])));
    assert!(Type::Union(vec![Type::Int]).matches(&Type::Scission(vec![Type::String])));
    assert!(!Type::Scission(vec![Type::Int]).matches(&Type::Union(vec![Type::Int])));
    assert!(Type::Scission(vec![Type::Int]).matches(&Type::Union(vec![Type::String])));
}

#[test]
fn subset_tests_are_directional() {
    let small = Type::Union(vec![Type::Int]);
    let large = Type::Union(vec![Type::Int, Type::String]);
    assert!(small.matches(&large));
    assert!(!large.matches(&small));
    let s_small = Type::Scission(vec![Type::Int]);
    let s_large = Type::Scission(vec![Type::Int, Type::String]);
    assert!(s_small.matches(&s_large));
    assert!(!s_large.matches(&s_small));
}

#[test]
fn create_union_drops_accepted_candidates() {
    match Type::create_union(vec![Type::Int, Type::Int, Type::Float]) {
        Type::Union(ms) => {
            assert_eq!(ms.len(), 2);
            assert!(matches!(ms[0], Type::Int));
            assert!(matches!(ms[1], Type::Float));
        }
        other => panic!("{other:?}"),
    }
    match Type::create_union(vec![]) {
        Type::Union(ms) => assert!(ms.is_empty()),
        other => panic!("{other:?}"),
    }
}

#[test]
fn create_union_any_absorbs_later_candidates() {
    match Type::create_union(vec![Type::Any, Type::Int]) {
        Type::Union(ms) => {
            assert_eq!(ms.len(), 1);
            assert!(matches!(ms[0], Type::Any));
        }
        other => panic!("{other:?}"),
    }
    match Type::create_union(vec![Type::Int, Type::Any, Type::Bool]) {
        Type::Union(ms) => {
            assert_eq!(ms.len(), 2);
            assert!(matches!(ms[0], Type::Int));
            assert!(matches!(ms[1], Type::Bool));
        }
        other => panic!("{other:?}"),
    }
}

#[test]
fn clone_keeps_the_tree() {
    let t = Type::Union(vec![tuple(vec![Type::Int, Type::Vector(Box::new(Type::Bool))]), Type::Scission(vec![])]);
    let c = t.clone();
    assert!(t.matches(&c));
    assert!(c.matches(&t));
    assert_eq!(format!("{t:?}"), format!("{c:?}"));
}

#[test]
fn describe_types() {
    assert_eq!(Type::Int.describe(), "int");
    assert_eq!(Type::String.describe(), "str");
    assert_eq!(Type::Undefined.describe(), "undefined");
    assert_eq!(Type::ForeignProc.describe(), "foreign-proc");
    assert_eq!(Type::Vector(Box::new(Type::Int)).describe(), "vec");
    assert_eq!(tuple(vec![Type::Int, Type::Bool]).describe(), "(int, bool)");
    assert_eq!(tuple(vec![]).describe(), "()");
    assert_eq!(Type::Union(vec![Type::Int, Type::String]).describe(), "union[int|str]");
    assert_eq!(Type::Scission(vec![]).describe(), "scission[]");
    assert_eq!(
        Type::Union(vec![tuple(vec![Type::Any]), Type::Scission(vec![Type::Type, Type::Object])]).describe(),
        "union[(any)|scission[type|obj]]"
    );
}
