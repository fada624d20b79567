use value_core::float::{int_equals_float, Float64};
use value_core::types::Type;
use value_core::value::{BodyId, NativeId, V};

fn float(x: f64) -> V {
    V::Float(Float64::from_bits(x.to_bits()))
}

fn string(s: &str) -> V {
    V::String(s.to_string())
}

fn all_kinds() -> Vec<V> {
    vec![
        V::Wildcard,
        V::Null,
        V::Int(7),
        float(1.5),
        V::Bool(true),
        string("x"),
        V::Tuple(vec![V::Int(1)]),
        V::Vector(vec![V::Int(1)], Type::Int),
        V::Object(vec![("k".to_string(), V::Int(1))]),
        V::Proc(vec![("a".to_string(), None)], BodyId { id: 1 }),
        V::ForeignProc(vec![], NativeId { id: 2 }),
        V::Type(Type::Int),
    ]
}

#[test]
fn wildcard_pattern_matches_everything() {
    for v in all_kinds() {
        assert!(V::Wildcard.matches(&v));
    }
}

#[test]
fn wildcard_subject_is_not_universal() {
    assert!(!V::Tuple(vec![V::Int(1)]).matches(&V::Wildcard));
    assert!(V::Int(1).matches(&V::Wildcard));
    assert!(V::Null.matches(&V::Wildcard));
    assert!(float(0.5).matches(&V::Wildcard));
    assert!(V::Bool(false).matches(&V::Wildcard));
    assert!(string("s").matches(&V::Wildcard));
    assert!(!V::Vector(vec![], Type::Int).matches(&V::Wildcard));
    assert!(!V::Object(vec![]).matches(&V::Wildcard));
    assert!(!V::Proc(vec![], BodyId { id: 1 }).matches(&V::Wildcard));
    assert!(!V::ForeignProc(vec![], NativeId { id: 1 }).matches(&V::Wildcard));
    assert!(!V::Type(Type::Any).matches(&V::Wildcard));
}

#[test]
fn null_matches_null_only() {
    assert!(V::Null.matches(&V::Null));
    assert!(!V::Null.matches(&V::Int(0)));
    assert!(!V::Int(0).matches(&V::Null));
}

#[test]
fn numeric_coercion() {
    assert!(V::Int(2).matches(&float(2.0)));
    assert!(float(2.0).matches(&V::Int(2)));
    assert!(!V::Int(2).matches(&float(2.5)));
    assert!(!float(2.5).matches(&V::Int(2)));
    assert!(V::Int(-3).matches(&float(-3.0)));
    assert!(!V::Int(-3).matches(&float(3.0)));
    assert!(V::Int(0).matches(&float(-0.0)));
    assert!(V::Int(0).matches(&float(0.0)));
    assert!(!V::Int(0).matches(&float(f64::NAN)));
    assert!(!V::Int(1).matches(&float(f64::INFINITY)));
}

#[test]
fn integer_conversion_rounds_like_a_cast() {
    let samples: Vec<i64> = vec![
        0,
        1,
        -1,
        1 << 52,
        (1 << 53) - 1,
        1 << 53,
        (1 << 53) + 1,
        (1 << 53) + 2,
        (1 << 53) + 3,
        -((1 << 53) + 1),
        (1 << 54) + 2,
        (1 << 54) + 6,
        123_456_789_012_345_678,
        -987_654_321_098_765_432,
        i64::MAX,
        i64::MIN,
        i64::MIN + 1,
    ];
    for n in samples {
        let f = n as f64;
        assert!(int_equals_float(n, Float64::from_bits(f.to_bits())), "{n}");
        assert!(V::Int(n).matches(&float(f)));
        assert!(float(f).matches(&V::Int(n)));
        let above = f64::from_bits(f.to_bits() + 1);
        if f != 0.0 {
            assert!(!V::Int(n).matches(&float(above)), "{n}");
        }
    }
    assert!(V::Int(i64::MAX).matches(&float(9_223_372_036_854_775_808.0)));
    assert!(V::Int((1 << 53) + 1).matches(&float(9_007_199_254_740_992.0)));
    assert!(V::Int((1 << 53) + 3).matches(&float(9_007_199_254_740_996.0)));
}

#[test]
fn float_equality_follows_ieee() {
    assert!(float(1.5).matches(&float(1.5)));
    assert!(!float(1.5).matches(&float(1.25)));
    assert!(float(0.0).matches(&float(-0.0)));
    assert!(!float(f64::NAN).matches(&float(f64::NAN)));
    assert!(float(f64::INFINITY).matches(&float(f64::INFINITY)));
    assert!(!float(f64::INFINITY).matches(&float(f64::NEG_INFINITY)));
    let x = Float64::from_bits(2.0f64.to_bits());
    assert!(x.equals(&Float64::from_bits(2.0f64.to_bits())));
    assert_eq!(x.to_bits(), 2.0f64.to_bits());
}

#[test]
fn scalars_compare_by_value() {
    assert!(V::Bool(true).matches(&V::Bool(true)));
    assert!(!V::Bool(true).matches(&V::Bool(false)));
    assert!(string("abc").matches(&string("abc")));
    assert!(!string("abc").matches(&string("abd")));
    assert!(!string("1").matches(&V::Int(1)));
    assert!(!V::Int(1).matches(&V::Bool(true)));
}

#[test]
fn tuples_match_structurally() {
    let a = V::Tuple(vec![V::Int(1), string("a")]);
    let b = V::Tuple(vec![V::Int(1), string("a")]);
    assert!(a.matches(&b));
    assert!(!a.matches(&V::Tuple(vec![V::Int(1)])));
    assert!(!a.matches(&V::Tuple(vec![V::Int(1), string("b")])));
    assert!(!a.matches(&V::Tuple(vec![V::Int(2), string("a")])));
    assert!(V::Tuple(vec![]).matches(&V::Tuple(vec![])));
    let pattern = V::Tuple(vec![V::Wildcard, V::Int(2)]);
    assert!(pattern.matches(&V::Tuple(vec![string("z"), float(2.0)])));
    assert!(V::Tuple(vec![string("z"), float(2.0)]).matches(&pattern));
    assert!(pattern.matches(&V::Tuple(vec![V::Tuple(vec![]), float(2.0)])));
    assert!(!V::Tuple(vec![V::Tuple(vec![]), float(2.0)]).matches(&pattern));
}

#[test]
fn vectors_compare_carried_types() {
    assert!(!V::Vector(vec![], Type::Int).matches(&V::Vector(vec![], Type::String)));
    assert!(V::Vector(vec![], Type::Int).matches(&V::Vector(vec![], Type::Int)));
    assert!(!V::Vector(vec![V::Int(1)], Type::Int).matches(&V::Vector(vec![V::Int(1)], Type::String)));
    assert!(V::Vector(vec![V::Int(1)], Type::Any).matches(&V::Vector(vec![V::Int(1)], Type::Int)));
    assert!(!V::Vector(vec![V::Int(1)], Type::Int).matches(&V::Vector(vec![V::Int(2)], Type::Int)));
    assert!(!V::Vector(vec![V::Int(1)], Type::Int).matches(&V::Vector(vec![], Type::Int)));
    assert!(!V::Vector(vec![], Type::Int).matches(&V::Tuple(vec![])));
}

#[test]
fn objects_compare_by_key() {
    let a = V::Object(vec![("x".to_string(), V::Int(1)), ("y".to_string(), string("s"))]);
    let b = V::Object(vec![("y".to_string(), string("s")), ("x".to_string(), float(1.0))]);
    assert!(a.matches(&b));
    let fewer = V::Object(vec![("x".to_string(), V::Int(1))]);
    assert!(!a.matches(&fewer));
    assert!(!fewer.matches(&a));
    let other = V::Object(vec![("x".to_string(), V::Int(2)), ("y".to_string(), string("s"))]);
    assert!(!a.matches(&other));
    let renamed = V::Object(vec![("x".to_string(), V::Int(1)), ("z".to_string(), string("s"))]);
    assert!(!a.matches(&renamed));
    assert!(V::Object(vec![]).matches(&V::Object(vec![])));
    let pattern = V::Object(vec![("x".to_string(), V::Wildcard)]);
    assert!(pattern.matches(&V::Object(vec![("x".to_string(), V::Null)])));
}

#[test]
fn callables_compare_by_identity() {
    let first = V::Proc(vec![("a".to_string(), Some(Type::Int))], BodyId { id: 10 });
    let second = V::Proc(vec![("a".to_string(), Some(Type::Int))], BodyId { id: 11 });
    let first_again = V::Proc(vec![], BodyId { id: 10 });
    assert!(!first.matches(&second));
    assert!(first.matches(&first));
    assert!(first.matches(&first_again));
    let native_a = V::ForeignProc(vec![], NativeId { id: 3 });
    let native_b = V::ForeignProc(vec![], NativeId { id: 4 });
    assert!(native_a.matches(&native_a));
    assert!(!native_a.matches(&native_b));
    assert!(!first.matches(&native_a));
}

#[test]
fn reified_types_compare_through_the_type_relation() {
    assert!(V::Type(Type::Any).matches(&V::Type(Type::Bool)));
    assert!(!V::Type(Type::Bool).matches(&V::Type(Type::Int)));
    assert!(!V::Type(Type::Int).matches(&V::Int(1)));
}

#[test]
fn typ_of_values() {
    assert!(matches!(V::Wildcard.typ(), Type::Any));
    assert!(matches!(V::Null.typ(), Type::Undefined));
    assert!(matches!(V::Int(1).typ(), Type::Int));
    assert!(matches!(float(1.0).typ(), Type::Float));
    assert!(matches!(V::Bool(true).typ(), Type::Bool));
    assert!(matches!(string("s").typ(), Type::String));
    assert!(matches!(V::Object(vec![]).typ(), Type::Object));
    assert!(matches!(V::Proc(vec![], BodyId { id: 1 }).typ(), Type::Proc));
    assert!(matches!(V::ForeignProc(vec![], NativeId { id: 1 }).typ(), Type::ForeignProc));
    assert!(matches!(V::Type(Type::Int).typ(), Type::Type));
    match V::Tuple(vec![V::Int(1), string("a")]).typ() {
        Type::Tuple(ts) => {
            assert_eq!(ts.len(), 2);
            assert!(matches!(ts[0], Type::Int));
            assert!(matches!(ts[1], Type::String));
        }
        other => panic!("{other:?}"),
    }
    match V::Vector(vec![V::Int(1)], Type::Vector(Box::new(Type::Int))).typ() {
        Type::Vector(e) => assert!(matches!(*e, Type::Int)),
        other => panic!("{other:?}"),
    }
}

#[test]
fn typ_round_trip() {
    let mut values = all_kinds();
    values.push(V::Tuple(vec![V::Int(1), V::Tuple(vec![string("a"), V::Null])]));
    values.push(V::Vector(vec![], Type::Vector(Box::new(Type::Float))));
    values.push(V::Vector(vec![], Type::Union(vec![Type::Int, Type::String])));
    values.push(V::Vector(vec![], Type::Scission(vec![Type::Int])));
    for (i, v) in values.iter().enumerate() {
        let t = v.typ();
        assert!(t.matches(&t), "{v:?} at {i}");
    }
}

#[test]
fn cloned_values_match_their_sources() {
    for v in all_kinds() {
        let c = v.clone();
        assert!(v.matches(&c));
        assert!(c.matches(&v));
    }
}
