//! Runtime values and the value compatibility relation.
use crate::float::{equals_integer, float_eq, int_equals_float, nearest_double, Float64};
use crate::types::{lemma_type_matches_reflexive, models, type_matches, Type, TypeModel};
use vstd::prelude::*;

verus! {

/// Identity of a procedure body in the evaluator's program representation.
#[derive(Clone, Copy, Debug, PartialEq, Eq, Structural)]
pub struct BodyId {
    pub id: u64,
}

/// Identity of an entry in the evaluator's table of native callables.
#[derive(Clone, Copy, Debug, PartialEq, Eq, Structural)]
pub struct NativeId {
    pub id: u64,
}

/// A runtime value. `Wildcard` is the pattern that accepts every value;
/// procedures carry their parameter lists (names with optional declared
/// types) and the identity of what they run. An object is a list of entries
/// whose keys are meant to be distinct; their order plays no part.
#[derive(Debug)]
pub enum V {
    Wildcard,
    Null,
    Int(i64),
    Float(Float64),
    Bool(bool),
    String(String),
    Tuple(Vec<V>),
    Vector(Vec<V>, Type),
    Object(Vec<(String, V)>),
    Proc(Vec<(String, Option<Type>)>, BodyId),
    ForeignProc(Vec<(String, Option<Type>)>, NativeId),
    Type(Type),
}

/// Whether the pattern `a` matches the value `b`. The relation looks at the
/// left operand first: a `Wildcard` pattern matches everything, a scalar
/// pattern matches an equal scalar or a `Wildcard`, integers and floats
/// compare by value, aggregates compare member by member, procedures by
/// identity, and carried types through [`type_matches`].
pub open spec fn value_matches(a: V, b: V) -> bool
    decreases a,
{
    match a {
        V::Wildcard => true,
        V::Null => b is Null || b is Wildcard,
        V::Int(x) => match b {
            V::Int(y) => x == y,
            V::Float(g) => equals_integer(g.bits, nearest_double(x as int)),
            V::Wildcard => true,
            _ => false,
        },
        V::Float(x) => match b {
            V::Int(y) => equals_integer(x.bits, nearest_double(y as int)),
            V::Float(g) => float_eq(x.bits, g.bits),
            V::Wildcard => true,
            _ => false,
        },
        V::Bool(x) => match b {
            V::Bool(y) => x == y,
            V::Wildcard => true,
            _ => false,
        },
        V::String(x) => match b {
            V::String(y) => x@ == y@,
            V::Wildcard => true,
            _ => false,
        },
        V::Tuple(xs) => match b {
            V::Tuple(ys) => elements_match(xs@, ys@),
            _ => false,
        },
        V::Vector(xs, t) => match b {
            V::Vector(ys, u) => elements_match(xs@, ys@) && type_matches(t@, u@),
            _ => false,
        },
        V::Object(es) => match b {
            V::Object(fs) => keys_present(es@, fs@) && values_match(es@, fs@),
            _ => false,
        },
        V::Proc(_, x) => match b {
            V::Proc(_, y) => x == y,
            _ => false,
        },
        V::ForeignProc(_, x) => match b {
            V::ForeignProc(_, y) => x == y,
            _ => false,
        },
        V::Type(t) => match b {
            V::Type(u) => type_matches(t@, u@),
            _ => false,
        },
    }
}

/// `xs` and `ys` have one length, and each member of `xs` matches the member
/// of `ys` at its position.
pub open spec fn elements_match(xs: Seq<V>, ys: Seq<V>) -> bool
    decreases xs,
{
    xs.len() == ys.len() && (xs.len() == 0 || (value_matches(xs[0], ys[0]) && elements_match(
        xs.drop_first(),
        ys.drop_first(),
    )))
}

/// Whether some entry of `es` has the key `k`.
pub open spec fn has_key(es: Seq<(String, V)>, k: Seq<char>) -> bool {
    exists|i: int| 0 <= i < es.len() && #[trigger] es[i].0@ == k
}

/// The value of the first entry of `es` with the key `k`.
pub open spec fn lookup(es: Seq<(String, V)>, k: Seq<char>) -> Option<V>
    decreases es.len(),
{
    if es.len() == 0 {
        None
    } else if es[0].0@ == k {
        Some(es[0].1)
    } else {
        lookup(es.drop_first(), k)
    }
}

/// Every key of `fs` is a key of `es`.
pub open spec fn keys_present(es: Seq<(String, V)>, fs: Seq<(String, V)>) -> bool {
    forall|j: int| 0 <= j < fs.len() ==> #[trigger] has_key(es, fs[j].0@)
}

/// For each key of `es`, `fs` has that key, and the value that `es` gives it
/// matches the value that `fs` gives it. Where a key repeats, its first entry
/// stands.
pub open spec fn values_match(es: Seq<(String, V)>, fs: Seq<(String, V)>) -> bool
    decreases es,
{
    es.len() == 0 || (values_match(es.drop_last(), fs) && (has_key(es.drop_last(), es.last().0@)
        || match lookup(fs, es.last().0@) {
        Some(w) => value_matches(es.last().1, w),
        None => false,
    }))
}


/// The type of a value: scalars give their own type, a tuple the tuple of
/// its members' types, a vector the type it carries.
pub open spec fn typ_of(v: V) -> TypeModel
    decreases v,
{
    match v {
        V::Wildcard => TypeModel::Any,
        V::Null => TypeModel::Undefined,
        V::Int(_) => TypeModel::Int,
        V::Float(_) => TypeModel::Float,
        V::Bool(_) => TypeModel::Bool,
        V::String(_) => TypeModel::String,
        V::Tuple(xs) => TypeModel::Tuple(typs_of(xs@)),
        V::Vector(_, t) => t@,
        V::Object(_) => TypeModel::Object,
        V::Proc(_, _) => TypeModel::Proc,
        V::ForeignProc(_, _) => TypeModel::ForeignProc,
        V::Type(_) => TypeModel::Type,
    }
}

impl Clone for V {
    fn clone(&self) -> (r: V)
        ensures
            typ_of(r) == typ_of(*self),
        decreases self,
    {
        match self {
            V::Wildcard => V::Wildcard,
            V::Null => V::Null,
            V::Int(x) => V::Int(*x),
            V::Float(x) => V::Float(*x),
            V::Bool(x) => V::Bool(*x),
            V::String(x) => V::String(x.clone()),
            V::Tuple(xs) => V::Tuple(clone_values(xs)),
            V::Vector(xs, t) => V::Vector(clone_values(xs), t.clone()),
            V::Object(es) => V::Object(clone_entries(es)),
            V::Proc(ps, x) => V::Proc(ps.clone(), *x),
            V::ForeignProc(ps, x) => V::ForeignProc(ps.clone(), *x),
            V::Type(t) => V::Type(t.clone()),
        }
    }
}

fn clone_values(xs: &Vec<V>) -> (r: Vec<V>)
    ensures
        typs_of(r@) == typs_of(xs@),
    decreases xs,
{
    let mut r: Vec<V> = Vec::new();
    let mut i: usize = 0;
    while i < xs.len()
        invariant
            i <= xs@.len(),
            r@.len() == i,
            forall|k: int| 0 <= k < i ==> typ_of(#[trigger] r@[k]) == typ_of(xs@[k]),
        decreases xs@.len() - i,
    {
        r.push(xs[i].clone());
        i += 1;
    }
    assert(typs_of(r@) =~= typs_of(xs@));
    r
}

fn clone_entries(es: &Vec<(String, V)>) -> (r: Vec<(String, V)>)
    decreases es,
{
    let mut r: Vec<(String, V)> = Vec::new();
    let mut i: usize = 0;
    while i < es.len()
        invariant
            i <= es@.len(),
        decreases es@.len() - i,
    {
        proof {
            assert(decreases_to!(es => es@[i as int].1));
        }
        r.push((es[i].0.clone(), es[i].1.clone()));
        i += 1;
    }
    r
}

/// The type of each value of a sequence, in order.
pub open spec fn typs_of(vs: Seq<V>) -> Seq<TypeModel>
    decreases vs,
{
    Seq::new(vs.len(), |i: int| if 0 <= i < vs.len() { typ_of(vs[i]) } else { TypeModel::Any })
}

/// A `Wildcard` pattern matches every value.
pub proof fn lemma_wildcard_matches_all(v: V)
    ensures
        value_matches(V::Wildcard, v),
{
}

/// A `Wildcard` subject is matched by a `Wildcard`, `Null` or scalar pattern
/// only: not by an aggregate, a procedure or a type.
pub proof fn lemma_wildcard_subject(a: V)
    ensures
        value_matches(a, V::Wildcard) <==> (a is Wildcard || a is Null || a is Int || a is Float
            || a is Bool || a is String),
{
}

/// An integer and a float match each other in either order, or in neither.
pub proof fn lemma_numeric_coercion_symmetric(i: i64, f: Float64)
    ensures
        value_matches(V::Int(i), V::Float(f)) == value_matches(V::Float(f), V::Int(i)),
{
}

/// `elements_match` read as a quantifier.
pub proof fn lemma_elements_match(xs: Seq<V>, ys: Seq<V>)
    ensures
        elements_match(xs, ys) <==> (xs.len() == ys.len() && forall|i: int|
            0 <= i < xs.len() ==> #[trigger] value_matches(xs[i], ys[i])),
    decreases xs.len(),
{
    if xs.len() > 0 && xs.len() == ys.len() {
        let (xr, yr) = (xs.drop_first(), ys.drop_first());
        lemma_elements_match(xr, yr);
        if elements_match(xs, ys) {
            assert forall|i: int| 0 <= i < xs.len() implies #[trigger] value_matches(xs[i], ys[i]) by {
                if i > 0 {
                    assert(xr[i - 1] == xs[i] && yr[i - 1] == ys[i]);
                }
            }
        }
        if forall|i: int| 0 <= i < xs.len() ==> #[trigger] value_matches(xs[i], ys[i]) {
            assert(value_matches(xs[0], ys[0]));
            assert forall|i: int| 0 <= i < xr.len() implies #[trigger] value_matches(xr[i], yr[i]) by {
                assert(xr[i] == xs[i + 1] && yr[i] == ys[i + 1]);
            }
        }
    }
}

/// Two tuples match when they have one length and each member of the
/// pattern matches the member of the subject at its position; a difference
/// in length, or one pair that does not match, and they do not.
pub proof fn lemma_tuple_matches(xs: Vec<V>, ys: Vec<V>)
    ensures
        value_matches(V::Tuple(xs), V::Tuple(ys)) <==> (xs@.len() == ys@.len() && forall|i: int|
            0 <= i < xs@.len() ==> #[trigger] value_matches(xs@[i], ys@[i])),
{
    lemma_elements_match(xs@, ys@);
}

/// Two vectors whose carried types do not match do not match, whatever
/// their elements.
pub proof fn lemma_vector_types_must_match(xs: Vec<V>, t: Type, ys: Vec<V>, u: Type)
    requires
        !type_matches(t@, u@),
    ensures
        !value_matches(V::Vector(xs, t), V::Vector(ys, u)),
{
}

/// Procedures match exactly when they run the same body, and native
/// procedures when they call the same entry; parameter lists play no part.
pub proof fn lemma_procedure_identity(
    p: Vec<(String, Option<Type>)>,
    x: BodyId,
    q: Vec<(String, Option<Type>)>,
    y: BodyId,
    f: NativeId,
    g: NativeId,
)
    ensures
        value_matches(V::Proc(p, x), V::Proc(q, y)) <==> x == y,
        value_matches(V::ForeignProc(p, f), V::ForeignProc(q, g)) <==> f == g,
{
}

/// The type of every value accepts itself.
pub proof fn lemma_typ_round_trip(v: V)
    ensures
        type_matches(typ_of(v), typ_of(v)),
{
    lemma_type_matches_reflexive(typ_of(v));
}

impl V {
    /// Whether this value, as a pattern, matches `other`: the relation
    /// [`value_matches`]. It is not symmetric.
    pub fn matches(&self, other: &V) -> (r: bool)
        ensures
            r == value_matches(*self, *other),
        decreases self,
    {
        match self {
            V::Wildcard => true,
            V::Null => match other {
                V::Null => true,
                V::Wildcard => true,
                _ => false,
            },
            V::Int(x) => match other {
                V::Int(y) => *x == *y,
                V::Float(g) => int_equals_float(*x, *g),
                V::Wildcard => true,
                _ => false,
            },
            V::Float(x) => match other {
                V::Int(y) => int_equals_float(*y, *x),
                V::Float(g) => x.equals(g),
                V::Wildcard => true,
                _ => false,
            },
            V::Bool(x) => match other {
                V::Bool(y) => *x == *y,
                V::Wildcard => true,
                _ => false,
            },
            V::String(x) => match other {
                V::String(y) => *x == *y,
                V::Wildcard => true,
                _ => false,
            },
            V::Tuple(xs) => match other {
                V::Tuple(ys) => all_elements_match(xs, ys),
                _ => false,
            },
            V::Vector(xs, t) => match other {
                V::Vector(ys, u) => all_elements_match(xs, ys) && t.matches(u),
                _ => false,
            },
            V::Object(es) => match other {
                V::Object(fs) => all_keys_present(es, fs) && all_values_match(es, fs),
                _ => false,
            },
            V::Proc(_, x) => match other {
                V::Proc(_, y) => *x == *y,
                _ => false,
            },
            V::ForeignProc(_, x) => match other {
                V::ForeignProc(_, y) => *x == *y,
                _ => false,
            },
            V::Type(t) => match other {
                V::Type(u) => t.matches(u),
                _ => false,
            },
        }
    }

    /// The type of this value: the function [`typ_of`].
    pub fn typ(&self) -> (r: Type)
        ensures
            r@ == typ_of(*self),
        decreases self,
    {
        match self {
            V::Wildcard => Type::Any,
            V::Null => Type::Undefined,
            V::Int(_) => Type::Int,
            V::Float(_) => Type::Float,
            V::Bool(_) => Type::Bool,
            V::String(_) => Type::String,
            V::Tuple(xs) => Type::Tuple(typs(xs)),
            V::Vector(_, t) => t.clone(),
            V::Object(_) => Type::Object,
            V::Proc(_, _) => Type::Proc,
            V::ForeignProc(_, _) => Type::ForeignProc,
            V::Type(_) => Type::Type,
        }
    }
}

/// The types of the values of `xs`, in order.
fn typs(xs: &Vec<V>) -> (r: Vec<Type>)
    ensures
        models(r@) == typs_of(xs@),
    decreases xs,
{
    let mut ts: Vec<Type> = Vec::new();
    let mut i: usize = 0;
    while i < xs.len()
        invariant
            i <= xs@.len(),
            ts@.len() == i,
            forall|k: int| 0 <= k < i ==> #[trigger] ts@[k]@ == typ_of(xs@[k]),
        decreases xs@.len() - i,
    {
        let t = xs[i].typ();
        ts.push(t);
        i += 1;
    }
    proof {
        assert forall|k: int| 0 <= k < ts@.len() implies models(ts@)[k] == typs_of(xs@)[k] by {
            assert(ts@[k]@ == typ_of(xs@[k]));
        }
        assert(models(ts@) =~= typs_of(xs@));
    }
    ts
}

/// Whether `xs` and `ys` have one length and each member of `xs` matches
/// the member of `ys` at its position.
fn all_elements_match(xs: &Vec<V>, ys: &Vec<V>) -> (r: bool)
    ensures
        r == elements_match(xs@, ys@),
    decreases xs,
{
    if xs.len() != ys.len() {
        return false;
    }
    let mut i: usize = 0;
    assert(xs@.skip(0) =~= xs@);
    assert(ys@.skip(0) =~= ys@);
    while i < xs.len()
        invariant
            i <= xs@.len(),
            xs@.len() == ys@.len(),
            elements_match(xs@, ys@) == elements_match(xs@.skip(i as int), ys@.skip(i as int)),
        decreases xs@.len() - i,
    {
        proof {
            assert(xs@.skip(i as int).drop_first() =~= xs@.skip(i + 1));
            assert(ys@.skip(i as int).drop_first() =~= ys@.skip(i + 1));
            assert(xs@.skip(i as int)[0] == xs@[i as int]);
            assert(ys@.skip(i as int)[0] == ys@[i as int]);
        }
        if !xs[i].matches(&ys[i]) {
            return false;
        }
        i += 1;
    }
    proof {
        assert(xs@.skip(i as int).len() == 0);
    }
    true
}

/// Whether one of the first `n` entries of `es` has the key `k`.
fn contains_key(es: &Vec<(String, V)>, n: usize, k: &String) -> (r: bool)
    requires
        n <= es@.len(),
    ensures
        r == has_key(es@.take(n as int), k@),
{
    let mut i: usize = 0;
    while i < n
        invariant
            n <= es@.len(),
            i <= n,
            forall|t: int| 0 <= t < i ==> (#[trigger] es@[t]).0@ != k@,
        decreases n - i,
    {
        if es[i].0 == *k {
            assert(es@.take(n as int)[i as int].0@ == k@);
            return true;
        }
        i += 1;
    }
    assert forall|t: int| 0 <= t < n implies (#[trigger] es@.take(n as int)[t]).0@ != k@ by {
        assert(es@.take(n as int)[t] == es@[t]);
    }
    false
}

/// The index of the first entry of `fs` with the key `k`.
fn find_key(fs: &Vec<(String, V)>, k: &String) -> (r: Option<usize>)
    ensures
        match r {
            Some(j) => j < fs@.len() && lookup(fs@, k@) == Some(fs@[j as int].1),
            None => lookup(fs@, k@) is None,
        },
{
    let mut j: usize = 0;
    assert(fs@.skip(0) =~= fs@);
    while j < fs.len()
        invariant
            j <= fs@.len(),
            lookup(fs@, k@) == lookup(fs@.skip(j as int), k@),
        decreases fs@.len() - j,
    {
        proof {
            assert(fs@.skip(j as int).drop_first() =~= fs@.skip(j + 1));
            assert(fs@.skip(j as int)[0] == fs@[j as int]);
        }
        if fs[j].0 == *k {
            return Some(j);
        }
        j += 1;
    }
    proof {
        assert(fs@.skip(j as int).len() == 0);
    }
    None
}

/// Whether every key of `fs` is a key of `es`.
fn all_keys_present(es: &Vec<(String, V)>, fs: &Vec<(String, V)>) -> (r: bool)
    ensures
        r == keys_present(es@, fs@),
{
    let mut j: usize = 0;
    assert(es@.take(es@.len() as int) =~= es@);
    while j < fs.len()
        invariant
            j <= fs@.len(),
            es@.take(es@.len() as int) == es@,
            forall|t: int| 0 <= t < j ==> #[trigger] has_key(es@, fs@[t].0@),
        decreases fs@.len() - j,
    {
        if !contains_key(es, es.len(), &fs[j].0) {
            return false;
        }
        j += 1;
    }
    true
}

/// Whether, for each key of `es`, `fs` has it with a value that the value
/// of `es` matches.
fn all_values_match(es: &Vec<(String, V)>, fs: &Vec<(String, V)>) -> (r: bool)
    ensures
        r == values_match(es@, fs@),
    decreases es,
{
    let mut ok = true;
    let mut i: usize = 0;
    assert(es@.take(0) =~= Seq::<(String, V)>::empty());
    while i < es.len()
        invariant
            i <= es@.len(),
            ok == values_match(es@.take(i as int), fs@),
        decreases es@.len() - i,
    {
        let ghost prefix = es@.take(i + 1);
        proof {
            assert(prefix.drop_last() =~= es@.take(i as int));
            assert(prefix.last() == es@[i as int]);
        }
        if ok {
            let k = &es[i].0;
            if !contains_key(es, i, k) {
                match find_key(fs, k) {
                    Some(j) => {
                        proof {
                            assert(decreases_to!(es => es@[i as int].1));
                        }
                        ok = es[i].1.matches(&fs[j].1);
                    },
                    None => {
                        ok = false;
                    },
                }
            }
        }
        i += 1;
    }
    proof {
        assert(es@.take(i as int) =~= es@);
    }
    ok
}

} // verus!
