//! Type descriptors and the type compatibility relation.
use vstd::prelude::*;

verus! {

/// The mathematical model of a [`Type`]: the same tree, with sequences in
/// place of vectors.
pub enum TypeModel {
    Any,
    Undefined,
    Int,
    Float,
    Bool,
    String,
    Tuple(Seq<TypeModel>),
    Vector(Box<TypeModel>),
    Object,
    Proc,
    ForeignProc,
    Type,
    Union(Seq<TypeModel>),
    Scission(Seq<TypeModel>),
}

/// Number of nodes in a type tree; the measure of the type relation's recursion.
pub open spec fn size(t: TypeModel) -> nat
    decreases t,
{
    match t {
        TypeModel::Tuple(ts) => 1 + sizes(ts),
        TypeModel::Union(ts) => 1 + sizes(ts),
        TypeModel::Scission(ts) => 1 + sizes(ts),
        TypeModel::Vector(e) => 1 + size(*e),
        _ => 1,
    }
}

/// Total number of nodes in a sequence of type trees.
pub open spec fn sizes(ts: Seq<TypeModel>) -> nat
    decreases ts,
{
    if ts.len() == 0 {
        0
    } else {
        size(ts[0]) + sizes(ts.drop_first())
    }
}


/// No member of a sequence is larger than the whole sequence.
pub proof fn lemma_member_size(ts: Seq<TypeModel>, i: int)
    requires
        0 <= i < ts.len(),
    ensures
        size(ts[i]) <= sizes(ts),
    decreases ts.len(),
{
    if i > 0 {
        lemma_member_size(ts.drop_first(), i - 1);
        assert(ts.drop_first()[i - 1] == ts[i]);
    }
}

/// A non-empty sequence is larger than its tail.
pub proof fn lemma_size_positive(ts: Seq<TypeModel>)
    ensures
        ts.len() > 0 ==> sizes(ts.drop_first()) < sizes(ts),
{
    if ts.len() > 0 {
        assert(size(ts[0]) >= 1);
    }
}

/// Whether the pattern type `a` accepts the type `b`. The relation looks at
/// the left operand first: `Any` accepts everything, a union accepts what one
/// of its members accepts, a scission what none of its members accepts, and a
/// concrete type lends a union or scission on its right the decision, with
/// the operands swapped.
pub open spec fn type_matches(a: TypeModel, b: TypeModel) -> bool
    decreases size(a) + size(b), if a is Union || a is Scission { 0int } else { 1int },
{
    match a {
        TypeModel::Any => true,
        TypeModel::Union(ms) => match b {
            TypeModel::Any => true,
            TypeModel::Union(ns) => each_accepts_some(ms, ns),
            TypeModel::Scission(ns) => none_accepts_any(ms, ns),
            _ => some_accepts(ms, b),
        },
        TypeModel::Scission(ms) => match b {
            TypeModel::Any => true,
            TypeModel::Union(ns) => none_accepts_any(ms, ns),
            TypeModel::Scission(ns) => each_accepts_some(ms, ns),
            _ => !some_accepts(ms, b),
        },
        _ => match b {
            TypeModel::Any => true,
            TypeModel::Union(_) => type_matches(b, a),
            TypeModel::Scission(_) => type_matches(b, a),
            _ => match (a, b) {
                (TypeModel::Tuple(xs), TypeModel::Tuple(ys)) => accepts_pairwise(xs, ys),
                (TypeModel::Vector(x), TypeModel::Vector(y)) => type_matches(*x, *y),
                (TypeModel::Undefined, TypeModel::Undefined) => true,
                (TypeModel::Int, TypeModel::Int) => true,
                (TypeModel::Float, TypeModel::Float) => true,
                (TypeModel::Bool, TypeModel::Bool) => true,
                (TypeModel::String, TypeModel::String) => true,
                (TypeModel::Object, TypeModel::Object) => true,
                (TypeModel::Proc, TypeModel::Proc) => true,
                (TypeModel::ForeignProc, TypeModel::ForeignProc) => true,
                (TypeModel::Type, TypeModel::Type) => true,
                _ => false,
            },
        },
    }
}

/// Some member of `ms` accepts `b`.
pub open spec fn some_accepts(ms: Seq<TypeModel>, b: TypeModel) -> bool
    decreases sizes(ms) + size(b), 2int,
{
    proof {
        lemma_size_positive(ms);
    }
    ms.len() > 0 && (type_matches(ms[0], b) || some_accepts(ms.drop_first(), b))
}

/// `a` accepts some member of `ns`.
pub open spec fn accepts_some(a: TypeModel, ns: Seq<TypeModel>) -> bool
    decreases size(a) + sizes(ns), 2int,
{
    proof {
        lemma_size_positive(ns);
    }
    ns.len() > 0 && (type_matches(a, ns[0]) || accepts_some(a, ns.drop_first()))
}

/// Each member of `ms` accepts some member of `ns`: a subset test, read
/// through the relation itself.
pub open spec fn each_accepts_some(ms: Seq<TypeModel>, ns: Seq<TypeModel>) -> bool
    decreases sizes(ms) + sizes(ns) + 1, 0int,
{
    proof {
        lemma_size_positive(ms);
    }
    ms.len() == 0 || (accepts_some(ms[0], ns) && each_accepts_some(ms.drop_first(), ns))
}

/// No member of `ms` accepts any member of `ns`: a disjointness test.
pub open spec fn none_accepts_any(ms: Seq<TypeModel>, ns: Seq<TypeModel>) -> bool
    decreases sizes(ms) + sizes(ns) + 1, 0int,
{
    proof {
        lemma_size_positive(ms);
    }
    ms.len() == 0 || (!accepts_some(ms[0], ns) && none_accepts_any(ms.drop_first(), ns))
}

/// `xs` and `ys` have one length, and each member of `xs` accepts the member
/// of `ys` at its position.
pub open spec fn accepts_pairwise(xs: Seq<TypeModel>, ys: Seq<TypeModel>) -> bool
    decreases sizes(xs) + sizes(ys) + 1, 0int,
{
    proof {
        lemma_size_positive(xs);
        lemma_size_positive(ys);
    }
    xs.len() == ys.len() && (xs.len() == 0 || (type_matches(xs[0], ys[0])
        && accepts_pairwise(xs.drop_first(), ys.drop_first())))
}

/// The members that the union builder keeps of the candidates `ts`: each
/// candidate in turn, unless a member kept before it already accepts it.
pub open spec fn union_members(ts: Seq<TypeModel>) -> Seq<TypeModel>
    decreases ts.len(),
{
    if ts.len() == 0 {
        Seq::empty()
    } else {
        let kept = union_members(ts.drop_last());
        if some_accepts(kept, ts.last()) {
            kept
        } else {
            kept.push(ts.last())
        }
    }
}

/// `some_accepts` read as a quantifier.
pub proof fn lemma_some_accepts(ms: Seq<TypeModel>, b: TypeModel)
    ensures
        some_accepts(ms, b) <==> exists|i: int| 0 <= i < ms.len() && #[trigger] type_matches(ms[i], b),
    decreases ms.len(),
{
    if ms.len() > 0 {
        let rest = ms.drop_first();
        lemma_some_accepts(rest, b);
        if some_accepts(ms, b) && !type_matches(ms[0], b) {
            let i = choose|i: int| 0 <= i < rest.len() && #[trigger] type_matches(rest[i], b);
            assert(ms[i + 1] == rest[i]);
        }
        if exists|i: int| 0 <= i < ms.len() && #[trigger] type_matches(ms[i], b) {
            let i = choose|i: int| 0 <= i < ms.len() && #[trigger] type_matches(ms[i], b);
            if i > 0 {
                assert(rest[i - 1] == ms[i]);
            }
        }
    }
}

/// `accepts_some` read as a quantifier.
pub proof fn lemma_accepts_some(a: TypeModel, ns: Seq<TypeModel>)
    ensures
        accepts_some(a, ns) <==> exists|j: int| 0 <= j < ns.len() && #[trigger] type_matches(a, ns[j]),
    decreases ns.len(),
{
    if ns.len() > 0 {
        let rest = ns.drop_first();
        lemma_accepts_some(a, rest);
        if accepts_some(a, ns) && !type_matches(a, ns[0]) {
            let j = choose|j: int| 0 <= j < rest.len() && #[trigger] type_matches(a, rest[j]);
            assert(ns[j + 1] == rest[j]);
        }
        if exists|j: int| 0 <= j < ns.len() && #[trigger] type_matches(a, ns[j]) {
            let j = choose|j: int| 0 <= j < ns.len() && #[trigger] type_matches(a, ns[j]);
            if j > 0 {
                assert(rest[j - 1] == ns[j]);
            }
        }
    }
}

/// `each_accepts_some` read as a quantifier.
pub proof fn lemma_each_accepts_some(ms: Seq<TypeModel>, ns: Seq<TypeModel>)
    ensures
        each_accepts_some(ms, ns) <==> forall|i: int| 0 <= i < ms.len() ==> #[trigger] accepts_some(ms[i], ns),
    decreases ms.len(),
{
    if ms.len() > 0 {
        let rest = ms.drop_first();
        lemma_each_accepts_some(rest, ns);
        if each_accepts_some(ms, ns) {
            assert forall|i: int| 0 <= i < ms.len() implies #[trigger] accepts_some(ms[i], ns) by {
                if i > 0 {
                    assert(rest[i - 1] == ms[i]);
                }
            }
        }
        if forall|i: int| 0 <= i < ms.len() ==> #[trigger] accepts_some(ms[i], ns) {
            assert(accepts_some(ms[0], ns));
            assert forall|i: int| 0 <= i < rest.len() implies #[trigger] accepts_some(rest[i], ns) by {
                assert(rest[i] == ms[i + 1]);
            }
        }
    }
}

/// `none_accepts_any` read as a quantifier.
pub proof fn lemma_none_accepts_any(ms: Seq<TypeModel>, ns: Seq<TypeModel>)
    ensures
        none_accepts_any(ms, ns) <==> forall|i: int| 0 <= i < ms.len() ==> !#[trigger] accepts_some(ms[i], ns),
    decreases ms.len(),
{
    if ms.len() > 0 {
        let rest = ms.drop_first();
        lemma_none_accepts_any(rest, ns);
        if none_accepts_any(ms, ns) {
            assert forall|i: int| 0 <= i < ms.len() implies !#[trigger] accepts_some(ms[i], ns) by {
                if i > 0 {
                    assert(rest[i - 1] == ms[i]);
                }
            }
        }
        if forall|i: int| 0 <= i < ms.len() ==> !#[trigger] accepts_some(ms[i], ns) {
            assert(!accepts_some(ms[0], ns));
            assert forall|i: int| 0 <= i < rest.len() implies !#[trigger] accepts_some(rest[i], ns) by {
                assert(rest[i] == ms[i + 1]);
            }
        }
    }
}

/// A union accepts a concrete type (neither `Any`, a union nor a scission)
/// exactly when one of its members accepts it.
pub proof fn lemma_union_accepts_concrete(ms: Seq<TypeModel>, b: TypeModel)
    requires
        !(b is Any || b is Union || b is Scission),
    ensures
        type_matches(TypeModel::Union(ms), b) <==> exists|i: int|
            0 <= i < ms.len() && #[trigger] type_matches(ms[i], b),
{
    lemma_some_accepts(ms, b);
}

/// A scission accepts a concrete type (neither `Any`, a union nor a
/// scission) exactly when none of its members accepts it.
pub proof fn lemma_scission_accepts_concrete(ms: Seq<TypeModel>, b: TypeModel)
    requires
        !(b is Any || b is Union || b is Scission),
    ensures
        type_matches(TypeModel::Scission(ms), b) <==> forall|i: int|
            0 <= i < ms.len() ==> !#[trigger] type_matches(ms[i], b),
{
    lemma_some_accepts(ms, b);
}

/// A union accepts a scission, and a scission a union, exactly when no
/// member of the left one accepts any member of the right one.
pub proof fn lemma_union_scission_disjoint(ms: Seq<TypeModel>, ns: Seq<TypeModel>)
    ensures
        type_matches(TypeModel::Union(ms), TypeModel::Scission(ns)) <==> forall|i: int, j: int|
            0 <= i < ms.len() && 0 <= j < ns.len() ==> !#[trigger] type_matches(ms[i], ns[j]),
        type_matches(TypeModel::Scission(ms), TypeModel::Union(ns)) <==> forall|i: int, j: int|
            0 <= i < ms.len() && 0 <= j < ns.len() ==> !#[trigger] type_matches(ms[i], ns[j]),
{
    lemma_none_accepts_any(ms, ns);
    if none_accepts_any(ms, ns) {
        assert forall|i: int, j: int| 0 <= i < ms.len() && 0 <= j < ns.len() implies
            !#[trigger] type_matches(ms[i], ns[j]) by {
            lemma_accepts_some(ms[i], ns);
            assert(!accepts_some(ms[i], ns));
        }
    } else {
        let i = choose|i: int| 0 <= i < ms.len() && #[trigger] accepts_some(ms[i], ns);
        lemma_accepts_some(ms[i], ns);
        let j = choose|j: int| 0 <= j < ns.len() && #[trigger] type_matches(ms[i], ns[j]);
        assert(type_matches(ms[i], ns[j]));
    }
}

/// Each type accepts itself.
pub proof fn lemma_type_matches_reflexive(t: TypeModel)
    ensures
        type_matches(t, t),
    decreases size(t), 0int,
{
    match t {
        TypeModel::Tuple(xs) => {
            assert forall|i: int| 0 <= i < xs.len() implies #[trigger] type_matches(xs[i], xs[i]) by {
                lemma_member_size(xs, i);
                lemma_type_matches_reflexive(xs[i]);
            }
            lemma_pairwise_reflexive(xs);
        },
        TypeModel::Vector(e) => {
            lemma_type_matches_reflexive(*e);
        },
        TypeModel::Union(ms) => {
            lemma_members_cover_themselves(ms);
        },
        TypeModel::Scission(ms) => {
            lemma_members_cover_themselves(ms);
        },
        _ => {},
    }
}

proof fn lemma_pairwise_reflexive(xs: Seq<TypeModel>)
    requires
        forall|i: int| 0 <= i < xs.len() ==> #[trigger] type_matches(xs[i], xs[i]),
    ensures
        accepts_pairwise(xs, xs),
    decreases xs.len(),
{
    if xs.len() > 0 {
        let rest = xs.drop_first();
        assert forall|i: int| 0 <= i < rest.len() implies #[trigger] type_matches(rest[i], rest[i]) by {
            assert(rest[i] == xs[i + 1]);
        }
        assert(type_matches(xs[0], xs[0]));
        lemma_pairwise_reflexive(rest);
    }
}

proof fn lemma_members_cover_themselves(ms: Seq<TypeModel>)
    ensures
        each_accepts_some(ms, ms),
    decreases sizes(ms), 1int,
{
    assert forall|i: int| 0 <= i < ms.len() implies #[trigger] accepts_some(ms[i], ms) by {
        lemma_member_size(ms, i);
        lemma_type_matches_reflexive(ms[i]);
        lemma_accepts_some(ms[i], ms);
    }
    lemma_each_accepts_some(ms, ms);
}

/// Once `Any` is the first candidate, the union builder keeps it alone.
pub proof fn lemma_any_absorbs(ts: Seq<TypeModel>)
    requires
        ts.len() > 0,
        ts[0] == TypeModel::Any,
    ensures
        union_members(ts) == seq![TypeModel::Any],
    decreases ts.len(),
{
    if ts.len() == 1 {
        assert(ts.drop_last().len() == 0);
        assert(union_members(ts.drop_last()) == Seq::<TypeModel>::empty());
        assert(Seq::<TypeModel>::empty().push(TypeModel::Any) =~= seq![TypeModel::Any]);
    } else {
        lemma_any_absorbs(ts.drop_last());
        let kept = seq![TypeModel::Any];
        assert(kept[0] == TypeModel::Any);
        assert(type_matches(kept[0], ts.last()));
    }
}

/// A type descriptor. `Union` accepts what one of its members accepts;
/// `Scission` accepts what none of its members accepts.
#[derive(Debug)]
pub enum Type {
    Any,
    Undefined,
    Int,
    Float,
    Bool,
    String,
    Tuple(Vec<Type>),
    Vector(Box<Type>),
    Object,
    Proc,
    ForeignProc,
    Type,
    Union(Vec<Type>),
    Scission(Vec<Type>),
}

/// The model of each descriptor of a sequence, in order.
pub open spec fn models(ts: Seq<Type>) -> Seq<TypeModel>
    decreases ts,
{
    Seq::new(ts.len(), |i: int| if 0 <= i < ts.len() { model(ts[i]) } else { TypeModel::Any })
}

/// The model of a descriptor.
pub open spec fn model(t: Type) -> TypeModel
    decreases t,
{
    match t {
        Type::Any => TypeModel::Any,
        Type::Undefined => TypeModel::Undefined,
        Type::Int => TypeModel::Int,
        Type::Float => TypeModel::Float,
        Type::Bool => TypeModel::Bool,
        Type::String => TypeModel::String,
        Type::Tuple(ts) => TypeModel::Tuple(models(ts@)),
        Type::Vector(e) => TypeModel::Vector(Box::new(model(*e))),
        Type::Object => TypeModel::Object,
        Type::Proc => TypeModel::Proc,
        Type::ForeignProc => TypeModel::ForeignProc,
        Type::Type => TypeModel::Type,
        Type::Union(ts) => TypeModel::Union(models(ts@)),
        Type::Scission(ts) => TypeModel::Scission(models(ts@)),
    }
}

impl View for Type {
    type V = TypeModel;

    open spec fn view(&self) -> TypeModel {
        model(*self)
    }
}


impl Clone for Type {
    fn clone(&self) -> (r: Type)
        ensures
            r@ == self@,
        decreases self,
    {
        match self {
            Type::Any => Type::Any,
            Type::Undefined => Type::Undefined,
            Type::Int => Type::Int,
            Type::Float => Type::Float,
            Type::Bool => Type::Bool,
            Type::String => Type::String,
            Type::Tuple(ts) => Type::Tuple(clone_all(ts)),
            Type::Vector(e) => Type::Vector(Box::new((**e).clone())),
            Type::Object => Type::Object,
            Type::Proc => Type::Proc,
            Type::ForeignProc => Type::ForeignProc,
            Type::Type => Type::Type,
            Type::Union(ts) => Type::Union(clone_all(ts)),
            Type::Scission(ts) => Type::Scission(clone_all(ts)),
        }
    }
}

fn clone_all(ts: &Vec<Type>) -> (r: Vec<Type>)
    ensures
        models(r@) == models(ts@),
    decreases ts,
{
    let mut r: Vec<Type> = Vec::new();
    let mut i: usize = 0;
    while i < ts.len()
        invariant
            i <= ts@.len(),
            r@.len() == i,
            forall|k: int| 0 <= k < i ==> #[trigger] r@[k]@ == ts@[k]@,
        decreases ts@.len() - i,
    {
        proof {
            assert(decreases_to!(ts => ts@[i as int]));
        }
        let c = ts[i].clone();
        r.push(c);
        i += 1;
    }
    assert forall|k: int| 0 <= k < r@.len() implies models(r@)[k] == models(ts@)[k] by {
        assert(r@[k]@ == ts@[k]@);
    }
    assert(models(r@) =~= models(ts@));
    r
}


impl Type {
    /// Whether this type, as a pattern, accepts `other`: the relation
    /// [`type_matches`]. It is not symmetric.
    pub fn matches(&self, other: &Type) -> (r: bool)
        ensures
            r == type_matches(self@, other@),
        decreases size(self@) + size(other@), if self@ is Union || self@ is Scission { 0int } else { 1int },
    {
        match self {
            Type::Any => true,
            Type::Union(ms) => match other {
                Type::Any => true,
                Type::Union(ns) => covers(ms, ns),
                Type::Scission(ns) => disjoint(ms, ns),
                _ => some_member_matches(ms, other),
            },
            Type::Scission(ms) => match other {
                Type::Any => true,
                Type::Union(ns) => disjoint(ms, ns),
                Type::Scission(ns) => covers(ms, ns),
                _ => !some_member_matches(ms, other),
            },
            _ => match other {
                Type::Any => true,
                Type::Union(_) => other.matches(self),
                Type::Scission(_) => other.matches(self),
                _ => match (self, other) {
                    (Type::Tuple(xs), Type::Tuple(ys)) => pairwise(xs, ys),
                    (Type::Vector(x), Type::Vector(y)) => (**x).matches(&**y),
                    (Type::Undefined, Type::Undefined) => true,
                    (Type::Int, Type::Int) => true,
                    (Type::Float, Type::Float) => true,
                    (Type::Bool, Type::Bool) => true,
                    (Type::String, Type::String) => true,
                    (Type::Object, Type::Object) => true,
                    (Type::Proc, Type::Proc) => true,
                    (Type::ForeignProc, Type::ForeignProc) => true,
                    (Type::Type, Type::Type) => true,
                    _ => false,
                },
            },
        }
    }
}

impl Type {
    /// Builds a union of the candidates `types`, leaving out each candidate
    /// that a member kept before it already accepts. Once `Any` is kept, every
    /// later candidate is left out.
    pub fn create_union(types: Vec<Type>) -> (r: Type)
        ensures
            r@ == TypeModel::Union(union_members(models(types@))),
    {
        let ghost tm = models(types@);
        let mut collected: Vec<Type> = Vec::new();
        let mut i: usize = 0;
        while i < types.len()
            invariant
                i <= types@.len(),
                tm == models(types@),
                models(collected@) == union_members(tm.take(i as int)),
            decreases types@.len() - i,
        {
            proof {
                assert(tm.take(i + 1).drop_last() =~= tm.take(i as int));
                assert(tm.take(i + 1).last() == types@[i as int]@);
            }
            if !some_member_matches(&collected, &types[i]) {
                let t = types[i].clone();
                let ghost before = collected@;
                collected.push(t);
                proof {
                    assert forall|k: int| 0 <= k < collected@.len() implies
                        models(collected@)[k] == models(before).push(t@)[k] by {
                        if k < before.len() {
                            assert(collected@[k] == before[k]);
                        }
                    }
                    assert(models(collected@) =~= models(before).push(t@));
                }
            }
            i += 1;
        }
        proof {
            assert(tm.take(i as int) =~= tm);
        }
        Type::Union(collected)
    }
}

/// Whether some member of `ms` accepts `x`.
fn some_member_matches(ms: &Vec<Type>, x: &Type) -> (r: bool)
    ensures
        r == some_accepts(models(ms@), x@),
    decreases sizes(models(ms@)) + size(x@), 2int,
{
    let ghost mm = models(ms@);
    let mut i: usize = 0;
    assert(mm.skip(0) =~= mm);
    while i < ms.len()
        invariant
            i <= ms@.len(),
            mm == models(ms@),
            some_accepts(mm, x@) == some_accepts(mm.skip(i as int), x@),
        decreases ms@.len() - i,
    {
        proof {
            lemma_member_size(mm, i as int);
            assert(mm.skip(i as int).drop_first() =~= mm.skip(i + 1));
            assert(mm.skip(i as int)[0] == ms@[i as int]@);
        }
        if ms[i].matches(x) {
            return true;
        }
        i += 1;
    }
    proof {
        assert(mm.skip(i as int).len() == 0);
    }
    false
}

/// Whether `x` accepts some member of `ns`.
fn matches_some(x: &Type, ns: &Vec<Type>) -> (r: bool)
    ensures
        r == accepts_some(x@, models(ns@)),
    decreases size(x@) + sizes(models(ns@)), 2int,
{
    let ghost nn = models(ns@);
    let mut j: usize = 0;
    assert(nn.skip(0) =~= nn);
    while j < ns.len()
        invariant
            j <= ns@.len(),
            nn == models(ns@),
            accepts_some(x@, nn) == accepts_some(x@, nn.skip(j as int)),
        decreases ns@.len() - j,
    {
        proof {
            lemma_member_size(nn, j as int);
            assert(nn.skip(j as int).drop_first() =~= nn.skip(j + 1));
            assert(nn.skip(j as int)[0] == ns@[j as int]@);
        }
        if x.matches(&ns[j]) {
            return true;
        }
        j += 1;
    }
    proof {
        assert(nn.skip(j as int).len() == 0);
    }
    false
}

/// Whether every member of `ms` accepts some member of `ns`.
fn covers(ms: &Vec<Type>, ns: &Vec<Type>) -> (r: bool)
    ensures
        r == each_accepts_some(models(ms@), models(ns@)),
    decreases sizes(models(ms@)) + sizes(models(ns@)) + 1, 0int,
{
    let ghost mm = models(ms@);
    let ghost nn = models(ns@);
    let mut i: usize = 0;
    assert(mm.skip(0) =~= mm);
    while i < ms.len()
        invariant
            i <= ms@.len(),
            mm == models(ms@),
            nn == models(ns@),
            each_accepts_some(mm, nn) == each_accepts_some(mm.skip(i as int), nn),
        decreases ms@.len() - i,
    {
        proof {
            lemma_member_size(mm, i as int);
            assert(mm.skip(i as int).drop_first() =~= mm.skip(i + 1));
            assert(mm.skip(i as int)[0] == ms@[i as int]@);
        }
        if !matches_some(&ms[i], ns) {
            return false;
        }
        i += 1;
    }
    proof {
        assert(mm.skip(i as int).len() == 0);
    }
    true
}

/// Whether no member of `ms` accepts any member of `ns`.
fn disjoint(ms: &Vec<Type>, ns: &Vec<Type>) -> (r: bool)
    ensures
        r == none_accepts_any(models(ms@), models(ns@)),
    decreases sizes(models(ms@)) + sizes(models(ns@)) + 1, 0int,
{
    let ghost mm = models(ms@);
    let ghost nn = models(ns@);
    let mut i: usize = 0;
    assert(mm.skip(0) =~= mm);
    while i < ms.len()
        invariant
            i <= ms@.len(),
            mm == models(ms@),
            nn == models(ns@),
            none_accepts_any(mm, nn) == none_accepts_any(mm.skip(i as int), nn),
        decreases ms@.len() - i,
    {
        proof {
            lemma_member_size(mm, i as int);
            assert(mm.skip(i as int).drop_first() =~= mm.skip(i + 1));
            assert(mm.skip(i as int)[0] == ms@[i as int]@);
        }
        if matches_some(&ms[i], ns) {
            return false;
        }
        i += 1;
    }
    proof {
        assert(mm.skip(i as int).len() == 0);
    }
    true
}

/// Whether two sequences have one length and each member of `xs` accepts the
/// member of `ys` at its position.
fn pairwise(xs: &Vec<Type>, ys: &Vec<Type>) -> (r: bool)
    ensures
        r == accepts_pairwise(models(xs@), models(ys@)),
    decreases sizes(models(xs@)) + sizes(models(ys@)) + 1, 0int,
{
    if xs.len() != ys.len() {
        return false;
    }
    let ghost xm = models(xs@);
    let ghost ym = models(ys@);
    let mut i: usize = 0;
    assert(xm.skip(0) =~= xm);
    assert(ym.skip(0) =~= ym);
    while i < xs.len()
        invariant
            i <= xs@.len(),
            xs@.len() == ys@.len(),
            xm == models(xs@),
            ym == models(ys@),
            accepts_pairwise(xm, ym) == accepts_pairwise(xm.skip(i as int), ym.skip(i as int)),
        decreases xs@.len() - i,
    {
        proof {
            lemma_member_size(xm, i as int);
            lemma_member_size(ym, i as int);
            assert(xm.skip(i as int).drop_first() =~= xm.skip(i + 1));
            assert(ym.skip(i as int).drop_first() =~= ym.skip(i + 1));
            assert(xm.skip(i as int)[0] == xs@[i as int]@);
            assert(ym.skip(i as int)[0] == ys@[i as int]@);
        }
        if !xs[i].matches(&ys[i]) {
            return false;
        }
        i += 1;
    }
    proof {
        assert(xm.skip(i as int).len() == 0);
    }
    true
}

} // verus!
