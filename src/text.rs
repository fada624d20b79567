//! The text form of type descriptors.
use crate::types::{models, Type, TypeModel};
use vstd::prelude::*;

verus! {

/// The text of a type: its keyword, a tuple as its members' texts between
/// parentheses, a union or scission as its members' texts between brackets.
pub open spec fn type_text(t: TypeModel) -> Seq<char>
    decreases t,
{
    match t {
        TypeModel::Any => "any"@,
        TypeModel::Undefined => "undefined"@,
        TypeModel::Int => "int"@,
        TypeModel::Float => "float"@,
        TypeModel::Bool => "bool"@,
        TypeModel::String => "str"@,
        TypeModel::Tuple(ts) => "("@ + joined(ts, ", "@) + ")"@,
        TypeModel::Vector(_) => "vec"@,
        TypeModel::Object => "obj"@,
        TypeModel::Proc => "proc"@,
        TypeModel::ForeignProc => "foreign-proc"@,
        TypeModel::Type => "type"@,
        TypeModel::Union(ts) => "union["@ + joined(ts, "|"@) + "]"@,
        TypeModel::Scission(ts) => "scission["@ + joined(ts, "|"@) + "]"@,
    }
}

/// The texts of `ts` with `sep` between each two.
pub open spec fn joined(ts: Seq<TypeModel>, sep: Seq<char>) -> Seq<char>
    decreases ts,
{
    if ts.len() == 0 {
        Seq::empty()
    } else if ts.len() == 1 {
        type_text(ts[0])
    } else {
        joined(ts.drop_last(), sep) + sep + type_text(ts.last())
    }
}

/// Relies on `String::push_str`: appends `t` to the end of `s`.
#[verifier::external_body]
fn append(s: &mut String, t: &str)
    ensures
        final(s)@ == old(s)@ + t@,
{
    s.push_str(t)
}

impl Type {
    /// The text of this type: the function [`type_text`].
    pub fn describe(&self) -> (r: String)
        ensures
            r@ == type_text(self@),
    {
        let mut out = String::new();
        self.write_text(&mut out);
        assert(out@ =~= Seq::<char>::empty() + type_text(self@));
        out
    }

    /// Appends the text of this type to `out`.
    fn write_text(&self, out: &mut String)
        ensures
            final(out)@ == old(out)@ + type_text(self@),
        decreases self,
    {
        let ghost start = out@;
        match self {
            Type::Any => append(out, "any"),
            Type::Undefined => append(out, "undefined"),
            Type::Int => append(out, "int"),
            Type::Float => append(out, "float"),
            Type::Bool => append(out, "bool"),
            Type::String => append(out, "str"),
            Type::Tuple(ts) => {
                append(out, "(");
                write_joined(ts, ", ", out);
                append(out, ")");
                assert(out@ =~= start + type_text(self@));
            },
            Type::Vector(_) => append(out, "vec"),
            Type::Object => append(out, "obj"),
            Type::Proc => append(out, "proc"),
            Type::ForeignProc => append(out, "foreign-proc"),
            Type::Type => append(out, "type"),
            Type::Union(ts) => {
                append(out, "union[");
                write_joined(ts, "|", out);
                append(out, "]");
                assert(out@ =~= start + type_text(self@));
            },
            Type::Scission(ts) => {
                append(out, "scission[");
                write_joined(ts, "|", out);
                append(out, "]");
                assert(out@ =~= start + type_text(self@));
            },
        }
    }
}

/// Appends the texts of `ts`, with `sep` between each two, to `out`.
fn write_joined(ts: &Vec<Type>, sep: &str, out: &mut String)
    ensures
        final(out)@ == old(out)@ + joined(models(ts@), sep@),
    decreases ts,
{
    let ghost start = out@;
    let ghost mm = models(ts@);
    let mut i: usize = 0;
    assert(mm.take(0) =~= Seq::<TypeModel>::empty());
    assert(out@ =~= start + joined(mm.take(0), sep@));
    while i < ts.len()
        invariant
            i <= ts@.len(),
            mm == models(ts@),
            out@ == start + joined(mm.take(i as int), sep@),
        decreases ts@.len() - i,
    {
        let ghost before = out@;
        let ghost prefix = mm.take(i + 1);
        proof {
            assert(prefix.drop_last() =~= mm.take(i as int));
            assert(prefix.last() == ts@[i as int]@);
        }
        if i > 0 {
            append(out, sep);
        }
        ts[i].write_text(out);
        proof {
            if i == 0 {
                assert(prefix.len() == 1);
                assert(prefix[0] == ts@[0]@);
                assert(out@ =~= start + joined(prefix, sep@));
            } else {
                assert(out@ =~= start + joined(prefix, sep@));
            }
        }
        i += 1;
    }
    assert(mm.take(i as int) =~= mm);
}

} // verus!
