use vstd::prelude::*;

use crate::error::Error;
use crate::parser::{ASTRootType, RootDeclaration, AST};
use crate::types::{
    find_position, SmithCustomTyp, SmithCustomTypVariant, SmithEnum, SmithProgram, SmithStruct,
    SmithType,
};
use vstd::string::StringExecFns;

verus! {

/// The canonical printed form of a type: `Name<arg1,arg2>`, `Array<T>`, keywords verbatim.
pub open spec fn mangled(t: SmithType<String>) -> Seq<char>
    decreases t,
{
    match t {
        SmithType::I8 => "i8"@,
        SmithType::I16 => "i16"@,
        SmithType::I32 => "i32"@,
        SmithType::F32 => "f32"@,
        SmithType::F64 => "f64"@,
        SmithType::U8 => "u8"@,
        SmithType::U16 => "u16"@,
        SmithType::U32 => "u32"@,
        SmithType::U64 => "u64"@,
        SmithType::UInt => "udInt"@,
        SmithType::Bool => "bool"@,
        SmithType::String => "string"@,
        SmithType::CustomType(n, args) => if args@.len() == 0 {
            n@
        } else {
            n@ + "<"@ + mangled_args(args@) + ">"@
        },
        SmithType::Array(e) => "Array<"@ + mangled(*e) + ">"@,
    }
}

/// The printed forms of `args`, separated by commas.
pub open spec fn mangled_args(args: Seq<SmithType<String>>) -> Seq<char>
    decreases args,
{
    if args.len() == 0 {
        Seq::empty()
    } else if args.len() == 1 {
        mangled(args[0])
    } else {
        mangled_args(args.drop_last()) + ","@ + mangled(args.last())
    }
}

/// Whether `t` refers anywhere to a custom type named `n`.
pub open spec fn mentions(t: SmithType<String>, n: Seq<char>) -> bool
    decreases t,
{
    match t {
        SmithType::CustomType(m, args) => m@ == n || mentions_any(args@, n),
        SmithType::Array(e) => mentions(*e, n),
        _ => false,
    }
}

pub open spec fn mentions_any(args: Seq<SmithType<String>>, n: Seq<char>) -> bool
    decreases args,
{
    args.len() > 0 && (mentions_any(args.drop_last(), n) || mentions(args.last(), n))
}

pub proof fn lemma_mentions_any(args: Seq<SmithType<String>>, n: Seq<char>)
    ensures
        mentions_any(args, n) <==> exists|i: int| 0 <= i < args.len() && mentions(#[trigger] args[i], n),
    decreases args.len(),
{
    if args.len() > 0 {
        lemma_mentions_any(args.drop_last(), n);
        if mentions_any(args.drop_last(), n) {
            let i = choose|i: int| 0 <= i < args.drop_last().len() && mentions(#[trigger] args.drop_last()[i], n);
            assert(args[i] == args.drop_last()[i]);
        }
        if exists|i: int| 0 <= i < args.len() && mentions(#[trigger] args[i], n) {
            let i = choose|i: int| 0 <= i < args.len() && mentions(#[trigger] args[i], n);
            if i < args.len() - 1 {
                assert(args.drop_last()[i] == args[i]);
            }
        }
    }
}

/// Whether `n` is one of the generic parameter names `params`.
pub open spec fn is_param(params: Seq<String>, n: Seq<char>) -> bool {
    exists|i: int| 0 <= i < params.len() && (#[trigger] params[i])@ == n
}

/// Index of the first parameter at or after `i` named `n`.
pub open spec fn param_from(params: Seq<String>, n: Seq<char>, i: int) -> Option<nat>
    decreases params.len() - i,
{
    if i < 0 || i >= params.len() {
        None
    } else if params[i]@ == n {
        Some(i as nat)
    } else {
        param_from(params, n, i + 1)
    }
}

/// Position of the first parameter named `n`.
pub open spec fn param_index(params: Seq<String>, n: Seq<char>) -> Option<nat> {
    param_from(params, n, 0)
}

pub proof fn lemma_param_from(params: Seq<String>, n: Seq<char>, i: int)
    requires
        0 <= i <= params.len(),
    ensures
        match param_from(params, n, i) {
            Some(k) => i <= k < params.len() && params[k as int]@ == n,
            None => forall|j: int| i <= j < params.len() ==> (#[trigger] params[j])@ != n,
        },
    decreases params.len() - i,
{
    if i < params.len() && params[i]@ != n {
        lemma_param_from(params, n, i + 1);
    }
}

/// `a` and `b` are the same type: same shape, same primitives, names with the same characters.
pub open spec fn ty_same(a: SmithType<String>, b: SmithType<String>) -> bool
    decreases a,
{
    match a {
        SmithType::CustomType(n, args) => b matches SmithType::CustomType(m, bargs) && n@ == m@
            && tys_same(args@, bargs@),
        SmithType::Array(e) => b matches SmithType::Array(f) && ty_same(*e, *f),
        _ => a == b,
    }
}

pub open spec fn tys_same(s: Seq<SmithType<String>>, t: Seq<SmithType<String>>) -> bool
    decreases s,
{
    s.len() == t.len() && (s.len() == 0 || (tys_same(s.drop_last(), t.drop_last()) && ty_same(
        s.last(),
        t.last(),
    )))
}

/// Some parameter of `params` is given type arguments in `t`.
pub open spec fn applies_param(t: SmithType<String>, params: Seq<String>) -> bool
    decreases t,
{
    match t {
        SmithType::CustomType(n, args) => match param_index(params, n@) {
            Some(_) => args@.len() > 0,
            None => any_applies(args@, params),
        },
        SmithType::Array(e) => applies_param(*e, params),
        _ => false,
    }
}

pub open spec fn any_applies(s: Seq<SmithType<String>>, params: Seq<String>) -> bool
    decreases s,
{
    s.len() > 0 && (any_applies(s.drop_last(), params) || applies_param(s.last(), params))
}

pub proof fn lemma_any_applies_index(s: Seq<SmithType<String>>, params: Seq<String>, i: int)
    requires
        0 <= i < s.len(),
        applies_param(s[i], params),
    ensures
        any_applies(s, params),
    decreases s.len(),
{
    if i < s.len() - 1 {
        assert(s.drop_last()[i] == s[i]);
        lemma_any_applies_index(s.drop_last(), params, i);
    }
}

/// `u` is `t` with each parameter `params[k]` (used without arguments)
/// replaced by `dep[k]`, at any depth.
pub open spec fn subst_to(
    t: SmithType<String>,
    params: Seq<String>,
    dep: Seq<SmithType<String>>,
    u: SmithType<String>,
) -> bool
    decreases t,
{
    match t {
        SmithType::CustomType(n, args) => match param_index(params, n@) {
            Some(k) => args@.len() == 0 && k < dep.len() && ty_same(dep[k as int], u),
            None => u matches SmithType::CustomType(m, uargs) && m@ == n@ && substs_to(
                args@,
                params,
                dep,
                uargs@,
            ),
        },
        SmithType::Array(e) => u matches SmithType::Array(f) && subst_to(*e, params, dep, *f),
        _ => u == t,
    }
}

pub open spec fn substs_to(
    s: Seq<SmithType<String>>,
    params: Seq<String>,
    dep: Seq<SmithType<String>>,
    us: Seq<SmithType<String>>,
) -> bool
    decreases s,
{
    s.len() == us.len() && (s.len() == 0 || (substs_to(s.drop_last(), params, dep, us.drop_last())
        && subst_to(s.last(), params, dep, us.last())))
}

impl SmithType<String> {
    /// Appends the mangled name of this type.
    pub fn write_self(&self, buff: &mut String)
        ensures
            final(buff)@ == old(buff)@ + mangled(*self),
        decreases self,
    {
        match self {
            SmithType::I8 => buff.append("i8"),
            SmithType::I16 => buff.append("i16"),
            SmithType::I32 => buff.append("i32"),
            SmithType::F32 => buff.append("f32"),
            SmithType::F64 => buff.append("f64"),
            SmithType::U8 => buff.append("u8"),
            SmithType::U16 => buff.append("u16"),
            SmithType::U32 => buff.append("u32"),
            SmithType::U64 => buff.append("u64"),
            SmithType::UInt => buff.append("udInt"),
            SmithType::Bool => buff.append("bool"),
            SmithType::String => buff.append("string"),
            SmithType::CustomType(name, gen) => {
                buff.append(name.as_str());
                if gen.len() > 0 {
                    buff.append("<");
                    write_args(gen, buff);
                    buff.append(">");
                    proof {
                        assert(buff@ =~= old(buff)@ + mangled(*self));
                    }
                }
            },
            SmithType::Array(t) => {
                buff.append("Array<");
                t.write_self(buff);
                buff.append(">");
                proof {
                    assert(buff@ =~= old(buff)@ + mangled(*self));
                }
            },
        }
    }

    /// A copy of this type, with the same printed form and the same references.
    pub fn deep_clone(&self) -> (r: SmithType<String>)
        ensures
            ty_same(*self, r),
            mangled(r) == mangled(*self),
            forall|n: Seq<char>| mentions(r, n) == mentions(*self, n),
        decreases self,
    {
        match self {
            SmithType::I8 => SmithType::I8,
            SmithType::I16 => SmithType::I16,
            SmithType::I32 => SmithType::I32,
            SmithType::F32 => SmithType::F32,
            SmithType::F64 => SmithType::F64,
            SmithType::U8 => SmithType::U8,
            SmithType::U16 => SmithType::U16,
            SmithType::U32 => SmithType::U32,
            SmithType::U64 => SmithType::U64,
            SmithType::UInt => SmithType::UInt,
            SmithType::Bool => SmithType::Bool,
            SmithType::String => SmithType::String,
            SmithType::CustomType(name, gen) => {
                let out = clone_args(gen);
                let nm = name.clone();
                assert(nm@ == name@);
                assert(tys_same(gen@, out@));
                let r = SmithType::CustomType(nm, out);
                assert(r->CustomType_1@ == out@);
                assert(ty_same(*self, r));
                assert forall|n: Seq<char>| mentions(r, n) == mentions(*self, n) by {
                    assert(mentions(r, n) == (name@ == n || mentions_any(out@, n)));
                    assert(mentions(*self, n) == (name@ == n || mentions_any(gen@, n)));
                }
                r
            },
            SmithType::Array(t) => {
                let c = t.deep_clone();
                let r = SmithType::Array(Box::new(c));
                assert(ty_same(*self, r));
                assert forall|n: Seq<char>| mentions(r, n) == mentions(*self, n) by {
                    assert(mentions(r, n) == mentions(c, n));
                }
                r
            },
        }
    }
}

fn write_args(gen: &Vec<SmithType<String>>, buff: &mut String)
    ensures
        final(buff)@ == old(buff)@ + mangled_args(gen@),
    decreases gen,
{
    let ghost start = buff@;
    let mut i: usize = 0;
    while i < gen.len()
        invariant
            0 <= i <= gen@.len(),
            buff@ == start + mangled_args(gen@.take(i as int)),
        decreases gen@.len() - i,
    {
        proof {
            assert(gen@.take(i + 1).drop_last() =~= gen@.take(i as int));
            assert(gen@.take(i + 1).last() == gen@[i as int]);
        }
        if i > 0 {
            buff.append(",");
        }
        gen[i].write_self(buff);
        proof {
            if i == 0 {
                assert(gen@.take(1)[0] == gen@[0]);
                assert(buff@ =~= start + mangled_args(gen@.take(1)));
            } else {
                assert(buff@ =~= start + mangled_args(gen@.take(i + 1)));
            }
        }
        i = i + 1;
    }
    proof {
        assert(gen@.take(i as int) =~= gen@);
    }
}

fn clone_args(gen: &Vec<SmithType<String>>) -> (out: Vec<SmithType<String>>)
    ensures
        out@.len() == gen@.len(),
        tys_same(gen@, out@),
        mangled_args(out@) == mangled_args(gen@),
        forall|n: Seq<char>| mentions_any(out@, n) == mentions_any(gen@, n),
    decreases gen,
{
    let mut out: Vec<SmithType<String>> = Vec::new();
    let mut i: usize = 0;
    while i < gen.len()
        invariant
            0 <= i <= gen@.len(),
            out@.len() == i,
            tys_same(gen@.take(i as int), out@),
            mangled_args(out@) == mangled_args(gen@.take(i as int)),
            forall|n: Seq<char>| mentions_any(out@, n) == mentions_any(gen@.take(i as int), n),
        decreases gen@.len() - i,
    {
        let c = gen[i].deep_clone();
        proof {
            assert(gen@.take(i + 1).drop_last() =~= gen@.take(i as int));
            assert(gen@.take(i + 1).last() == gen@[i as int]);
            assert(out@.push(c).drop_last() =~= out@);
            assert(out@.push(c).last() == c);
            if i == 0 {
                assert(out@.push(c)[0] == c);
                assert(gen@.take(1)[0] == gen@[0]);
            }
            assert forall|n: Seq<char>| mentions_any(out@.push(c), n) == mentions_any(gen@.take(i + 1), n) by {
                assert(mentions_any(out@.push(c), n) == (mentions_any(out@, n) || mentions(c, n)));
                assert(mentions_any(gen@.take(i + 1), n) == (mentions_any(gen@.take(i as int), n) || mentions(gen@[i as int], n)));
            }
        }
        out.push(c);
        i = i + 1;
    }
    proof {
        assert(gen@.take(i as int) =~= gen@);
    }
    out
}

/// Position of `n` among the parameter names.
fn find_param(params: &Vec<String>, n: &String) -> (r: Option<usize>)
    ensures
        r matches Some(k) ==> k < params@.len() && params@[k as int]@ == n@,
        r is None ==> !is_param(params@, n@),
        match param_index(params@, n@) {
            Some(k) => r is Some && r->0 == k,
            None => r is None,
        },
{
    let mut i: usize = 0;
    while i < params.len()
        invariant
            0 <= i <= params@.len(),
            forall|j: int| 0 <= j < i ==> (#[trigger] params@[j])@ != n@,
            param_index(params@, n@) == param_from(params@, n@, i as int),
        decreases params@.len() - i,
    {
        proof {
            lemma_param_from(params@, n@, i as int);
        }
        if params[i].eq(n) {
            return Some(i);
        }
        i = i + 1;
    }
    None
}

/// Replaces each parameter name in `field` by the type argument at its position.
pub fn expand_field(
    field: &SmithType<String>,
    params: &Vec<String>,
    dep: &Vec<SmithType<String>>,
) -> (r: Result<SmithType<String>, Error>)
    requires
        params@.len() == dep@.len(),
    ensures
        r matches Ok(u) ==> forall|n: Seq<char>|
            #[trigger] mentions(u, n) ==> (mentions(*field, n) && !is_param(params@, n))
                || mentions_any(dep@, n),
        r is Err <==> applies_param(*field, params@),
        r matches Ok(u) ==> subst_to(*field, params@, dep@, u),
        r matches Err(e) ==> e == Error::GenericWithArguments,
    decreases field,
{
    match field {
        SmithType::CustomType(name, gen) => {
            match find_param(params, name) {
                Some(k) => {
                    if gen.len() > 0 {
                        return Err(Error::GenericWithArguments);
                    }
                    let u = dep[k].deep_clone();
                    proof {
                        lemma_mentions_any(dep@, name@);
                        assert forall|n: Seq<char>| #[trigger] mentions(u, n) implies mentions_any(dep@, n) by {
                            lemma_mentions_any(dep@, n);
                            assert(mentions(dep@[k as int], n));
                        }
                    }
                    Ok(u)
                },
                None => {
                    let out = expand_args(gen, params, dep)?;
                    let r = SmithType::CustomType(name.clone(), out);
                    proof {
                        assert forall|n: Seq<char>| #[trigger] mentions(r, n) implies (mentions(*field, n) && !is_param(params@, n))
                                || mentions_any(dep@, n) by {
                            assert(mentions(r, n) == (name@ == n || mentions_any(out@, n)));
                            assert(mentions(*field, n) == (name@ == n || mentions_any(gen@, n)));
                            if name@ == n {
                                assert(!is_param(params@, n));
                            }
                        }
                    }
                    Ok(r)
                },
            }
        },
        SmithType::Array(t) => {
            let u = expand_field(t, params, dep)?;
            let r = SmithType::Array(Box::new(u));
            assert(subst_to(*field, params@, dep@, r));
            assert forall|n: Seq<char>| #[trigger] mentions(r, n) implies (mentions(*field, n) && !is_param(params@, n))
                    || mentions_any(dep@, n) by {
                assert(mentions(r, n) == mentions(u, n));
            }
            Ok(r)
        },
        _ => Ok(field.deep_clone()),
    }
}

fn expand_args(
    gen: &Vec<SmithType<String>>,
    params: &Vec<String>,
    dep: &Vec<SmithType<String>>,
) -> (r: Result<Vec<SmithType<String>>, Error>)
    requires
        params@.len() == dep@.len(),
    ensures
        r matches Ok(out) ==> forall|n: Seq<char>|
            #[trigger] mentions_any(out@, n) ==> (mentions_any(gen@, n) && !is_param(params@, n))
                || mentions_any(dep@, n),
        r is Err <==> any_applies(gen@, params@),
        r matches Ok(out) ==> substs_to(gen@, params@, dep@, out@),
        r matches Err(e) ==> e == Error::GenericWithArguments,
    decreases gen,
{
    let mut out: Vec<SmithType<String>> = Vec::new();
    let mut i: usize = 0;
    proof {
        assert(gen@.take(0) =~= Seq::<SmithType<String>>::empty());
    }
    while i < gen.len()
        invariant
            0 <= i <= gen@.len(),
            params@.len() == dep@.len(),
            !any_applies(gen@.take(i as int), params@),
            substs_to(gen@.take(i as int), params@, dep@, out@),
            forall|n: Seq<char>|
                #[trigger] mentions_any(out@, n) ==> (mentions_any(gen@, n) && !is_param(params@, n))
                    || mentions_any(dep@, n),
        decreases gen@.len() - i,
    {
        proof {
            assert(gen@.take(i + 1).drop_last() =~= gen@.take(i as int));
            assert(gen@.take(i + 1).last() == gen@[i as int]);
        }
        let u = match expand_field(&gen[i], params, dep) {
            Ok(u) => u,
            Err(e) => {
                proof {
                    lemma_any_applies_index(gen@, params@, i as int);
                }
                return Err(e);
            },
        };
        proof {
            assert(out@.push(u).drop_last() =~= out@);
            assert(out@.push(u).last() == u);
            assert forall|n: Seq<char>| #[trigger] mentions_any(out@.push(u), n) implies (mentions_any(gen@, n) && !is_param(params@, n))
                    || mentions_any(dep@, n) by {
                assert(mentions_any(out@.push(u), n) == (mentions_any(out@, n) || mentions(u, n)));
                if mentions(u, n) && !mentions_any(dep@, n) {
                    assert(mentions(gen@[i as int], n));
                    lemma_mentions_any(gen@, n);
                }
            }
        }
        out.push(u);
        i = i + 1;
    }
    proof {
        assert(gen@.take(i as int) =~= gen@);
    }
    Ok(out)
}

/// No field or payload type of `c` refers to any of the names `params`,
/// but through what `dep` refers to.
pub open spec fn closed_over(c: SmithCustomTyp<String>, params: Seq<String>, dep: Seq<SmithType<String>>) -> bool {
    match c.variant {
        SmithCustomTypVariant::Struct(s) => forall|i: int, n: Seq<char>|
            0 <= i < s.fields@.len() && is_param(params, n) && #[trigger] mentions(s.fields@[i].1, n)
                ==> mentions_any(dep, n),
        SmithCustomTypVariant::Enum(e) => forall|i: int, n: Seq<char>|
            0 <= i < e.variants@.len() && is_param(params, n) && e.variants@[i].1 is Some
                && #[trigger] mentions(e.variants@[i].1->0, n) ==> mentions_any(dep, n),
    }
}

/// Some field or payload type of `b` gives a parameter of `params` type arguments.
pub open spec fn decl_applies(b: ASTRootType, params: Seq<String>) -> bool {
    match b {
        ASTRootType::Struct(s) => exists|i: int|
            0 <= i < s.fields@.len() && applies_param((#[trigger] s.fields@[i]).1, params),
        ASTRootType::Enum(e) => exists|i: int|
            0 <= i < e.variants@.len() && (#[trigger] e.variants@[i]).1 is Some && applies_param(
                e.variants@[i].1->0,
                params,
            ),
    }
}

/// `c` is declaration `b` with its parameters replaced by `dep`: same kind,
/// field and variant names in order, same payload presence, each type substituted.
pub open spec fn instantiates(b: ASTRootType, dep: Seq<SmithType<String>>, c: SmithCustomTyp<String>) -> bool {
    let params = b.spec_generics();
    match b {
        ASTRootType::Struct(s) => c.variant matches SmithCustomTypVariant::Struct(cs)
            && cs.fields@.len() == s.fields@.len() && forall|i: int|
            0 <= i < s.fields@.len() ==> (#[trigger] cs.fields@[i]).0@ == s.fields@[i].0@
                && subst_to(s.fields@[i].1, params, dep, cs.fields@[i].1),
        ASTRootType::Enum(e) => c.variant matches SmithCustomTypVariant::Enum(ce)
            && ce.variants@.len() == e.variants@.len() && forall|i: int|
            0 <= i < e.variants@.len() ==> (#[trigger] ce.variants@[i]).0@ == e.variants@[i].0@
                && match (e.variants@[i].1, ce.variants@[i].1) {
                (Some(t), Some(u)) => subst_to(t, params, dep, u),
                (None, None) => true,
                _ => false,
            },
    }
}

/// Instantiates `blueprint` with type arguments `dep` under the name `name`.
pub fn expand_generic(blueprint: &ASTRootType, dep: &Vec<SmithType<String>>, name: String) -> (r: Result<SmithCustomTyp<String>, Error>)
    ensures
        r matches Ok(c) ==> closed_over(c, blueprint.spec_generics(), dep@) && c.id == 0,
        r matches Ok(c) ==> crate::types::custom_name(c) == name@,
        r matches Ok(c) ==> instantiates(*blueprint, dep@, c),
        dep@.len() != blueprint.spec_generics().len() ==> r == Err::<SmithCustomTyp<String>, Error>(
            Error::GenericArityMismatch,
        ),
        dep@.len() == blueprint.spec_generics().len() ==> (r is Err <==> decl_applies(
            *blueprint,
            blueprint.spec_generics(),
        )),
        dep@.len() == blueprint.spec_generics().len() ==> (r matches Err(e) ==> e
            == Error::GenericWithArguments),
{
    let params = blueprint.generics();
    if params.len() != dep.len() {
        return Err(Error::GenericArityMismatch);
    }
    match blueprint {
        ASTRootType::Struct(s) => {
            let mut fields: Vec<(String, SmithType<String>)> = Vec::new();
            let mut i: usize = 0;
            while i < s.fields.len()
                invariant
                    0 <= i <= s.fields@.len(),
                    params@ == blueprint.spec_generics(),
                    params@.len() == dep@.len(),
                    fields@.len() == i,
                    *blueprint == ASTRootType::Struct(*s),
                    forall|j: int, n: Seq<char>|
                        0 <= j < i && is_param(params@, n) && #[trigger] mentions(fields@[j].1, n)
                            ==> mentions_any(dep@, n),
                    forall|j: int| 0 <= j < i ==> (#[trigger] fields@[j]).0@ == s.fields@[j].0@
                        && subst_to(s.fields@[j].1, params@, dep@, fields@[j].1),
                    forall|j: int| 0 <= j < i ==> !applies_param((#[trigger] s.fields@[j]).1, params@),
                decreases s.fields@.len() - i,
            {
                let u = match expand_field(&s.fields[i].1, params, dep) {
                    Ok(u) => u,
                    Err(err) => {
                        assert(applies_param(s.fields@[i as int].1, params@));
                        return Err(err);
                    },
                };
                let fname = s.fields[i].0.clone();
                fields.push((fname, u));
                i = i + 1;
            }
            proof {
                assert(!decl_applies(*blueprint, params@));
            }
            Ok(SmithCustomTyp { variant: SmithCustomTypVariant::Struct(SmithStruct { name, fields }), id: 0 })
        },
        ASTRootType::Enum(e) => {
            let mut variants: Vec<(String, Option<SmithType<String>>)> = Vec::new();
            let mut i: usize = 0;
            while i < e.variants.len()
                invariant
                    0 <= i <= e.variants@.len(),
                    params@ == blueprint.spec_generics(),
                    params@.len() == dep@.len(),
                    variants@.len() == i,
                    *blueprint == ASTRootType::Enum(*e),
                    forall|j: int, n: Seq<char>|
                        0 <= j < i && is_param(params@, n) && variants@[j].1 is Some && #[trigger] mentions(variants@[j].1->0, n)
                            ==> mentions_any(dep@, n),
                    forall|j: int| 0 <= j < i ==> (#[trigger] variants@[j]).0@ == e.variants@[j].0@
                        && match (e.variants@[j].1, variants@[j].1) {
                        (Some(t), Some(u)) => subst_to(t, params@, dep@, u),
                        (None, None) => true,
                        _ => false,
                    },
                    forall|j: int| 0 <= j < i ==> !((#[trigger] e.variants@[j]).1 is Some && applies_param(e.variants@[j].1->0, params@)),
                decreases e.variants@.len() - i,
            {
                let payload = match &e.variants[i].1 {
                    None => None,
                    Some(t) => match expand_field(t, params, dep) {
                        Ok(u) => Some(u),
                        Err(err) => {
                            assert(e.variants@[i as int].1 is Some && applies_param(e.variants@[i as int].1->0, params@));
                            return Err(err);
                        },
                    },
                };
                let vname = e.variants[i].0.clone();
                variants.push((vname, payload));
                i = i + 1;
            }
            proof {
                assert(!decl_applies(*blueprint, params@));
            }
            Ok(SmithCustomTyp { variant: SmithCustomTypVariant::Enum(SmithEnum { name, variants }), id: 0 })
        },
    }
}

} // verus!

verus! {

/// How deep instantiations may nest before expansion gives up.
pub const MAX_EXPANSION_DEPTH: usize = 64;

/// How many instantiations expansion may create.
pub const MAX_INSTANCES: usize = 4096;

/// The names of the entries of `out` are pairwise distinct.
pub open spec fn names_distinct(out: Seq<SmithCustomTyp<String>>) -> bool {
    forall|i: int, j: int|
        0 <= i < j < out.len() ==> crate::types::custom_name(#[trigger] out[i])
            != crate::types::custom_name(#[trigger] out[j])
}

fn find_root(roots: &Vec<ASTRootType>, name: &String) -> (r: Option<usize>)
    ensures
        r matches Some(k) ==> k < roots@.len() && roots@[k as int].spec_name() == name@,
{
    let mut i: usize = 0;
    while i < roots.len()
        invariant
            0 <= i <= roots@.len(),
        decreases roots@.len() - i,
    {
        if roots[i].name().eq(name) {
            return Some(i);
        }
        i = i + 1;
    }
    None
}

/// Copies of the field types of a struct, or of the payload types of an enum.
fn field_types(root: &SmithCustomTyp<String>) -> (out: Vec<SmithType<String>>)
    ensures
        match root.variant {
            SmithCustomTypVariant::Struct(s) => out@.len() == s.fields@.len() && forall|i: int|
                0 <= i < s.fields@.len() ==> ty_same((#[trigger] s.fields@[i]).1, out@[i]),
            SmithCustomTypVariant::Enum(e) => forall|i: int|
                0 <= i < e.variants@.len() && (#[trigger] e.variants@[i]).1 is Some ==> exists|j: int|
                    0 <= j < out@.len() && #[trigger] ty_same(e.variants@[i].1->0, out@[j]),
        },
{
    let mut out: Vec<SmithType<String>> = Vec::new();
    match &root.variant {
        SmithCustomTypVariant::Struct(s) => {
            let mut i: usize = 0;
            while i < s.fields.len()
                invariant
                    0 <= i <= s.fields@.len(),
                    out@.len() == i,
                    forall|j: int| 0 <= j < i ==> ty_same((#[trigger] s.fields@[j]).1, out@[j]),
                decreases s.fields@.len() - i,
            {
                out.push(s.fields[i].1.deep_clone());
                i = i + 1;
            }
        },
        SmithCustomTypVariant::Enum(e) => {
            let mut i: usize = 0;
            while i < e.variants.len()
                invariant
                    0 <= i <= e.variants@.len(),
                    forall|k: int|
                        0 <= k < i && (#[trigger] e.variants@[k]).1 is Some ==> exists|j: int|
                            0 <= j < out@.len() && #[trigger] ty_same(e.variants@[k].1->0, out@[j]),
                decreases e.variants@.len() - i,
            {
                match &e.variants[i].1 {
                    Some(t) => {
                        let c = t.deep_clone();
                        let ghost before = out@;
                        out.push(c);
                        proof {
                            assert(ty_same(e.variants@[i as int].1->0, out@[out@.len() - 1]));
                            assert forall|k: int|
                                0 <= k < i && (#[trigger] e.variants@[k]).1 is Some implies exists|j: int|
                                    0 <= j < out@.len() && #[trigger] ty_same(e.variants@[k].1->0, out@[j]) by {
                                let j = choose|j: int| 0 <= j < before.len() && #[trigger] ty_same(e.variants@[k].1->0, before[j]);
                                assert(out@[j] == before[j]);
                            }
                        }
                    },
                    None => {},
                }
                i = i + 1;
            }
        },
    }
    out
}

/// The name an instantiation of a declaration named `n` with arguments `dep` takes.
pub open spec fn decl_name(n: Seq<char>, dep: Seq<SmithType<String>>) -> Seq<char> {
    if dep.len() == 0 {
        n
    } else {
        n + "<"@ + mangled_args(dep) + ">"@
    }
}

/// `e` is one of the declarations `decls` with arguments for all its
/// parameters substituted, under the name of that instantiation.
pub open spec fn entry_of(decls: Seq<ASTRootType>, e: SmithCustomTyp<String>) -> bool {
    exists|k: int, dep: Seq<SmithType<String>>|
        0 <= k < decls.len() && dep.len() == decls[k].spec_generics().len() && #[trigger] instantiates(
            decls[k],
            dep,
            e,
        ) && crate::types::custom_name(e) == decl_name(decls[k].spec_name(), dep)
}

pub open spec fn entries_of(decls: Seq<ASTRootType>, imps: Seq<SmithCustomTyp<String>>) -> bool {
    forall|i: int| 0 <= i < imps.len() ==> entry_of(decls, #[trigger] imps[i])
}

/// `b` starts with all of `a`.
pub open spec fn extends(a: Seq<SmithCustomTyp<String>>, b: Seq<SmithCustomTyp<String>>) -> bool {
    a.len() <= b.len() && forall|i: int| 0 <= i < a.len() ==> #[trigger] b[i] == a[i]
}

pub proof fn lemma_extends_push(a: Seq<SmithCustomTyp<String>>, b: Seq<SmithCustomTyp<String>>, x: SmithCustomTyp<String>)
    requires
        extends(a, b),
    ensures
        extends(a, b.push(x)),
{
    assert forall|i: int| 0 <= i < a.len() implies #[trigger] b.push(x)[i] == a[i] by {
        assert(b.push(x)[i] == b[i]);
    }
}

/// The errors that expansion reports.
pub open spec fn expansion_error(e: Error) -> bool {
    e == Error::UnknownType || e == Error::GenericArityMismatch || e == Error::GenericWithArguments
        || e == Error::ExpansionLimit
}

/// The work of expansion: the declarations, and the instantiations made so far.
struct GenericEngine<'a> {
    declarations: &'a Vec<ASTRootType>,
    imps: Vec<SmithCustomTyp<String>>,
}

impl<'a> GenericEngine<'a> {
    /// Checks a type reference and instantiates what it needs, transitively.
    fn do_typ(&mut self, typ: &SmithType<String>, fuel: usize) -> (r: Result<(), Error>)
        requires
            names_distinct(old(self).imps@),
            entries_of(old(self).declarations@, old(self).imps@),
        ensures
            names_distinct(final(self).imps@),
            final(self).declarations == old(self).declarations,
            entries_of(final(self).declarations@, final(self).imps@),
            extends(old(self).imps@, final(self).imps@),
            r matches Err(e) ==> expansion_error(e),
            r is Ok ==> present(*typ, final(self).declarations@, final(self).imps@),
            r is Ok ==> forall|i: int|
                old(self).imps@.len() <= i < final(self).imps@.len() ==> entry_closed(
                    #[trigger] final(self).imps@[i],
                    final(self).declarations@,
                    final(self).imps@,
                ),
        decreases fuel, typ,
    {
        match typ {
            SmithType::CustomType(name, gen) => {
                let k = match find_root(self.declarations, name) {
                    Some(k) => k,
                    None => {
                        return Err(Error::UnknownType);
                    },
                };
                let decls: &'a Vec<ASTRootType> = self.declarations;
                let blueprint: &'a ASTRootType = &decls[k];
                if blueprint.generics().len() != gen.len() {
                    return Err(Error::GenericArityMismatch);
                }
                if gen.len() == 0 {
                    proof {
                        assert(self.declarations@[k as int].spec_name() == name@);
                        assert(base_root(self.declarations@, name@));
                        assert(all_present(gen@, self.declarations@, self.imps@));
                        assert(present(*typ, self.declarations@, self.imps@));
                    }
                    return Ok(());
                }
                self.do_args(gen, fuel)?;
                let ghost mid = self.imps@;
                let mut mangled_name = String::new();
                typ.write_self(&mut mangled_name);
                assert(mangled_name@ == mangled(*typ));
                if find_position(&self.imps, &mangled_name).is_some() {
                    return Ok(());
                }
                if fuel == 0 || self.imps.len() >= MAX_INSTANCES {
                    return Err(Error::ExpansionLimit);
                }
                let ghost key = mangled_name@;
                let inst = expand_generic(blueprint, gen, mangled_name)?;
                let fields = field_types(&inst);
                proof {
                    crate::types::lemma_position_from(self.imps@, key, 0);
                    assert(self.imps@.push(inst).last() == inst);
                    assert forall|i: int, j: int|
                        0 <= i < j < self.imps@.push(inst).len() implies crate::types::custom_name(
                        #[trigger] self.imps@.push(inst)[i],
                    ) != crate::types::custom_name(#[trigger] self.imps@.push(inst)[j]) by {
                        if j == self.imps@.len() {
                            assert(self.imps@.push(inst)[i] == self.imps@[i]);
                        } else {
                            assert(self.imps@.push(inst)[i] == self.imps@[i]);
                            assert(self.imps@.push(inst)[j] == self.imps@[j]);
                        }
                    }
                }
                proof {
                    assert(key == mangled(*typ));
                    assert(decls@[k as int].spec_name() == name@);
                    assert(crate::types::custom_name(inst) == decl_name(decls@[k as int].spec_name(), gen@));
                    assert(instantiates(decls@[k as int], gen@, inst));
                    assert(entry_of(self.declarations@, inst));
                    assert forall|i: int| 0 <= i < self.imps@.push(inst).len() implies entry_of(
                        self.declarations@,
                        #[trigger] self.imps@.push(inst)[i],
                    ) by {
                        if i < self.imps@.len() {
                            assert(self.imps@.push(inst)[i] == self.imps@[i]);
                        }
                    }
                    lemma_extends_push(old(self).imps@, self.imps@, inst);
                }
                self.imps.push(inst);
                let ghost pushed = self.imps@;
                let r = self.do_args(&fields, fuel - 1);
                proof {
                    assert forall|i: int| 0 <= i < old(self).imps@.len() implies #[trigger] self.imps@[i]
                        == old(self).imps@[i] by {
                        assert(self.imps@[i] == pushed[i]);
                        assert(pushed[i] == old(self).imps@[i]);
                    }
                    if r is Ok {
                        let fin = self.imps@;
                        let ds = self.declarations@;
                        assert(extends(mid, fin)) by {
                            assert forall|i: int| 0 <= i < mid.len() implies #[trigger] fin[i] == mid[i] by {
                                assert(fin[i] == pushed[i]);
                                assert(pushed[i] == mid[i]);
                            }
                        }
                        assert(crate::types::position_of(pushed, key) is Some) by {
                            assert forall|j: int| 0 <= j < mid.len() implies crate::types::custom_name(#[trigger] pushed[j]) != key by {
                                assert(pushed[j] == mid[j]);
                            }
                            lemma_position_exact(pushed, key, 0, mid.len() as int);
                        }
                        lemma_position_extends(pushed, fin, key);
                        lemma_all_present_mono(gen@, ds, mid, fin);
                        assert(present(*typ, ds, fin));
                        assert(fin[mid.len() as int] == inst);
                        assert(entry_closed(inst, ds, fin)) by {
                            match inst.variant {
                                SmithCustomTypVariant::Struct(st) => {
                                    assert forall|i: int| 0 <= i < st.fields@.len() implies present((#[trigger] st.fields@[i]).1, ds, fin) by {
                                        lemma_all_present_index(fields@, ds, fin, i);
                                        lemma_present_same(st.fields@[i].1, fields@[i], ds, fin);
                                    }
                                },
                                SmithCustomTypVariant::Enum(en) => {
                                    assert forall|i: int| 0 <= i < en.variants@.len() && (#[trigger] en.variants@[i]).1 is Some implies present(
                                        en.variants@[i].1->0, ds, fin) by {
                                        let j = choose|j: int| 0 <= j < fields@.len() && #[trigger] ty_same(en.variants@[i].1->0, fields@[j]);
                                        lemma_all_present_index(fields@, ds, fin, j);
                                        lemma_present_same(en.variants@[i].1->0, fields@[j], ds, fin);
                                    }
                                },
                            }
                        }
                        assert forall|i: int| old(self).imps@.len() <= i < fin.len() implies entry_closed(#[trigger] fin[i], ds, fin) by {
                            if i < mid.len() {
                                assert(fin[i] == mid[i]);
                                lemma_entry_closed_mono(mid[i], ds, mid, fin);
                            }
                        }
                    }
                }
                r
            },
            SmithType::Array(t) => self.do_typ(t, fuel),
            _ => Ok(()),
        }
    }

    fn do_args(&mut self, gen: &Vec<SmithType<String>>, fuel: usize) -> (r: Result<(), Error>)
        requires
            names_distinct(old(self).imps@),
            entries_of(old(self).declarations@, old(self).imps@),
        ensures
            names_distinct(final(self).imps@),
            final(self).declarations == old(self).declarations,
            entries_of(final(self).declarations@, final(self).imps@),
            extends(old(self).imps@, final(self).imps@),
            r matches Err(e) ==> expansion_error(e),
            r is Ok ==> all_present(gen@, final(self).declarations@, final(self).imps@),
            r is Ok ==> forall|i: int|
                old(self).imps@.len() <= i < final(self).imps@.len() ==> entry_closed(
                    #[trigger] final(self).imps@[i],
                    final(self).declarations@,
                    final(self).imps@,
                ),
        decreases fuel, gen,
    {
        let mut i: usize = 0;
        proof {
            assert(gen@.take(0) =~= Seq::<SmithType<String>>::empty());
        }
        while i < gen.len()
            invariant
                names_distinct(self.imps@),
                self.declarations == old(self).declarations,
                entries_of(self.declarations@, self.imps@),
                extends(old(self).imps@, self.imps@),
                0 <= i <= gen@.len(),
                all_present(gen@.take(i as int), self.declarations@, self.imps@),
                forall|j: int|
                    old(self).imps@.len() <= j < self.imps@.len() ==> entry_closed(
                        #[trigger] self.imps@[j],
                        self.declarations@,
                        self.imps@,
                    ),
            decreases gen@.len() - i,
        {
            let ghost before = self.imps@;
            self.do_typ(&gen[i], fuel)?;
            proof {
                lemma_all_present_mono(gen@.take(i as int), self.declarations@, before, self.imps@);
                assert forall|j: int|
                    old(self).imps@.len() <= j < self.imps@.len() implies entry_closed(
                        #[trigger] self.imps@[j],
                        self.declarations@,
                        self.imps@,
                    ) by {
                    if j < before.len() {
                        assert(self.imps@[j] == before[j]);
                        lemma_entry_closed_mono(before[j], self.declarations@, before, self.imps@);
                    }
                }
                assert(gen@.take(i + 1).drop_last() =~= gen@.take(i as int));
                assert(gen@.take(i + 1).last() == gen@[i as int]);
            }
            i = i + 1;
        }
        proof {
            assert(gen@.take(i as int) =~= gen@);
        }
        Ok(())
    }
}

/// The declarations of `roots` that have generic parameters, in order.
pub open spec fn generic_roots(roots: Seq<ASTRootType>) -> Seq<ASTRootType>
    decreases roots.len(),
{
    if roots.len() == 0 {
        Seq::empty()
    } else if roots.last().spec_generics().len() > 0 {
        generic_roots(roots.drop_last()).push(roots.last())
    } else {
        generic_roots(roots.drop_last())
    }
}

/// Every declaration without generic parameters has an entry of its name in `out`.
pub open spec fn roots_present(roots: Seq<ASTRootType>, out: Seq<SmithCustomTyp<String>>) -> bool {
    forall|j: int|
        0 <= j < roots.len() && (#[trigger] roots[j]).spec_generics().len() == 0 ==> exists|k: int|
            0 <= k < out.len() && crate::types::custom_name(#[trigger] out[k]) == roots[j].spec_name()
}

/// Expands every generic instantiation reachable from the non-generic
/// declarations; the result holds those instantiations under their mangled
/// names, then the non-generic declarations, each name once.
pub fn expand(ast: AST) -> (r: Result<SmithProgram<String>, Error>)
    ensures
        r matches Ok(p) ==> names_distinct(p.expanded@),
        r matches Ok(p) ==> roots_present(ast.0@, p.expanded@),
        r matches Ok(p) ==> entries_of(ast.0@, p.expanded@),
        r matches Ok(p) ==> forall|i: int|
            0 <= i < p.expanded@.len() ==> entry_closed(#[trigger] p.expanded@[i], ast.0@, p.expanded@),
        r matches Ok(p) ==> p.generics@ == generic_roots(ast.0@),
        r matches Err(e) ==> expansion_error(e),
{
    let roots = &ast.0;
    let mut engine = GenericEngine { declarations: roots, imps: Vec::new() };
    let no_args: Vec<SmithType<String>> = Vec::new();
    let mut bases: Vec<SmithCustomTyp<String>> = Vec::new();
    let mut i: usize = 0;
    while i < roots.len()
        invariant
            0 <= i <= roots@.len(),
            names_distinct(engine.imps@),
            engine.declarations == roots,
            entries_of(roots@, engine.imps@),
            no_args@.len() == 0,
            forall|k: int| 0 <= k < engine.imps@.len() ==> entry_closed(#[trigger] engine.imps@[k], roots@, engine.imps@),
            forall|k: int| 0 <= k < bases@.len() ==> entry_closed(#[trigger] bases@[k], roots@, engine.imps@),
            entries_of(roots@, bases@),
            forall|j: int|
                0 <= j < i && (#[trigger] roots@[j]).spec_generics().len() == 0 ==> exists|k: int|
                    0 <= k < bases@.len() && crate::types::custom_name(#[trigger] bases@[k]) == roots@[j].spec_name(),
        decreases roots@.len() - i,
    {
        let ghost before_bases = bases@;
        if roots[i].generics().len() == 0 {
            let base = expand_generic(&roots[i], &no_args, roots[i].name().clone())?;
            let fields = field_types(&base);
            let ghost before = engine.imps@;
            engine.do_args(&fields, MAX_EXPANSION_DEPTH)?;
            proof {
                let ds = roots@;
                let fin = engine.imps@;
                assert forall|k: int| 0 <= k < fin.len() implies entry_closed(#[trigger] fin[k], ds, fin) by {
                    if k < before.len() {
                        assert(fin[k] == before[k]);
                        lemma_entry_closed_mono(before[k], ds, before, fin);
                    }
                }
                assert forall|k: int| 0 <= k < bases@.len() implies entry_closed(#[trigger] bases@[k], ds, fin) by {
                    lemma_entry_closed_mono(bases@[k], ds, before, fin);
                }
                assert(entry_closed(base, ds, fin)) by {
                    match base.variant {
                        SmithCustomTypVariant::Struct(st) => {
                            assert forall|q: int| 0 <= q < st.fields@.len() implies present((#[trigger] st.fields@[q]).1, ds, fin) by {
                                lemma_all_present_index(fields@, ds, fin, q);
                                lemma_present_same(st.fields@[q].1, fields@[q], ds, fin);
                            }
                        },
                        SmithCustomTypVariant::Enum(en) => {
                            assert forall|q: int| 0 <= q < en.variants@.len() && (#[trigger] en.variants@[q]).1 is Some implies present(
                                en.variants@[q].1->0, ds, fin) by {
                                let j = choose|j: int| 0 <= j < fields@.len() && #[trigger] ty_same(en.variants@[q].1->0, fields@[j]);
                                lemma_all_present_index(fields@, ds, fin, j);
                                lemma_present_same(en.variants@[q].1->0, fields@[j], ds, fin);
                            }
                        },
                    }
                }
                assert(entry_of(ds, base)) by {
                    assert(instantiates(ds[i as int], no_args@, base));
                    assert(crate::types::custom_name(base) == decl_name(ds[i as int].spec_name(), no_args@));
                }
            }
            bases.push(base);
            proof {
                assert forall|k: int| 0 <= k < bases@.len() implies entry_closed(#[trigger] bases@[k], roots@, engine.imps@) by {
                    if k < before_bases.len() {
                        assert(bases@[k] == before_bases[k]);
                    }
                }
                assert forall|k: int| 0 <= k < bases@.len() implies entry_of(roots@, #[trigger] bases@[k]) by {
                    if k < before_bases.len() {
                        assert(bases@[k] == before_bases[k]);
                    }
                }
            }
        }
        proof {
            assert forall|j: int|
                0 <= j < i + 1 && (#[trigger] roots@[j]).spec_generics().len() == 0 implies exists|k: int|
                    0 <= k < bases@.len() && crate::types::custom_name(#[trigger] bases@[k]) == roots@[j].spec_name() by {
                if j < i {
                    let k = choose|k: int| 0 <= k < before_bases.len() && crate::types::custom_name(#[trigger] before_bases[k]) == roots@[j].spec_name();
                    assert(bases@[k] == before_bases[k]);
                } else {
                    assert(crate::types::custom_name(bases@[before_bases.len() as int]) == roots@[j].spec_name());
                }
            }
        }
        i = i + 1;
    }
    let mut imps = engine.imps;
    let ghost all = bases@;
    let ghost mut c: int = 0;
    proof {
        assert(all.skip(0) =~= all);
    }
    while bases.len() > 0
        invariant
            0 <= c <= all.len(),
            bases@ == all.skip(c),
            names_distinct(imps@),
            entries_of(roots@, imps@),
            entries_of(roots@, all),
            forall|k: int| 0 <= k < imps@.len() ==> entry_closed(#[trigger] imps@[k], roots@, imps@),
            forall|k: int| 0 <= k < all.len() ==> entry_closed(#[trigger] all[k], roots@, imps@),
            forall|b: int| 0 <= b < c ==> exists|k: int|
                0 <= k < imps@.len() && crate::types::custom_name(#[trigger] imps@[k]) == crate::types::custom_name(#[trigger] all[b]),
            roots == &ast.0,
            forall|j: int|
                0 <= j < roots@.len() && (#[trigger] roots@[j]).spec_generics().len() == 0 ==> exists|k: int|
                    0 <= k < all.len() && crate::types::custom_name(#[trigger] all[k]) == roots@[j].spec_name(),
        decreases bases@.len(),
    {
        let ghost before = imps@;
        let base = bases.remove(0);
        proof {
            assert(base == all[c]);
            assert(bases@ =~= all.skip(c + 1));
        }
        let found = find_position(&imps, base.get_name());
        proof {
            crate::types::lemma_position_from(imps@, crate::types::custom_name(base), 0);
        }
        if found.is_none() {
            proof {
                assert forall|a: int, b: int|
                    0 <= a < b < imps@.push(base).len() implies crate::types::custom_name(
                    #[trigger] imps@.push(base)[a],
                ) != crate::types::custom_name(#[trigger] imps@.push(base)[b]) by {
                    assert(imps@.push(base)[a] == imps@[a]);
                    if b < imps@.len() {
                        assert(imps@.push(base)[b] == imps@[b]);
                    }
                }
                assert forall|a: int| 0 <= a < imps@.push(base).len() implies entry_of(roots@, #[trigger] imps@.push(base)[a]) by {
                    if a < imps@.len() {
                        assert(imps@.push(base)[a] == imps@[a]);
                    }
                }
                lemma_extends_push(imps@, imps@, base);
            }
            imps.push(base);
            proof {
                let ds = roots@;
                assert forall|k: int| 0 <= k < imps@.len() implies entry_closed(#[trigger] imps@[k], ds, imps@) by {
                    if k < before.len() {
                        assert(imps@[k] == before[k]);
                        lemma_entry_closed_mono(before[k], ds, before, imps@);
                    } else {
                        lemma_entry_closed_mono(all[c], ds, before, imps@);
                    }
                }
                assert forall|k: int| 0 <= k < all.len() implies entry_closed(#[trigger] all[k], ds, imps@) by {
                    lemma_entry_closed_mono(all[k], ds, before, imps@);
                }
            }
        }
        proof {
            assert forall|b: int| 0 <= b < c + 1 implies exists|k: int|
                0 <= k < imps@.len() && crate::types::custom_name(#[trigger] imps@[k]) == crate::types::custom_name(#[trigger] all[b]) by {
                if b < c {
                    let k = choose|k: int| 0 <= k < before.len() && crate::types::custom_name(#[trigger] before[k]) == crate::types::custom_name(all[b]);
                    assert(imps@[k] == before[k]);
                } else if imps@.len() > before.len() {
                    assert(imps@[before.len() as int] == all[b]);
                } else {
                    let k = crate::types::position_of(imps@, crate::types::custom_name(all[b]))->0 as int;
                    assert(crate::types::custom_name(imps@[k]) == crate::types::custom_name(all[b]));
                }
            }
        }
        proof {
            c = c + 1;
        }
    }
    proof {
        assert(c == all.len()) by {
            assert(bases@.len() == all.len() - c);
        }
        assert(roots_present(ast.0@, imps@)) by {
            assert forall|j: int|
                0 <= j < ast.0@.len() && (#[trigger] ast.0@[j]).spec_generics().len() == 0 implies exists|k: int|
                    0 <= k < imps@.len() && crate::types::custom_name(#[trigger] imps@[k]) == ast.0@[j].spec_name() by {
                assert(roots@[j] == ast.0@[j]);
                let b = choose|b: int| 0 <= b < all.len() && crate::types::custom_name(#[trigger] all[b]) == roots@[j].spec_name();
                let k = choose|k: int| 0 <= k < imps@.len() && crate::types::custom_name(#[trigger] imps@[k]) == crate::types::custom_name(all[b]);
                assert(crate::types::custom_name(imps@[k]) == ast.0@[j].spec_name());
            }
        }
    }
    let mut rest = ast.0;
    let ghost all_roots = rest@;
    let mut gens: Vec<ASTRootType> = Vec::new();
    let ghost mut taken: int = 0;
    proof {
        assert(all_roots.skip(0) =~= all_roots);
        assert(all_roots.take(0) =~= Seq::<ASTRootType>::empty());
    }
    while rest.len() > 0
        invariant
            0 <= taken <= all_roots.len(),
            rest@ == all_roots.skip(taken),
            gens@ == generic_roots(all_roots.take(taken)),
        decreases rest@.len(),
    {
        let r = rest.remove(0);
        proof {
            assert(r == all_roots[taken]);
            assert(rest@ =~= all_roots.skip(taken + 1));
            assert(all_roots.take(taken + 1).drop_last() =~= all_roots.take(taken));
            assert(all_roots.take(taken + 1).last() == r);
        }
        if r.generics().len() > 0 {
            gens.push(r);
        }
        proof {
            taken = taken + 1;
        }
    }
    proof {
        assert(all_roots.take(taken) =~= all_roots);
    }
    let prog = SmithProgram { expanded: imps, generics: gens };
    Ok(prog)
}

} // verus!

verus! {

/// The names of the entries of a resolved table are pairwise distinct.
pub open spec fn names_distinct_resolved(out: Seq<SmithCustomTyp<usize>>) -> bool {
    forall|i: int, j: int|
        0 <= i < j < out.len() ==> crate::types::custom_name(#[trigger] out[i])
            != crate::types::custom_name(#[trigger] out[j])
}

} // verus!

verus! {

/// An instantiation whose type arguments name none of the generic parameters
/// refers to none of the parameter names in any field or payload.
pub proof fn lemma_instantiation_has_no_parameters(
    c: SmithCustomTyp<String>,
    params: Seq<String>,
    dep: Seq<SmithType<String>>,
    n: Seq<char>,
)
    requires
        closed_over(c, params, dep),
        is_param(params, n),
        !mentions_any(dep, n),
    ensures
        match c.variant {
            SmithCustomTypVariant::Struct(s) => forall|i: int|
                0 <= i < s.fields@.len() ==> !mentions(#[trigger] s.fields@[i].1, n),
            SmithCustomTypVariant::Enum(e) => forall|i: int|
                0 <= i < e.variants@.len() && (#[trigger] e.variants@[i]).1 is Some ==> !mentions(
                    e.variants@[i].1->0,
                    n,
                ),
        },
{
}

} // verus!

verus! {

proof fn lemma_ty_same_mentions(a: SmithType<String>, b: SmithType<String>, n: Seq<char>)
    requires
        ty_same(a, b),
    ensures
        mentions(a, n) == mentions(b, n),
    decreases a,
{
    match a {
        SmithType::CustomType(_, args) => {
            lemma_tys_same_mentions(args@, b->CustomType_1@, n);
        },
        SmithType::Array(e) => {
            lemma_ty_same_mentions(*e, *b->Array_0, n);
        },
        _ => {},
    }
}

proof fn lemma_tys_same_mentions(s: Seq<SmithType<String>>, t: Seq<SmithType<String>>, n: Seq<char>)
    requires
        tys_same(s, t),
    ensures
        mentions_any(s, n) == mentions_any(t, n),
    decreases s,
{
    if s.len() > 0 {
        lemma_tys_same_mentions(s.drop_last(), t.drop_last(), n);
        lemma_ty_same_mentions(s.last(), t.last(), n);
    }
}

proof fn lemma_subst_mentions(
    t: SmithType<String>,
    params: Seq<String>,
    dep: Seq<SmithType<String>>,
    u: SmithType<String>,
    n: Seq<char>,
)
    requires
        subst_to(t, params, dep, u),
        is_param(params, n),
        !mentions_any(dep, n),
    ensures
        !mentions(u, n),
    decreases t,
{
    match t {
        SmithType::CustomType(m, args) => {
            lemma_param_from(params, m@, 0);
            match param_index(params, m@) {
                Some(k) => {
                    lemma_ty_same_mentions(dep[k as int], u, n);
                    lemma_mentions_any(dep, n);
                },
                None => {
                    lemma_substs_mentions(args@, params, dep, u->CustomType_1@, n);
                },
            }
        },
        SmithType::Array(e) => {
            lemma_subst_mentions(*e, params, dep, *u->Array_0, n);
        },
        _ => {},
    }
}

proof fn lemma_substs_mentions(
    s: Seq<SmithType<String>>,
    params: Seq<String>,
    dep: Seq<SmithType<String>>,
    us: Seq<SmithType<String>>,
    n: Seq<char>,
)
    requires
        substs_to(s, params, dep, us),
        is_param(params, n),
        !mentions_any(dep, n),
    ensures
        !mentions_any(us, n),
    decreases s,
{
    if s.len() > 0 {
        lemma_substs_mentions(s.drop_last(), params, dep, us.drop_last(), n);
        lemma_subst_mentions(s.last(), params, dep, us.last(), n);
    }
}

/// An entry instantiated from a generic declaration, with type arguments that
/// name none of its parameters, refers to none of the parameter names: this
/// holds of every entry that `expand` returns (see `entries_of`).
pub proof fn lemma_entry_has_no_parameters(
    b: ASTRootType,
    dep: Seq<SmithType<String>>,
    e: SmithCustomTyp<String>,
    n: Seq<char>,
)
    requires
        instantiates(b, dep, e),
        is_param(b.spec_generics(), n),
        !mentions_any(dep, n),
    ensures
        match e.variant {
            SmithCustomTypVariant::Struct(s) => forall|i: int|
                0 <= i < s.fields@.len() ==> !mentions(#[trigger] s.fields@[i].1, n),
            SmithCustomTypVariant::Enum(en) => forall|i: int|
                0 <= i < en.variants@.len() && (#[trigger] en.variants@[i]).1 is Some ==> !mentions(
                    en.variants@[i].1->0,
                    n,
                ),
        },
{
    let params = b.spec_generics();
    match b {
        ASTRootType::Struct(s) => {
            let cs = e.variant->Struct_0;
            assert forall|i: int| 0 <= i < cs.fields@.len() implies !mentions(#[trigger] cs.fields@[i].1, n) by {
                lemma_subst_mentions(s.fields@[i].1, params, dep, cs.fields@[i].1, n);
            }
        },
        ASTRootType::Enum(en) => {
            let ce = e.variant->Enum_0;
            assert forall|i: int| 0 <= i < ce.variants@.len() && (#[trigger] ce.variants@[i]).1 is Some implies !mentions(ce.variants@[i].1->0, n) by {
                lemma_subst_mentions(en.variants@[i].1->0, params, dep, ce.variants@[i].1->0, n);
            }
        },
    }
}

} // verus!

verus! {

/// The first declaration named `n` has no generic parameters.
pub open spec fn base_root(decls: Seq<ASTRootType>, n: Seq<char>) -> bool {
    exists|k: int|
        0 <= k < decls.len() && (#[trigger] decls[k]).spec_name() == n && decls[k].spec_generics().len()
            == 0
}

/// Every reference in `t` has what it needs: one without arguments names a
/// declaration without parameters, one with arguments has an entry of `imps`
/// under its mangled name.
pub open spec fn present(t: SmithType<String>, decls: Seq<ASTRootType>, imps: Seq<SmithCustomTyp<String>>) -> bool
    decreases t,
{
    match t {
        SmithType::CustomType(n, args) => (if args@.len() == 0 {
            base_root(decls, n@)
        } else {
            crate::types::position_of(imps, mangled(t)) is Some
        }) && all_present(args@, decls, imps),
        SmithType::Array(e) => present(*e, decls, imps),
        _ => true,
    }
}

pub open spec fn all_present(
    s: Seq<SmithType<String>>,
    decls: Seq<ASTRootType>,
    imps: Seq<SmithCustomTyp<String>>,
) -> bool
    decreases s,
{
    s.len() == 0 || (all_present(s.drop_last(), decls, imps) && present(s.last(), decls, imps))
}

/// Every field or payload type of `e` is `present`.
pub open spec fn entry_closed(e: SmithCustomTyp<String>, decls: Seq<ASTRootType>, imps: Seq<SmithCustomTyp<String>>) -> bool {
    match e.variant {
        SmithCustomTypVariant::Struct(s) => forall|i: int|
            0 <= i < s.fields@.len() ==> present((#[trigger] s.fields@[i]).1, decls, imps),
        SmithCustomTypVariant::Enum(en) => forall|i: int|
            0 <= i < en.variants@.len() && (#[trigger] en.variants@[i]).1 is Some ==> present(
                en.variants@[i].1->0,
                decls,
                imps,
            ),
    }
}

pub proof fn lemma_position_exact(b: Seq<SmithCustomTyp<String>>, n: Seq<char>, i: int, k: int)
    requires
        0 <= i <= k < b.len(),
        crate::types::custom_name(b[k]) == n,
        forall|j: int| i <= j < k ==> crate::types::custom_name(#[trigger] b[j]) != n,
    ensures
        crate::types::position_from(b, n, i) == Some(k as nat),
    decreases k - i,
{
    if i < k {
        lemma_position_exact(b, n, i + 1, k);
    }
}

pub proof fn lemma_position_extends(a: Seq<SmithCustomTyp<String>>, b: Seq<SmithCustomTyp<String>>, n: Seq<char>)
    requires
        extends(a, b),
        crate::types::position_of(a, n) is Some,
    ensures
        crate::types::position_of(b, n) == crate::types::position_of(a, n),
{
    crate::types::lemma_position_from(a, n, 0);
    let k = crate::types::position_of(a, n)->0 as int;
    assert forall|j: int| 0 <= j < k implies crate::types::custom_name(#[trigger] b[j]) != n by {
        assert(b[j] == a[j]);
    }
    assert(b[k] == a[k]);
    lemma_position_exact(b, n, 0, k);
}

pub proof fn lemma_present_mono(
    t: SmithType<String>,
    decls: Seq<ASTRootType>,
    a: Seq<SmithCustomTyp<String>>,
    b: Seq<SmithCustomTyp<String>>,
)
    requires
        present(t, decls, a),
        extends(a, b),
    ensures
        present(t, decls, b),
    decreases t,
{
    match t {
        SmithType::CustomType(_, args) => {
            if args@.len() > 0 {
                lemma_position_extends(a, b, mangled(t));
            }
            lemma_all_present_mono(args@, decls, a, b);
        },
        SmithType::Array(e) => lemma_present_mono(*e, decls, a, b),
        _ => {},
    }
}

pub proof fn lemma_all_present_mono(
    s: Seq<SmithType<String>>,
    decls: Seq<ASTRootType>,
    a: Seq<SmithCustomTyp<String>>,
    b: Seq<SmithCustomTyp<String>>,
)
    requires
        all_present(s, decls, a),
        extends(a, b),
    ensures
        all_present(s, decls, b),
    decreases s,
{
    if s.len() > 0 {
        lemma_all_present_mono(s.drop_last(), decls, a, b);
        lemma_present_mono(s.last(), decls, a, b);
    }
}

pub proof fn lemma_entry_closed_mono(
    e: SmithCustomTyp<String>,
    decls: Seq<ASTRootType>,
    a: Seq<SmithCustomTyp<String>>,
    b: Seq<SmithCustomTyp<String>>,
)
    requires
        entry_closed(e, decls, a),
        extends(a, b),
    ensures
        entry_closed(e, decls, b),
{
    match e.variant {
        SmithCustomTypVariant::Struct(s) => {
            assert forall|i: int| 0 <= i < s.fields@.len() implies present((#[trigger] s.fields@[i]).1, decls, b) by {
                lemma_present_mono(s.fields@[i].1, decls, a, b);
            }
        },
        SmithCustomTypVariant::Enum(en) => {
            assert forall|i: int| 0 <= i < en.variants@.len() && (#[trigger] en.variants@[i]).1 is Some implies present(
                en.variants@[i].1->0, decls, b) by {
                lemma_present_mono(en.variants@[i].1->0, decls, a, b);
            }
        },
    }
}

pub proof fn lemma_ty_same_mangled(a: SmithType<String>, b: SmithType<String>)
    requires
        ty_same(a, b),
    ensures
        mangled(a) == mangled(b),
    decreases a,
{
    match a {
        SmithType::CustomType(_, args) => {
            lemma_tys_same_mangled(args@, b->CustomType_1@);
        },
        SmithType::Array(e) => {
            lemma_ty_same_mangled(*e, *b->Array_0);
        },
        _ => {},
    }
}

pub proof fn lemma_tys_same_mangled(s: Seq<SmithType<String>>, t: Seq<SmithType<String>>)
    requires
        tys_same(s, t),
    ensures
        mangled_args(s) == mangled_args(t),
    decreases s,
{
    if s.len() > 0 {
        lemma_tys_same_mangled(s.drop_last(), t.drop_last());
        lemma_ty_same_mangled(s.last(), t.last());
        if s.len() == 1 {
            assert(s[0] == s.last());
            assert(t[0] == t.last());
        }
    }
}

pub proof fn lemma_present_same(
    a: SmithType<String>,
    b: SmithType<String>,
    decls: Seq<ASTRootType>,
    imps: Seq<SmithCustomTyp<String>>,
)
    requires
        ty_same(a, b),
    ensures
        present(a, decls, imps) == present(b, decls, imps),
    decreases a,
{
    lemma_ty_same_mangled(a, b);
    match a {
        SmithType::CustomType(n, args) => {
            let bargs = b->CustomType_1;
            assert(tys_same(args@, bargs@));
            assert(args@.len() == bargs@.len());
            assert(n@ == b->CustomType_0@);
            lemma_all_present_same(args@, b->CustomType_1@, decls, imps);
        },
        SmithType::Array(e) => {
            lemma_present_same(*e, *b->Array_0, decls, imps);
        },
        _ => {},
    }
}

pub proof fn lemma_all_present_same(
    s: Seq<SmithType<String>>,
    t: Seq<SmithType<String>>,
    decls: Seq<ASTRootType>,
    imps: Seq<SmithCustomTyp<String>>,
)
    requires
        tys_same(s, t),
    ensures
        all_present(s, decls, imps) == all_present(t, decls, imps),
    decreases s,
{
    if s.len() > 0 {
        lemma_all_present_same(s.drop_last(), t.drop_last(), decls, imps);
        lemma_present_same(s.last(), t.last(), decls, imps);
    }
}

pub proof fn lemma_all_present_index(
    s: Seq<SmithType<String>>,
    decls: Seq<ASTRootType>,
    imps: Seq<SmithCustomTyp<String>>,
    j: int,
)
    requires
        all_present(s, decls, imps),
        0 <= j < s.len(),
    ensures
        present(s[j], decls, imps),
    decreases s.len(),
{
    if j < s.len() - 1 {
        assert(s.drop_last()[j] == s[j]);
        lemma_all_present_index(s.drop_last(), decls, imps, j);
    }
}

} // verus!

verus! {

/// In a table where every declaration without parameters is present, a type
/// whose references are all `present` resolves.
pub proof fn lemma_present_resolvable(
    t: SmithType<String>,
    decls: Seq<ASTRootType>,
    imps: Seq<SmithCustomTyp<String>>,
)
    requires
        present(t, decls, imps),
        roots_present(decls, imps),
    ensures
        crate::resolver::resolvable(t, imps),
    decreases t,
{
    match t {
        SmithType::CustomType(n, args) => {
            if args@.len() == 0 {
                let k = choose|k: int|
                    0 <= k < decls.len() && (#[trigger] decls[k]).spec_name() == n@
                        && decls[k].spec_generics().len() == 0;
                let q = choose|q: int|
                    0 <= q < imps.len() && crate::types::custom_name(#[trigger] imps[q]) == decls[k].spec_name();
                crate::types::lemma_position_from(imps, mangled(t), 0);
                assert(mangled(t) == n@);
                assert(crate::types::custom_name(imps[q]) == mangled(t));
            }
            lemma_all_present_resolvable(args@, decls, imps);
        },
        SmithType::Array(e) => lemma_present_resolvable(*e, decls, imps),
        _ => {},
    }
}

pub proof fn lemma_all_present_resolvable(
    s: Seq<SmithType<String>>,
    decls: Seq<ASTRootType>,
    imps: Seq<SmithCustomTyp<String>>,
)
    requires
        all_present(s, decls, imps),
        roots_present(decls, imps),
    ensures
        crate::resolver::all_resolvable(s, imps),
    decreases s,
{
    if s.len() > 0 {
        lemma_all_present_resolvable(s.drop_last(), decls, imps);
        lemma_present_resolvable(s.last(), decls, imps);
    }
}

/// An expansion that is closed and holds every declaration without
/// parameters resolves entry by entry.
pub proof fn lemma_closed_expansion_resolvable(decls: Seq<ASTRootType>, imps: Seq<SmithCustomTyp<String>>)
    requires
        roots_present(decls, imps),
        forall|i: int| 0 <= i < imps.len() ==> entry_closed(#[trigger] imps[i], decls, imps),
    ensures
        forall|i: int| 0 <= i < imps.len() ==> crate::resolver::custom_resolvable(#[trigger] imps[i], imps),
{
    assert forall|i: int| 0 <= i < imps.len() implies crate::resolver::custom_resolvable(#[trigger] imps[i], imps) by {
        assert(entry_closed(imps[i], decls, imps));
        match imps[i].variant {
            SmithCustomTypVariant::Struct(s) => {
                assert forall|q: int| 0 <= q < s.fields@.len() implies crate::resolver::resolvable((#[trigger] s.fields@[q]).1, imps) by {
                    lemma_present_resolvable(s.fields@[q].1, decls, imps);
                }
            },
            SmithCustomTypVariant::Enum(e) => {
                assert forall|q: int| 0 <= q < e.variants@.len() implies match (#[trigger] e.variants@[q]).1 {
                    Some(t) => crate::resolver::resolvable(t, imps),
                    None => true,
                } by {
                    if e.variants@[q].1 is Some {
                        lemma_present_resolvable(e.variants@[q].1->0, decls, imps);
                    }
                }
            },
        }
    }
}

} // verus!
