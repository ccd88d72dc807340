use vstd::prelude::*;

use crate::error::Error;
use crate::generics_engine::mangled;
use crate::types::{
    custom_name, find_position, position_of, SmithCustomTyp, SmithCustomTypVariant, SmithEnum, SmithProgram,
    SmithStruct, SmithType,
};

verus! {

/// Every custom reference in `t` is an id below `n`.
pub open spec fn resolved_in(t: SmithType<usize>, n: nat) -> bool
    decreases t,
{
    match t {
        SmithType::CustomType(id, args) => id < n && all_resolved_in(args@, n),
        SmithType::Array(e) => resolved_in(*e, n),
        _ => true,
    }
}

pub open spec fn all_resolved_in(s: Seq<SmithType<usize>>, n: nat) -> bool
    decreases s,
{
    s.len() == 0 || (all_resolved_in(s.drop_last(), n) && resolved_in(s.last(), n))
}

/// Every field and payload type of `c` is resolved below `n`.
pub open spec fn custom_resolved_in(c: SmithCustomTyp<usize>, n: nat) -> bool {
    match c.variant {
        SmithCustomTypVariant::Struct(s) => forall|i: int|
            0 <= i < s.fields@.len() ==> resolved_in((#[trigger] s.fields@[i]).1, n),
        SmithCustomTypVariant::Enum(e) => forall|i: int|
            0 <= i < e.variants@.len() ==> match (#[trigger] e.variants@[i]).1 {
                Some(t) => resolved_in(t, n),
                None => true,
            },
    }
}

/// Each entry's id is its position in the table.
pub open spec fn ids_dense(table: Seq<SmithCustomTyp<usize>>) -> bool {
    forall|i: int| 0 <= i < table.len() ==> (#[trigger] table[i]).id == i
}

/// Every reference of every entry points into the table.
pub open spec fn table_resolved(table: Seq<SmithCustomTyp<usize>>) -> bool {
    forall|i: int| 0 <= i < table.len() ==> custom_resolved_in(#[trigger] table[i], table.len())
}

/// `u` has the shape of `t`, with the same primitive at each primitive.
pub open spec fn prim_kept(t: SmithType<String>, u: SmithType<usize>) -> bool {
    match t {
        SmithType::I8 => u is I8,
        SmithType::I16 => u is I16,
        SmithType::I32 => u is I32,
        SmithType::F32 => u is F32,
        SmithType::F64 => u is F64,
        SmithType::U8 => u is U8,
        SmithType::U16 => u is U16,
        SmithType::U32 => u is U32,
        SmithType::U64 => u is U64,
        SmithType::UInt => u is UInt,
        SmithType::Bool => u is Bool,
        SmithType::String => u is String,
        _ => false,
    }
}

/// Every custom reference in `t`, at any depth, has its mangled name in `table`.
pub open spec fn resolvable(t: SmithType<String>, table: Seq<SmithCustomTyp<String>>) -> bool
    decreases t,
{
    match t {
        SmithType::CustomType(_, args) => position_of(table, mangled(t)) is Some && all_resolvable(
            args@,
            table,
        ),
        SmithType::Array(e) => resolvable(*e, table),
        _ => true,
    }
}

pub open spec fn all_resolvable(s: Seq<SmithType<String>>, table: Seq<SmithCustomTyp<String>>) -> bool
    decreases s,
{
    s.len() == 0 || (all_resolvable(s.drop_last(), table) && resolvable(s.last(), table))
}

/// `u` is `t` with every custom reference replaced by the position of the
/// first entry of `table` named by its mangled form; primitives and arrays keep
/// their shape.
pub open spec fn resolves_to(t: SmithType<String>, table: Seq<SmithCustomTyp<String>>, u: SmithType<usize>) -> bool
    decreases t,
{
    match t {
        SmithType::CustomType(_, args) => match position_of(table, mangled(t)) {
            Some(k) => u matches SmithType::CustomType(id, uargs) && id == k && all_resolve_to(
                args@,
                table,
                uargs@,
            ),
            None => false,
        },
        SmithType::Array(e) => u matches SmithType::Array(f) && resolves_to(*e, table, *f),
        _ => prim_kept(t, u),
    }
}

pub open spec fn all_resolve_to(
    s: Seq<SmithType<String>>,
    table: Seq<SmithCustomTyp<String>>,
    us: Seq<SmithType<usize>>,
) -> bool
    decreases s,
{
    s.len() == us.len() && (s.len() == 0 || (all_resolve_to(s.drop_last(), table, us.drop_last())
        && resolves_to(s.last(), table, us.last())))
}

pub proof fn lemma_all_resolvable_prefix(s: Seq<SmithType<String>>, table: Seq<SmithCustomTyp<String>>, k: int)
    requires
        0 <= k <= s.len(),
        all_resolvable(s, table),
    ensures
        all_resolvable(s.take(k), table),
    decreases s.len() - k,
{
    if k < s.len() {
        lemma_all_resolvable_prefix(s, table, k + 1);
        assert(s.take(k + 1).drop_last() =~= s.take(k));
    } else {
        assert(s.take(k) =~= s);
    }
}

/// Every field or payload type of `c` is resolvable against `table`.
pub open spec fn custom_resolvable(c: SmithCustomTyp<String>, table: Seq<SmithCustomTyp<String>>) -> bool {
    match c.variant {
        SmithCustomTypVariant::Struct(s) => forall|i: int|
            0 <= i < s.fields@.len() ==> resolvable((#[trigger] s.fields@[i]).1, table),
        SmithCustomTypVariant::Enum(e) => forall|i: int|
            0 <= i < e.variants@.len() ==> match (#[trigger] e.variants@[i]).1 {
                Some(t) => resolvable(t, table),
                None => true,
            },
    }
}

/// `r` is `c` with the same kind, name, field and variant names in order and
/// payload presence, and each type resolved against `table`.
pub open spec fn custom_resolves_to(
    c: SmithCustomTyp<String>,
    table: Seq<SmithCustomTyp<String>>,
    r: SmithCustomTyp<usize>,
) -> bool {
    match c.variant {
        SmithCustomTypVariant::Struct(s) => r.variant matches SmithCustomTypVariant::Struct(rs)
            && rs.name@ == s.name@ && rs.fields@.len() == s.fields@.len() && forall|i: int|
            0 <= i < s.fields@.len() ==> (#[trigger] rs.fields@[i]).0@ == s.fields@[i].0@
                && resolves_to(s.fields@[i].1, table, rs.fields@[i].1),
        SmithCustomTypVariant::Enum(e) => r.variant matches SmithCustomTypVariant::Enum(re)
            && re.name@ == e.name@ && re.variants@.len() == e.variants@.len() && forall|i: int|
            0 <= i < e.variants@.len() ==> (#[trigger] re.variants@[i]).0@ == e.variants@[i].0@
                && match (e.variants@[i].1, re.variants@[i].1) {
                (Some(t), Some(u)) => resolves_to(t, table, u),
                (None, None) => true,
                _ => false,
            },
    }
}

/// Rewrites a type's references from names to table positions: a custom
/// reference goes to the entry whose name is its mangled form.
pub fn resolve_typ(typ: &SmithType<String>, custom_types: &Vec<SmithCustomTyp<String>>) -> (r: Result<SmithType<usize>, Error>)
    ensures
        r matches Ok(u) ==> resolved_in(u, custom_types@.len()),
        r matches Ok(u) ==> (u matches SmithType::CustomType(id, _) ==> custom_name(custom_types@[id as int]) == mangled(*typ)),
        r is Ok <==> resolvable(*typ, custom_types@),
        r matches Ok(u) ==> resolves_to(*typ, custom_types@, u),
        r matches Err(e) ==> e == Error::UnresolvedName,
    decreases typ,
{
    match typ {
        SmithType::I8 => Ok(SmithType::I8),
        SmithType::I16 => Ok(SmithType::I16),
        SmithType::I32 => Ok(SmithType::I32),
        SmithType::U8 => Ok(SmithType::U8),
        SmithType::U16 => Ok(SmithType::U16),
        SmithType::U32 => Ok(SmithType::U32),
        SmithType::U64 => Ok(SmithType::U64),
        SmithType::F32 => Ok(SmithType::F32),
        SmithType::F64 => Ok(SmithType::F64),
        SmithType::UInt => Ok(SmithType::UInt),
        SmithType::Bool => Ok(SmithType::Bool),
        SmithType::String => Ok(SmithType::String),
        SmithType::Array(t) => {
            let u = resolve_typ(t, custom_types)?;
            Ok(SmithType::Array(Box::new(u)))
        },
        SmithType::CustomType(_name, gen) => {
            let mut name = String::new();
            typ.write_self(&mut name);
            assert(name@ =~= mangled(*typ));
            let found = match find_position(custom_types, &name) {
                Some(k) => k,
                None => {
                    return Err(Error::UnresolvedName);
                },
            };
            proof {
                crate::types::lemma_position_from(custom_types@, name@, 0);
            }
            let args = resolve_args(gen, custom_types)?;
            Ok(SmithType::CustomType(found, args))
        },
    }
}

fn resolve_args(gen: &Vec<SmithType<String>>, custom_types: &Vec<SmithCustomTyp<String>>) -> (r: Result<Vec<SmithType<usize>>, Error>)
    ensures
        r matches Ok(out) ==> all_resolved_in(out@, custom_types@.len()),
        r is Ok <==> all_resolvable(gen@, custom_types@),
        r matches Ok(out) ==> all_resolve_to(gen@, custom_types@, out@),
        r matches Err(e) ==> e == Error::UnresolvedName,
    decreases gen,
{
    let mut out: Vec<SmithType<usize>> = Vec::new();
    let mut i: usize = 0;
    proof {
        assert(gen@.take(0) =~= Seq::<SmithType<String>>::empty());
    }
    while i < gen.len()
        invariant
            0 <= i <= gen@.len(),
            all_resolved_in(out@, custom_types@.len()),
            all_resolvable(gen@.take(i as int), custom_types@),
            all_resolve_to(gen@.take(i as int), custom_types@, out@),
        decreases gen@.len() - i,
    {
        let r = resolve_typ(&gen[i], custom_types);
        proof {
            assert(gen@.take(i + 1).drop_last() =~= gen@.take(i as int));
            assert(gen@.take(i + 1).last() == gen@[i as int]);
        }
        let u = match r {
            Ok(u) => u,
            Err(e) => {
                proof {
                    if all_resolvable(gen@, custom_types@) {
                        lemma_all_resolvable_prefix(gen@, custom_types@, i + 1);
                    }
                }
                return Err(e);
            },
        };
        proof {
            assert(out@.push(u).drop_last() =~= out@);
            assert(out@.push(u).last() == u);
        }
        out.push(u);
        i = i + 1;
    }
    proof {
        assert(gen@.take(i as int) =~= gen@);
    }
    Ok(out)
}

/// Resolves every field or payload type of one entry.
fn resolve_custom_type(custom_type: &SmithCustomTyp<String>, custom_types: &Vec<SmithCustomTyp<String>>) -> (r: Result<SmithCustomTyp<usize>, Error>)
    ensures
        r matches Ok(c) ==> custom_resolved_in(c, custom_types@.len()) && custom_name(c) == custom_name(*custom_type)
            && c.id == custom_type.id,
        r is Ok <==> custom_resolvable(*custom_type, custom_types@),
        r matches Ok(c) ==> custom_resolves_to(*custom_type, custom_types@, c),
        r matches Err(e) ==> e == Error::UnresolvedName,
{
    match &custom_type.variant {
        SmithCustomTypVariant::Struct(s) => {
            let mut fields: Vec<(String, SmithType<usize>)> = Vec::new();
            let mut i: usize = 0;
            while i < s.fields.len()
                invariant
                    0 <= i <= s.fields@.len(),
                    fields@.len() == i,
                    custom_type.variant == SmithCustomTypVariant::Struct(*s),
                    forall|j: int| 0 <= j < i ==> resolved_in((#[trigger] fields@[j]).1, custom_types@.len()),
                    forall|j: int| 0 <= j < i ==> (#[trigger] fields@[j]).0@ == s.fields@[j].0@
                        && resolves_to(s.fields@[j].1, custom_types@, fields@[j].1),
                    forall|j: int| 0 <= j < i ==> resolvable((#[trigger] s.fields@[j]).1, custom_types@),
                decreases s.fields@.len() - i,
            {
                let u = match resolve_typ(&s.fields[i].1, custom_types) {
                    Ok(u) => u,
                    Err(e) => {
                        assert(!resolvable(s.fields@[i as int].1, custom_types@));
                        assert(!custom_resolvable(*custom_type, custom_types@)) by {
                            let ss = custom_type.variant->Struct_0;
                            assert(ss == *s);
                            assert(ss.fields@[i as int] == s.fields@[i as int]);
                            assert(!resolvable(ss.fields@[i as int].1, custom_types@));
                        }
                        return Err(e);
                    },
                };
                fields.push((s.fields[i].0.clone(), u));
                i = i + 1;
            }
            Ok(SmithCustomTyp {
                variant: SmithCustomTypVariant::Struct(SmithStruct { name: s.name.clone(), fields }),
                id: custom_type.id,
            })
        },
        SmithCustomTypVariant::Enum(e) => {
            let mut variants: Vec<(String, Option<SmithType<usize>>)> = Vec::new();
            let mut i: usize = 0;
            while i < e.variants.len()
                invariant
                    0 <= i <= e.variants@.len(),
                    variants@.len() == i,
                    custom_type.variant == SmithCustomTypVariant::Enum(*e),
                    forall|j: int| 0 <= j < i ==> match (#[trigger] variants@[j]).1 {
                        Some(t) => resolved_in(t, custom_types@.len()),
                        None => true,
                    },
                    forall|j: int| 0 <= j < i ==> (#[trigger] variants@[j]).0@ == e.variants@[j].0@
                        && match (e.variants@[j].1, variants@[j].1) {
                        (Some(t), Some(u)) => resolves_to(t, custom_types@, u),
                        (None, None) => true,
                        _ => false,
                    },
                    forall|j: int| 0 <= j < i ==> match (#[trigger] e.variants@[j]).1 {
                        Some(t) => resolvable(t, custom_types@),
                        None => true,
                    },
                decreases e.variants@.len() - i,
            {
                let payload = match &e.variants[i].1 {
                    Some(t) => match resolve_typ(t, custom_types) {
                        Ok(u) => Some(u),
                        Err(err) => {
                            assert(e.variants@[i as int].1 is Some);
                            assert(!resolvable(e.variants@[i as int].1->0, custom_types@));
                            return Err(err);
                        },
                    },
                    None => None,
                };
                variants.push((e.variants[i].0.clone(), payload));
                i = i + 1;
            }
            Ok(SmithCustomTyp {
                variant: SmithCustomTypVariant::Enum(SmithEnum { name: e.name.clone(), variants }),
                id: custom_type.id,
            })
        },
    }
}

/// Gives every expanded declaration the id of its position and rewrites all
/// references to ids.
pub fn resolve(program: SmithProgram<String>) -> (r: Result<SmithProgram<usize>, Error>)
    ensures
        r matches Ok(p) ==> p.expanded@.len() == program.expanded@.len(),
        r matches Ok(p) ==> ids_dense(p.expanded@),
        r matches Ok(p) ==> table_resolved(p.expanded@),
        r matches Ok(p) ==> forall|i: int|
            0 <= i < p.expanded@.len() ==> custom_name(#[trigger] p.expanded@[i]) == custom_name(
                program.expanded@[i],
            ),
        r is Ok <==> forall|i: int|
            0 <= i < program.expanded@.len() ==> custom_resolvable(#[trigger] program.expanded@[i], program.expanded@),
        r matches Ok(p) ==> forall|i: int|
            0 <= i < p.expanded@.len() ==> custom_resolves_to(program.expanded@[i], program.expanded@, #[trigger] p.expanded@[i]),
        r matches Ok(p) ==> p.generics == program.generics,
        r matches Err(e) ==> e == Error::UnresolvedName,
{
    let SmithProgram { expanded, generics } = program;
    let table = &expanded;
    let mut resolved_types: Vec<SmithCustomTyp<usize>> = Vec::new();
    let mut i: usize = 0;
    while i < table.len()
        invariant
            0 <= i <= table@.len(),
            resolved_types@.len() == i,
            table@ == program.expanded@,
            forall|j: int| 0 <= j < i ==> (#[trigger] resolved_types@[j]).id == j,
            forall|j: int| 0 <= j < i ==> custom_resolved_in(#[trigger] resolved_types@[j], table@.len()),
            forall|j: int| 0 <= j < i ==> custom_name(#[trigger] resolved_types@[j]) == custom_name(table@[j]),
            forall|j: int| 0 <= j < i ==> custom_resolves_to(table@[j], table@, #[trigger] resolved_types@[j]),
            forall|j: int| 0 <= j < i ==> custom_resolvable(#[trigger] table@[j], table@),
        decreases table@.len() - i,
    {
        let c = match resolve_custom_type(&table[i], table) {
            Ok(c) => c,
            Err(e) => {
                assert(!custom_resolvable(table@[i as int], table@));
                return Err(e);
            },
        };
        let c = SmithCustomTyp { variant: c.variant, id: i };
        resolved_types.push(c);
        i = i + 1;
    }
    Ok(SmithProgram { expanded: resolved_types, generics })
}

} // verus!
