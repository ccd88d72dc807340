use vstd::prelude::*;

use crate::de::{dec, dec_fields, dec_list, lemma_pow256_table, pow128_of, pow256, udint_dec, zero_from, MAX_DEPTH};
use crate::ser::{
    enc, enc_fields, enc_list, enc_tagged, int_max, int_min, int_width, is_signed,
    lemma_variant_from, variant_index,
};
use crate::types::{SmithCustomTyp, SmithCustomTypVariant, SmithType};
use crate::value::Val;
use crate::wire::{be_bytes, be_value, lemma_udint_round_trip, udint_bytes, udint_read, UDINT_MAX_LEN};
use vstd::utf8::{encode_utf8, encode_utf8_decode_utf8, encode_utf8_valid_utf8};

verus! {

/// The encoding of a list under an array type is the udInt of the element
/// count, then the elements; reading that udInt back gives the count.
pub proof fn lemma_array_length_prefix(table: Seq<SmithCustomTyp<usize>>, t: SmithType<usize>, v: Val)
    requires
        t is Array,
        enc(table, t, v) is Ok,
    ensures
        v matches Val::List(items) && enc(table, t, v)->Ok_0 == udint_bytes(items.len())
        + enc_list(table, *t->Array_0, items)->Ok_0 && udint_read(
            enc(table, t, v)->Ok_0,
            udint_bytes(items.len()).len(),
        ) == Some((items.len(), udint_bytes(items.len()).len())),
{
    match v {
        Val::List(items) => {
            let b = enc(table, t, v)->Ok_0;
            let rest = enc_list(table, *t->Array_0, items)->Ok_0;
            lemma_udint_round_trip(items.len(), rest, udint_bytes(items.len()).len());
        },
        _ => {},
    }
}

/// The encoding of an enum value starts with the udInt of an ordinal below
/// the enum's number of variants.
pub proof fn lemma_enum_ordinal_in_range(table: Seq<SmithCustomTyp<usize>>, t: SmithType<usize>, v: Val)
    requires
        t matches SmithType::CustomType(id, _) && id < table.len() && table[id as int].variant is Enum,
        enc(table, t, v) is Ok,
    ensures
        exists|k: nat|
        k < table[t->CustomType_0 as int].variant->Enum_0.variants@.len() && #[trigger] udint_bytes(k)
        == enc(table, t, v)->Ok_0.take(udint_bytes(k).len() as int) && udint_read(
            enc(table, t, v)->Ok_0,
            udint_bytes(k).len(),
        ) == Some((k, udint_bytes(k).len())),
{
    let e = table[t->CustomType_0 as int].variant->Enum_0;
    let b = enc(table, t, v)->Ok_0;
    let (k, tail) = match v {
        Val::Variant(name, payload) => {
            let k = variant_index(e.variants@, name)->0;
            let tail = match payload {
                Some(p) => match e.variants@[k as int].1 {
                    Some(pt) => enc(table, pt, *p)->Ok_0,
                    None => Seq::empty(),
                },
                None => Seq::empty(),
            };
            (k, tail)
        },
        Val::Record(entries) => {
            let name = entries[0].1->Str_0;
            let k = variant_index(e.variants@, name)->0;
            let tail = match e.variants@[k as int].1 {
                Some(pt) => enc(table, pt, entries[1].1)->Ok_0,
                None => Seq::empty(),
            };
            (k, tail)
        },
        _ => (0, Seq::empty()),
    };
    match v {
        Val::Variant(name, payload) => {
            lemma_variant_from(e.variants@, name, 0);
            assert(b =~= udint_bytes(k) + tail);
        },
        Val::Record(entries) => {
            assert(enc(table, t, v) == enc_tagged(table, e.variants@, entries));
            assert(entries.len() > 0 && entries[0].1 is Str);
            lemma_variant_from(e.variants@, entries[0].1->Str_0, 0);
            assert(b =~= udint_bytes(k) + tail);
        },
        _ => {},
    }
    lemma_udint_round_trip(k, tail, udint_bytes(k).len());
    assert(udint_bytes(k) =~= b.take(udint_bytes(k).len() as int));
}

proof fn lemma_be_bytes(x: nat, n: nat)
    ensures
        be_bytes(x, n).len() == n,
        pow256(n) > 0,
        be_value(be_bytes(x, n)) == x % pow256(n),
    decreases n,
{
    if n > 0 {
        let m = (n - 1) as nat;
        lemma_be_bytes(x / 256, m);
        let p = pow256(m);
        let b = be_bytes(x, n);
        assert(b.drop_last() =~= be_bytes(x / 256, m));
        assert(b.last() == (x % 256) as u8);
        vstd::arithmetic::div_mod::lemma_breakdown(x as int, 256, p as int);
        vstd::arithmetic::mul::lemma_mul_is_commutative(256, p as int);
        vstd::arithmetic::mul::lemma_mul_is_commutative(256, ((x / 256) % p) as int);
        assert(pow256(n) == 256 * p);
    }
}

proof fn lemma_fixed_round_trip(x: nat, n: nat, rest: Seq<u8>)
    requires
        x < pow256(n),
    ensures
        (be_bytes(x, n) + rest).take(n as int) == be_bytes(x, n),
        be_value(be_bytes(x, n)) == x,
        be_bytes(x, n).len() == n,
{
    lemma_be_bytes(x, n);
    vstd::arithmetic::div_mod::lemma_small_mod(x, pow256(n));
    assert((be_bytes(x, n) + rest).take(n as int) =~= be_bytes(x, n));
}

proof fn lemma_zero_from(s: Seq<u8>, i: int, k: int)
    requires
        0 <= i <= k < s.len(),
        s[k] == 0,
        forall|j: int| i <= j < k ==> s[j] != 0,
    ensures
        zero_from(s, i) == Some(k as nat),
    decreases k - i,
{
    if i < k {
        lemma_zero_from(s, i + 1, k);
    }
}

proof fn lemma_udint_len(v: nat, k: nat)
    requires
        v < pow128_of(k),
        k > 0,
    ensures
        udint_bytes(v).len() <= k,
    decreases v,
{
    if v >= 128 {
        let p = pow128_of((k - 1) as nat);
        vstd::arithmetic::div_mod::lemma_multiply_divide_lt(v as int, 128, p as int);
        assert(pow128_of(0) == 1);
        assert(k - 1 > 0);
        lemma_udint_len(v / 128, (k - 1) as nat);
    }
}

proof fn lemma_udint_dec(v: nat, rest: Seq<u8>)
    requires
        v <= u64::MAX,
    ensures
        udint_dec(udint_bytes(v) + rest) == Ok::<(nat, nat), crate::error::Error>((v, udint_bytes(v).len())),
{
    assert(pow128_of(0) == 1);
    assert(pow128_of(1) == 0x80);
    assert(pow128_of(2) == 0x4000);
    assert(pow128_of(3) == 0x20_0000);
    assert(pow128_of(4) == 0x1000_0000);
    assert(pow128_of(5) == 0x8_0000_0000);
    assert(pow128_of(6) == 0x400_0000_0000);
    assert(pow128_of(7) == 0x2_0000_0000_0000);
    assert(pow128_of(8) == 0x100_0000_0000_0000);
    assert(pow128_of(9) == 0x8000_0000_0000_0000);
    assert(pow128_of(10) == 0x40_0000_0000_0000_0000);
    lemma_udint_len(v, 10);
    lemma_udint_round_trip(v, rest, UDINT_MAX_LEN as nat);
}

/// `v` is a value of type `t` in the shape that decoding produces: unsigned
/// cursors hold `UInt`, signed ones `Int`, both within range; strings hold no
/// NUL; struct maps give every field in order; enums are variants
/// (`json == false`) or `tag`/`val` maps (`json == true`) naming a variant by
/// its first occurrence; nesting stays within `fuel`.
pub open spec fn canonical(
    table: Seq<SmithCustomTyp<usize>>,
    t: SmithType<usize>,
    v: Val,
    json: bool,
    fuel: nat,
) -> bool
    decreases v,
{
    match v {
        Val::Bool(_) => t is Bool,
        Val::UInt(x) => (t is U8 || t is U16 || t is U32 || t is U64 || t is UInt) && x <= int_max(t),
        Val::Int(x) => is_signed(t) && int_min(t) <= x <= int_max(t),
        Val::F32(_) => t is F32,
        Val::F64(_) => t is F64,
        Val::Str(s) => t is String && !encode_utf8(s).contains(0u8),
        Val::List(items) => match t {
            SmithType::Array(et) => fuel > 0 && items.len() <= u64::MAX && canonical_list(
                table,
                *et,
                items,
                json,
                (fuel - 1) as nat,
            ),
            _ => false,
        },
        Val::Record(entries) => match t {
            SmithType::CustomType(id, _) => id < table.len() && fuel > 0 && match table[id as int].variant {
                SmithCustomTypVariant::Struct(st) => entries.len() == st.fields@.len()
                && canonical_fields(table, st.fields@, entries, json, (fuel - 1) as nat),
                SmithCustomTypVariant::Enum(e) => json && canonical_tagged(
                    table,
                    e.variants@,
                    entries,
                    json,
                    (fuel - 1) as nat,
                ),
            },
            _ => false,
        },
        Val::Variant(name, payload) => match t {
            SmithType::CustomType(id, _) => !json && id < table.len() && fuel > 0 && match table[id as int].variant {
                SmithCustomTypVariant::Enum(e) => match variant_index(e.variants@, name) {
                    Some(k) => k <= u64::MAX && match e.variants@[k as int].1 {
                        None => payload is None,
                        Some(pt) => match payload {
                            Some(p) => canonical(table, pt, *p, json, (fuel - 1) as nat),
                            None => false,
                        },
                    },
                    None => false,
                },
                SmithCustomTypVariant::Struct(_) => false,
            },
            _ => false,
        },
    }
}

pub open spec fn canonical_list(
    table: Seq<SmithCustomTyp<usize>>,
    et: SmithType<usize>,
    items: Seq<Val>,
    json: bool,
    fuel: nat,
) -> bool
    decreases items,
{
    items.len() == 0 || (canonical_list(table, et, items.drop_last(), json, fuel) && canonical(
            table,
            et,
            items.last(),
            json,
            fuel,
    ))
}

pub open spec fn canonical_fields(
    table: Seq<SmithCustomTyp<usize>>,
    fields: Seq<(String, SmithType<usize>)>,
    entries: Seq<(Seq<char>, Val)>,
    json: bool,
    fuel: nat,
) -> bool
    decreases entries,
{
    entries.len() == 0 || (canonical_fields(table, fields, entries.drop_last(), json, fuel)
        && entries.len() <= fields.len() && entries.last().0 == fields[entries.len() - 1].0@
        && canonical(table, fields[entries.len() - 1].1, entries.last().1, json, fuel))
}

pub open spec fn canonical_tagged(
    table: Seq<SmithCustomTyp<usize>>,
    variants: Seq<(String, Option<SmithType<usize>>)>,
    entries: Seq<(Seq<char>, Val)>,
    json: bool,
    fuel: nat,
) -> bool
    decreases entries,
{
    entries.len() >= 1 && entries[0].0 == "tag"@ && entries[0].1 is Str && match variant_index(
        variants,
        entries[0].1->Str_0,
    ) {
        Some(k) => k <= u64::MAX && match variants[k as int].1 {
            None => entries.len() == 1,
            Some(pt) => entries.len() == 2 && entries[1].0 == "val"@ && canonical(
                table,
                pt,
                entries[1].1,
                json,
                fuel,
            ),
        },
        None => false,
    }
}

proof fn lemma_round_trip_scalar(
    table: Seq<SmithCustomTyp<usize>>,
    t: SmithType<usize>,
    v: Val,
    json: bool,
    fuel: nat,
    rest: Seq<u8>,
)
    requires
        canonical(table, t, v, json, fuel),
        !(v is List || v is Record || v is Variant),
    ensures
        enc(table, t, v) is Ok,
        dec(table, t, enc(table, t, v)->Ok_0 + rest, json, fuel) == Ok::<(Val, nat), crate::error::Error>(
            (v, enc(table, t, v)->Ok_0.len()),
        ),
{
    match v {
        Val::Bool(b) => {
            let bytes = enc(table, t, v)->Ok_0;
            assert((bytes + rest)[0] == bytes[0]);
        },
        Val::UInt(x) => {
            if t is UInt {
                lemma_udint_dec(x as nat, rest);
            } else {
                lemma_pow256_table();
                lemma_fixed_round_trip(x as nat, int_width(t), rest);
            }
        },
        Val::Int(x) => {
            lemma_pow256_table();
            let w = int_width(t);
            let repr: nat = if x < 0 {
                (x + int_max(t) + int_max(t) + 2) as nat
            } else {
                x as nat
            };
            lemma_fixed_round_trip(repr, w, rest);
        },
        Val::F32(bits) => {
            lemma_pow256_table();
            lemma_fixed_round_trip(bits as nat, 4, rest);
        },
        Val::F64(bits) => {
            lemma_pow256_table();
            lemma_fixed_round_trip(bits as nat, 8, rest);
        },
        Val::Str(chars) => {
            let e = encode_utf8(chars);
            let all = e.push(0u8) + rest;
            assert forall|j: int| 0 <= j < e.len() implies all[j] != 0 by {
                assert(all[j] == e[j]);
                if e[j] == 0 {
                    assert(e.contains(0u8));
                }
            }
            assert(all[e.len() as int] == 0);
            lemma_zero_from(all, 0, e.len() as int);
            assert(all.take(e.len() as int) =~= e);
            encode_utf8_valid_utf8(chars);
            encode_utf8_decode_utf8(chars);
        },
        _ => {},
    }
}

/// Decoding the encoding of a canonical value gives the value back and
/// consumes exactly the encoding, whatever follows it.
pub proof fn lemma_round_trip(
    table: Seq<SmithCustomTyp<usize>>,
    t: SmithType<usize>,
    v: Val,
    json: bool,
    fuel: nat,
    rest: Seq<u8>,
)
    requires
        canonical(table, t, v, json, fuel),
    ensures
        enc(table, t, v) is Ok,
        dec(table, t, enc(table, t, v)->Ok_0 + rest, json, fuel) == Ok::<(Val, nat), crate::error::Error>(
            (v, enc(table, t, v)->Ok_0.len()),
        ),
    decreases v, 1nat,
{
    match v {
        Val::List(_) => lemma_round_trip_array(table, t, v, json, fuel, rest),
        Val::Record(_) => {
            if t matches SmithType::CustomType(id, _) && id < table.len() && table[id as int].variant is Enum {
                lemma_round_trip_tagged(table, t, v, json, fuel, rest);
            } else {
                lemma_round_trip_record(table, t, v, json, fuel, rest);
            }
        },
        Val::Variant(_, _) => lemma_round_trip_variant(table, t, v, json, fuel, rest),
        _ => lemma_round_trip_scalar(table, t, v, json, fuel, rest),
    }
}

proof fn lemma_round_trip_array(
    table: Seq<SmithCustomTyp<usize>>,
    t: SmithType<usize>,
    v: Val,
    json: bool,
    fuel: nat,
    rest: Seq<u8>,
)
    requires
        canonical(table, t, v, json, fuel),
        v is List,
    ensures
        enc(table, t, v) is Ok,
        dec(table, t, enc(table, t, v)->Ok_0 + rest, json, fuel) == Ok::<(Val, nat), crate::error::Error>(
            (v, enc(table, t, v)->Ok_0.len()),
        ),
    decreases v, 0nat,
{
    match v {
        Val::List(items) => {
            let et = *t->Array_0;
            let f = (fuel - 1) as nat;
            lemma_round_trip_list(table, et, items, json, f, rest);
            let body = enc_list(table, et, items)->Ok_0;
            let head = udint_bytes(items.len());
            lemma_udint_dec(items.len(), body + rest);
            assert(enc(table, t, v)->Ok_0 + rest =~= head + (body + rest));
            assert((head + (body + rest)).skip(head.len() as int) =~= body + rest);
        },
        _ => {},
    }
}

proof fn lemma_round_trip_record(
    table: Seq<SmithCustomTyp<usize>>,
    t: SmithType<usize>,
    v: Val,
    json: bool,
    fuel: nat,
    rest: Seq<u8>,
)
    requires
        canonical(table, t, v, json, fuel),
        v is Record,
        !(t matches SmithType::CustomType(id, _) && id < table.len() && table[id as int].variant is Enum),
    ensures
        enc(table, t, v) is Ok,
        dec(table, t, enc(table, t, v)->Ok_0 + rest, json, fuel) == Ok::<(Val, nat), crate::error::Error>(
            (v, enc(table, t, v)->Ok_0.len()),
        ),
    decreases v, 0nat,
{
    match v {
        Val::Record(entries) => {
            let id = t->CustomType_0;
            let f = (fuel - 1) as nat;
            match table[id as int].variant {
                SmithCustomTypVariant::Struct(st) => {
                    lemma_round_trip_fields(table, st.fields@, entries, json, f, rest);
                },
                SmithCustomTypVariant::Enum(_) => {},
            }
        },
        _ => {},
    }
}

proof fn lemma_round_trip_tagged(
    table: Seq<SmithCustomTyp<usize>>,
    t: SmithType<usize>,
    v: Val,
    json: bool,
    fuel: nat,
    rest: Seq<u8>,
)
    requires
        canonical(table, t, v, json, fuel),
        v is Record,
        t matches SmithType::CustomType(id, _) && id < table.len() && table[id as int].variant is Enum,
    ensures
        enc(table, t, v) is Ok,
        dec(table, t, enc(table, t, v)->Ok_0 + rest, json, fuel) == Ok::<(Val, nat), crate::error::Error>(
            (v, enc(table, t, v)->Ok_0.len()),
        ),
    decreases v, 0nat,
{
    let entries = v->Record_0;
    let id = t->CustomType_0;
    let f = (fuel - 1) as nat;
    let e = table[id as int].variant->Enum_0;
    assert(enc(table, t, v) == enc_tagged(table, e.variants@, entries));
    assert(canonical_tagged(table, e.variants@, entries, json, f));
    let name = entries[0].1->Str_0;
    lemma_variant_from(e.variants@, name, 0);
    let k = variant_index(e.variants@, name)->0;
    let head = udint_bytes(k);
    match e.variants@[k as int].1 {
        None => {
            lemma_udint_dec(k, rest);
            assert(entries =~= seq![("tag"@, Val::Str(e.variants@[k as int].0@))]);
        },
        Some(pt) => {
            lemma_round_trip(table, pt, entries[1].1, json, f, rest);
            let body = enc(table, pt, entries[1].1)->Ok_0;
            lemma_udint_dec(k, body + rest);
            assert(enc_tagged(table, e.variants@, entries) == Ok::<Seq<u8>, crate::error::Error>(head + body));
            assert(enc(table, t, v)->Ok_0 + rest =~= head + (body + rest));
            assert((head + (body + rest)).skip(head.len() as int) =~= body + rest);
            assert(entries =~= seq![("tag"@, Val::Str(e.variants@[k as int].0@)), ("val"@, entries[1].1)]);
        },
    }
}

proof fn lemma_round_trip_variant(
    table: Seq<SmithCustomTyp<usize>>,
    t: SmithType<usize>,
    v: Val,
    json: bool,
    fuel: nat,
    rest: Seq<u8>,
)
    requires
        canonical(table, t, v, json, fuel),
        v is Variant,
    ensures
        enc(table, t, v) is Ok,
        dec(table, t, enc(table, t, v)->Ok_0 + rest, json, fuel) == Ok::<(Val, nat), crate::error::Error>(
            (v, enc(table, t, v)->Ok_0.len()),
        ),
    decreases v, 0nat,
{
    match v {
        Val::Variant(name, payload) => {
            let id = t->CustomType_0;
            let f = (fuel - 1) as nat;
            let e = table[id as int].variant->Enum_0;
            lemma_variant_from(e.variants@, name, 0);
            let k = variant_index(e.variants@, name)->0;
            let head = udint_bytes(k);
            match e.variants@[k as int].1 {
                None => {
                    lemma_udint_dec(k, rest);
                },
                Some(pt) => {
                    let p = *payload->0;
                    lemma_round_trip(table, pt, p, json, f, rest);
                    let body = enc(table, pt, p)->Ok_0;
                    lemma_udint_dec(k, body + rest);
                    assert(enc(table, t, v)->Ok_0 + rest =~= head + (body + rest));
                    assert((head + (body + rest)).skip(head.len() as int) =~= body + rest);
                },
            }
        },
        _ => {},
    }
}

proof fn lemma_round_trip_list(
    table: Seq<SmithCustomTyp<usize>>,
    et: SmithType<usize>,
    items: Seq<Val>,
    json: bool,
    fuel: nat,
    rest: Seq<u8>,
)
    requires
        canonical_list(table, et, items, json, fuel),
    ensures
        enc_list(table, et, items) is Ok,
        dec_list(table, et, enc_list(table, et, items)->Ok_0 + rest, json, fuel, items.len())
        == Ok::<(Seq<Val>, nat), crate::error::Error>((items, enc_list(table, et, items)->Ok_0.len())),
    decreases items, 2nat,
{
    if items.len() > 0 {
        let init = items.drop_last();
        let last = items.last();
        lemma_round_trip(table, et, last, json, fuel, rest);
        let b2 = enc(table, et, last)->Ok_0;
        lemma_round_trip_list(table, et, init, json, fuel, b2 + rest);
        let b1 = enc_list(table, et, init)->Ok_0;
        assert(enc_list(table, et, items) == Ok::<Seq<u8>, crate::error::Error>(b1 + b2));
        assert(enc_list(table, et, items)->Ok_0 + rest =~= b1 + (b2 + rest));
        let s = b1 + (b2 + rest);
        assert(s.skip(b1.len() as int) =~= b2 + rest);
        assert(init.push(last) =~= items);
        assert((items.len() - 1) as nat == init.len());
        assert(dec_list(table, et, s, json, fuel, init.len()) == Ok::<(Seq<Val>, nat), crate::error::Error>((init, b1.len())));
        assert(dec(table, et, s.skip(b1.len() as int), json, fuel) == Ok::<(Val, nat), crate::error::Error>((last, b2.len())));
    } else {
        assert(enc_list(table, et, items)->Ok_0 + rest =~= rest);
        assert(items =~= Seq::<Val>::empty());
    }
}

proof fn lemma_round_trip_fields(
    table: Seq<SmithCustomTyp<usize>>,
    fields: Seq<(String, SmithType<usize>)>,
    entries: Seq<(Seq<char>, Val)>,
    json: bool,
    fuel: nat,
    rest: Seq<u8>,
)
    requires
        canonical_fields(table, fields, entries, json, fuel),
        entries.len() <= fields.len(),
    ensures
        enc_fields(table, fields, entries) is Ok,
        dec_fields(table, fields, enc_fields(table, fields, entries)->Ok_0 + rest, json, fuel, entries.len())
        == Ok::<(Seq<(Seq<char>, Val)>, nat), crate::error::Error>((entries, enc_fields(table, fields, entries)->Ok_0.len())),
    decreases entries, 2nat,
{
    if entries.len() > 0 {
        let init = entries.drop_last();
        let last = entries.last();
        let n = entries.len();
        lemma_round_trip(table, fields[n - 1].1, last.1, json, fuel, rest);
        let b2 = enc(table, fields[n - 1].1, last.1)->Ok_0;
        lemma_round_trip_fields(table, fields, init, json, fuel, b2 + rest);
        let b1 = enc_fields(table, fields, init)->Ok_0;
        assert(enc_fields(table, fields, entries) == Ok::<Seq<u8>, crate::error::Error>(b1 + b2));
        assert(enc_fields(table, fields, entries)->Ok_0 + rest =~= b1 + (b2 + rest));
        let s = b1 + (b2 + rest);
        assert(s.skip(b1.len() as int) =~= b2 + rest);
        assert(init.push((fields[n - 1].0@, last.1)) =~= entries);
        assert((n - 1) as nat == init.len());
        assert(dec_fields(table, fields, s, json, fuel, init.len()) == Ok::<(Seq<(Seq<char>, Val)>, nat), crate::error::Error>((init, b1.len())));
        assert(dec(table, fields[n - 1].1, s.skip(b1.len() as int), json, fuel) == Ok::<(Val, nat), crate::error::Error>((last.1, b2.len())));
    } else {
        assert(enc_fields(table, fields, entries)->Ok_0 + rest =~= rest);
        assert(entries =~= Seq::<(Seq<char>, Val)>::empty());
    }
}

/// Round trip in native shape: decoding the encoding of a canonical value,
/// with enums as variants, gives the value back and consumes every byte.
pub proof fn lemma_round_trip_binary(table: Seq<SmithCustomTyp<usize>>, t: SmithType<usize>, v: Val)
    requires
        canonical(table, t, v, false, MAX_DEPTH as nat),
    ensures
        enc(table, t, v) matches Ok(b) && dec(table, t, b, false, MAX_DEPTH as nat) == Ok::<(Val, nat), crate::error::Error>((v, b.len())),
{
    lemma_round_trip(table, t, v, false, MAX_DEPTH as nat, Seq::empty());
    assert(enc(table, t, v)->Ok_0 + Seq::<u8>::empty() =~= enc(table, t, v)->Ok_0);
}

/// Round trip in JSON shape: a document with enums as `tag`/`val` maps that
/// conforms to the type comes back unchanged from binary.
pub proof fn lemma_round_trip_json(table: Seq<SmithCustomTyp<usize>>, t: SmithType<usize>, j: Val)
    requires
        canonical(table, t, j, true, MAX_DEPTH as nat),
    ensures
        enc(table, t, j) matches Ok(b) && dec(table, t, b, true, MAX_DEPTH as nat) == Ok::<(Val, nat), crate::error::Error>((j, b.len())),
{
    lemma_round_trip(table, t, j, true, MAX_DEPTH as nat, Seq::empty());
    assert(enc(table, t, j)->Ok_0 + Seq::<u8>::empty() =~= enc(table, t, j)->Ok_0);
}

} // verus!
