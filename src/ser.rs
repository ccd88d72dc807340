use vstd::prelude::*;

use crate::error::Error;
use crate::types::{SmithCustomTyp, SmithCustomTypVariant, SmithType};
use crate::value::{
    entries_view, lemma_entries_view, lemma_list_view, list_view, value_view, Val, Value,
};
use crate::wire::{be_bytes, push_be, push_udint, udint_bytes};
use vstd::utf8::encode_utf8;

verus! {

/// Index of the first variant at or after `i` named `name`.
pub open spec fn variant_from(
    vs: Seq<(String, Option<SmithType<usize>>)>,
    name: Seq<char>,
    i: int,
) -> Option<nat>
    decreases vs.len() - i,
{
    if i < 0 || i >= vs.len() {
        None
    } else if vs[i].0@ == name {
        Some(i as nat)
    } else {
        variant_from(vs, name, i + 1)
    }
}

/// Ordinal of the first variant named `name`.
pub open spec fn variant_index(vs: Seq<(String, Option<SmithType<usize>>)>, name: Seq<char>) -> Option<
    nat,
> {
    variant_from(vs, name, 0)
}

pub proof fn lemma_variant_from(vs: Seq<(String, Option<SmithType<usize>>)>, name: Seq<char>, i: int)
    requires
        0 <= i <= vs.len(),
    ensures
        match variant_from(vs, name, i) {
            Some(k) => i <= k < vs.len() && vs[k as int].0@ == name,
            None => true,
        },
    decreases vs.len() - i,
{
    if i < vs.len() && vs[i].0@ != name {
        lemma_variant_from(vs, name, i + 1);
    }
}

/// Finds the ordinal of the first variant named `name`.
pub fn find_variant(vs: &Vec<(String, Option<SmithType<usize>>)>, name: &String) -> (r: Option<usize>)
    ensures
        match variant_index(vs@, name@) {
            Some(k) => r is Some && r->0 == k && k < vs@.len(),
            None => r is None,
        },
{
    let mut i: usize = 0;
    while i < vs.len()
        invariant
            0 <= i <= vs@.len(),
            variant_index(vs@, name@) == variant_from(vs@, name@, i as int),
        decreases vs@.len() - i,
    {
        proof {
            lemma_variant_from(vs@, name@, i as int);
        }
        if vs[i].0.eq(name) {
            return Some(i);
        }
        i = i + 1;
    }
    None
}

/// Whether `s` reads exactly `lit`.
pub fn text_is(s: &String, lit: &str) -> (r: bool)
    ensures
        r == (s@ == lit@),
{
    let a = s.as_str();
    let n = a.unicode_len();
    if n != lit.unicode_len() {
        return false;
    }
    let mut i: usize = 0;
    while i < n
        invariant
            n == a@.len() == lit@.len(),
            a@ == s@,
            0 <= i <= n,
            forall|j: int| 0 <= j < i ==> a@[j] == lit@[j],
        decreases n - i,
    {
        if a.get_char(i) != lit.get_char(i) {
            return false;
        }
        i = i + 1;
    }
    assert(s@ =~= lit@);
    true
}

/// Number of bytes of a fixed-width integer type, zero for the others.
pub open spec fn int_width(t: SmithType<usize>) -> nat {
    match t {
        SmithType::I8 | SmithType::U8 => 1,
        SmithType::I16 | SmithType::U16 => 2,
        SmithType::I32 | SmithType::U32 => 4,
        SmithType::U64 => 8,
        _ => 0,
    }
}

pub open spec fn is_signed(t: SmithType<usize>) -> bool {
    t is I8 || t is I16 || t is I32
}

/// Smallest and largest value of an integer type of the schema.
pub open spec fn int_min(t: SmithType<usize>) -> int {
    match t {
        SmithType::I8 => -0x80,
        SmithType::I16 => -0x8000,
        SmithType::I32 => -0x8000_0000,
        _ => 0,
    }
}

pub open spec fn int_max(t: SmithType<usize>) -> int {
    match t {
        SmithType::I8 => 0x7f,
        SmithType::I16 => 0x7fff,
        SmithType::I32 => 0x7fff_ffff,
        SmithType::U8 => 0xff,
        SmithType::U16 => 0xffff,
        SmithType::U32 => 0xffff_ffff,
        _ => 0xffff_ffff_ffff_ffff,
    }
}

pub open spec fn is_int_type(t: SmithType<usize>) -> bool {
    int_width(t) > 0 || t is UInt
}

/// The encoding of integer `x` under integer cursor `t`: two's complement
/// big-endian for fixed widths, udInt for `udInt`.
pub open spec fn enc_int(t: SmithType<usize>, x: int) -> Result<Seq<u8>, Error> {
    if !is_int_type(t) {
        Err(Error::TypeMismatch)
    } else if x < int_min(t) || x > int_max(t) {
        Err(Error::IntegerRange)
    } else if t is UInt {
        Ok(udint_bytes(x as nat))
    } else if x < 0 {
        Ok(be_bytes((x + int_max(t) + int_max(t) + 2) as nat, int_width(t)))
    } else {
        Ok(be_bytes(x as nat, int_width(t)))
    }
}

/// The encoding of `v` under cursor `t` against type table `table`, or the
/// first error met in stream order.
pub open spec fn enc(table: Seq<SmithCustomTyp<usize>>, t: SmithType<usize>, v: Val) -> Result<
    Seq<u8>,
    Error,
>
    decreases v,
{
    match v {
        Val::Bool(b) => if t is Bool {
            Ok(seq![if b { 1u8 } else { 0u8 }])
        } else {
            Err(Error::TypeMismatch)
        },
        Val::UInt(x) => enc_int(t, x as int),
        Val::Int(x) => enc_int(t, x as int),
        Val::F32(bits) => if t is F32 {
            Ok(be_bytes(bits as nat, 4))
        } else {
            Err(Error::TypeMismatch)
        },
        Val::F64(bits) => if t is F64 {
            Ok(be_bytes(bits as nat, 8))
        } else {
            Err(Error::TypeMismatch)
        },
        Val::Str(s) => if !(t is String) {
            Err(Error::TypeMismatch)
        } else if encode_utf8(s).contains(0u8) {
            Err(Error::NulInString)
        } else {
            Ok(encode_utf8(s).push(0u8))
        },
        Val::List(items) => match t {
            SmithType::Array(et) => match enc_list(table, *et, items) {
                Ok(b) => Ok(udint_bytes(items.len()) + b),
                Err(e) => Err(e),
            },
            _ => Err(Error::TypeMismatch),
        },
        Val::Record(entries) => match t {
            SmithType::CustomType(id, _) => if id >= table.len() {
                Err(Error::UnresolvedName)
            } else {
                match table[id as int].variant {
                    SmithCustomTypVariant::Struct(s) => match enc_fields(
                        table,
                        s.fields@,
                        entries,
                    ) {
                        Ok(b) => if entries.len() < s.fields@.len() {
                            Err(Error::MissingStructField)
                        } else {
                            Ok(b)
                        },
                        Err(e) => Err(e),
                    },
                    SmithCustomTypVariant::Enum(e) => enc_tagged(table, e.variants@, entries),
                }
            },
            _ => Err(Error::TypeMismatch),
        },
        Val::Variant(name, payload) => match t {
            SmithType::CustomType(id, _) => if id >= table.len() {
                Err(Error::UnresolvedName)
            } else {
                match table[id as int].variant {
                    SmithCustomTypVariant::Struct(_) => Err(Error::TypeMismatch),
                    SmithCustomTypVariant::Enum(e) => match variant_index(e.variants@, name) {
                        None => Err(Error::UnknownEnumVariant),
                        Some(k) => match e.variants@[k as int].1 {
                            None => if payload is None {
                                Ok(udint_bytes(k))
                            } else {
                                Err(Error::TypeMismatch)
                            },
                            Some(pt) => match payload {
                                None => Err(Error::TypeMismatch),
                                Some(p) => match enc(table, pt, *p) {
                                    Ok(c) => Ok(udint_bytes(k) + c),
                                    Err(e) => Err(e),
                                },
                            },
                        },
                    },
                }
            },
            _ => Err(Error::TypeMismatch),
        },
    }
}

/// The encodings of `items`, one after another, under element type `et`.
pub open spec fn enc_list(table: Seq<SmithCustomTyp<usize>>, et: SmithType<usize>, items: Seq<Val>) -> Result<
    Seq<u8>,
    Error,
>
    decreases items,
{
    if items.len() == 0 {
        Ok(Seq::empty())
    } else {
        match enc_list(table, et, items.drop_last()) {
            Err(e) => Err(e),
            Ok(b) => match enc(table, et, items.last()) {
                Err(e) => Err(e),
                Ok(c) => Ok(b + c),
            },
        }
    }
}

/// The encodings of struct entries, each checked against the field at its position.
pub open spec fn enc_fields(
    table: Seq<SmithCustomTyp<usize>>,
    fields: Seq<(String, SmithType<usize>)>,
    entries: Seq<(Seq<char>, Val)>,
) -> Result<Seq<u8>, Error>
    decreases entries,
{
    if entries.len() == 0 {
        Ok(Seq::empty())
    } else {
        match enc_fields(table, fields, entries.drop_last()) {
            Err(e) => Err(e),
            Ok(b) => {
                let i = entries.len() - 1;
                if i >= fields.len() {
                    Err(Error::UnexpectedField)
                } else if entries.last().0 != fields[i].0@ {
                    Err(Error::WrongFieldOrder)
                } else {
                    match enc(table, fields[i].1, entries.last().1) {
                        Err(e) => Err(e),
                        Ok(c) => Ok(b + c),
                    }
                }
            },
        }
    }
}

/// The encoding of an enum given in map shape: `tag`, then `val` for a payload.
pub open spec fn enc_tagged(
    table: Seq<SmithCustomTyp<usize>>,
    variants: Seq<(String, Option<SmithType<usize>>)>,
    entries: Seq<(Seq<char>, Val)>,
) -> Result<Seq<u8>, Error>
    decreases entries,
{
    if entries.len() == 0 || entries[0].0 != "tag"@ {
        Err(Error::UnexpectedEnumKey)
    } else {
        match entries[0].1 {
            Val::Str(name) => match variant_index(variants, name) {
                None => Err(Error::UnknownEnumVariant),
                Some(k) => match variants[k as int].1 {
                    None => if entries.len() == 1 {
                        Ok(udint_bytes(k))
                    } else {
                        Err(Error::UnexpectedEnumKey)
                    },
                    Some(pt) => if entries.len() == 2 && entries[1].0 == "val"@ {
                        match enc(table, pt, entries[1].1) {
                            Err(e) => Err(e),
                            Ok(c) => Ok(udint_bytes(k) + c),
                        }
                    } else {
                        Err(Error::UnexpectedEnumKey)
                    },
                },
            },
            _ => Err(Error::TypeMismatch),
        }
    }
}

pub proof fn lemma_enc_list_prefix_err(
    table: Seq<SmithCustomTyp<usize>>,
    et: SmithType<usize>,
    s: Seq<Val>,
    k: int,
)
    requires
        0 <= k <= s.len(),
        enc_list(table, et, s.take(k)) is Err,
    ensures
        enc_list(table, et, s) == enc_list(table, et, s.take(k)),
    decreases s.len() - k,
{
    if k < s.len() {
        assert(s.take(k + 1).drop_last() =~= s.take(k));
        lemma_enc_list_prefix_err(table, et, s, k + 1);
    } else {
        assert(s.take(k) =~= s);
    }
}

pub proof fn lemma_enc_fields_prefix_err(
    table: Seq<SmithCustomTyp<usize>>,
    fields: Seq<(String, SmithType<usize>)>,
    s: Seq<(Seq<char>, Val)>,
    k: int,
)
    requires
        0 <= k <= s.len(),
        enc_fields(table, fields, s.take(k)) is Err,
    ensures
        enc_fields(table, fields, s) == enc_fields(table, fields, s.take(k)),
    decreases s.len() - k,
{
    if k < s.len() {
        assert(s.take(k + 1).drop_last() =~= s.take(k));
        lemma_enc_fields_prefix_err(table, fields, s, k + 1);
    } else {
        assert(s.take(k) =~= s);
    }
}

/// Holds `r` to what `spec` says: the bytes appended on success, the error otherwise.
pub open spec fn appended(
    r: Result<(), Error>,
    spec: Result<Seq<u8>, Error>,
    before: Seq<u8>,
    after: Seq<u8>,
) -> bool {
    match spec {
        Ok(b) => r is Ok && after == before + b,
        Err(e) => r == Err::<(), Error>(e),
    }
}

/// Writes values into a byte buffer, driven by a type cursor over a type table.
pub struct Serializer<'a> {
    pub buff: Vec<u8>,
    pub prog: &'a Vec<SmithCustomTyp<usize>>,
    pub current_type: &'a SmithType<usize>,
}

impl<'a> Serializer<'a> {
    pub fn new(prog: &'a Vec<SmithCustomTyp<usize>>, typ: &'a SmithType<usize>) -> (r: Self)
        ensures
            r.buff@.len() == 0,
            r.prog == prog,
            r.current_type == typ,
    {
        Serializer { buff: Vec::new(), prog, current_type: typ }
    }

    pub fn buffer(self) -> (r: Vec<u8>)
        ensures
            r == self.buff,
    {
        self.buff
    }

    /// Appends the encoding of `v` under the current type.
    pub fn serialize(&mut self, v: &Value) -> (r: Result<(), Error>)
        ensures
            appended(r, enc(old(self).prog@, *old(self).current_type, v@), old(self).buff@, final(self).buff@),
            final(self).prog == old(self).prog,
    {
        let t = self.current_type;
        self.write(t, v)
    }

    fn write_int(&mut self, t: &'a SmithType<usize>, x: i128) -> (r: Result<(), Error>)
        ensures
            appended(r, enc_int(*t, x as int), old(self).buff@, final(self).buff@),
            final(self).prog == old(self).prog,
    {
        let (lo, hi, width): (i128, i128, usize) = match t {
            SmithType::I8 => (-0x80, 0x7f, 1),
            SmithType::I16 => (-0x8000, 0x7fff, 2),
            SmithType::I32 => (-0x8000_0000, 0x7fff_ffff, 4),
            SmithType::U8 => (0, 0xff, 1),
            SmithType::U16 => (0, 0xffff, 2),
            SmithType::U32 => (0, 0xffff_ffff, 4),
            SmithType::U64 => (0, 0xffff_ffff_ffff_ffff, 8),
            SmithType::UInt => (0, 0xffff_ffff_ffff_ffff, 0),
            _ => {
                return Err(Error::TypeMismatch);
            },
        };
        if x < lo || x > hi {
            return Err(Error::IntegerRange);
        }
        if width == 0 {
            push_udint(&mut self.buff, x as u64);
        } else if x < 0 {
            push_be(&mut self.buff, (x + hi + hi + 2) as u64, width);
        } else {
            push_be(&mut self.buff, x as u64, width);
        }
        Ok(())
    }

    fn write_str(&mut self, s: &String) -> (r: Result<(), Error>)
        ensures
            appended(
                r,
                if encode_utf8(s@).contains(0u8) {
                    Err(Error::NulInString)
                } else {
                    Ok(encode_utf8(s@).push(0u8))
                },
                old(self).buff@,
                final(self).buff@,
            ),
            final(self).prog == old(self).prog,
    {
        let bytes = s.as_str().as_bytes();
        let ghost start = self.buff@;
        let mut i: usize = 0;
        while i < bytes.len()
            invariant
                bytes@ == encode_utf8(s@),
                0 <= i <= bytes@.len(),
                self.buff@ == start + bytes@.take(i as int),
                forall|j: int| 0 <= j < i ==> bytes@[j] != 0u8,
                self.prog == old(self).prog,
            decreases bytes@.len() - i,
        {
            if bytes[i] == 0 {
                assert(bytes@.contains(0u8)) by {
                    assert(bytes@[i as int] == 0u8);
                }
                return Err(Error::NulInString);
            }
            self.buff.push(bytes[i]);
            assert(bytes@.take(i as int + 1) =~= bytes@.take(i as int).push(bytes@[i as int]));
            i = i + 1;
        }
        self.buff.push(0);
        assert(bytes@.take(i as int) =~= bytes@);
        assert(!bytes@.contains(0u8));
        Ok(())
    }

    fn write(&mut self, t: &'a SmithType<usize>, v: &Value) -> (r: Result<(), Error>)
        ensures
            appended(r, enc(old(self).prog@, *t, v@), old(self).buff@, final(self).buff@),
            final(self).prog == old(self).prog,
        decreases v,
    {
        let prog: &'a Vec<SmithCustomTyp<usize>> = self.prog;
        match v {
            Value::Bool(b) => {
                if let SmithType::Bool = t {
                    self.buff.push(if *b { 1u8 } else { 0u8 });
                    assert(self.buff@ =~= old(self).buff@ + seq![if *b { 1u8 } else { 0u8 }]);
                    Ok(())
                } else {
                    Err(Error::TypeMismatch)
                }
            },
            Value::UInt(x) => self.write_int(t, *x as i128),
            Value::Int(x) => self.write_int(t, *x as i128),
            Value::F32(bits) => {
                if let SmithType::F32 = t {
                    push_be(&mut self.buff, *bits as u64, 4);
                    Ok(())
                } else {
                    Err(Error::TypeMismatch)
                }
            },
            Value::F64(bits) => {
                if let SmithType::F64 = t {
                    push_be(&mut self.buff, *bits, 8);
                    Ok(())
                } else {
                    Err(Error::TypeMismatch)
                }
            },
            Value::Str(s) => {
                if let SmithType::String = t {
                    self.write_str(s)
                } else {
                    Err(Error::TypeMismatch)
                }
            },
            Value::List(items) => {
                if let SmithType::Array(et) = t {
                    let et: &'a SmithType<usize> = et;
                    proof {
                        lemma_list_view(items@);
                    }
                    self.write_list(et, items)
                } else {
                    Err(Error::TypeMismatch)
                }
            },
            Value::Record(entries) => {
                proof {
                    lemma_entries_view(entries@);
                }
                if let SmithType::CustomType(id, _) = t {
                    if *id >= prog.len() {
                        return Err(Error::UnresolvedName);
                    }
                    match &prog[*id].variant {
                        SmithCustomTypVariant::Struct(s) => {
                            let fields: &'a Vec<(String, SmithType<usize>)> = &s.fields;
                            self.write_fields(fields, entries)
                        },
                        SmithCustomTypVariant::Enum(e) => {
                            let variants: &'a Vec<(String, Option<SmithType<usize>>)> = &e.variants;
                            self.write_tagged(variants, entries)
                        },
                    }
                } else {
                    Err(Error::TypeMismatch)
                }
            },
            Value::Variant(name, payload) => {
                if let SmithType::CustomType(id, _) = t {
                    if *id >= prog.len() {
                        return Err(Error::UnresolvedName);
                    }
                    match &prog[*id].variant {
                        SmithCustomTypVariant::Struct(_) => Err(Error::TypeMismatch),
                        SmithCustomTypVariant::Enum(e) => {
                            let variants: &'a Vec<(String, Option<SmithType<usize>>)> = &e.variants;
                            let k = match find_variant(variants, name) {
                                Some(k) => k,
                                None => {
                                    return Err(Error::UnknownEnumVariant);
                                },
                            };
                            match &variants[k].1 {
                                None => {
                                    if payload.is_none() {
                                        push_udint(&mut self.buff, k as u64);
                                        Ok(())
                                    } else {
                                        Err(Error::TypeMismatch)
                                    }
                                },
                                Some(pt) => {
                                    match payload {
                                        None => Err(Error::TypeMismatch),
                                        Some(p) => {
                                            push_udint(&mut self.buff, k as u64);
                                            let ghost mid = self.buff@;
                                            let r = self.write(pt, p);
                                            proof {
                                                if r is Ok {
                                                    assert(self.buff@ =~= old(self).buff@ + (
                                                    udint_bytes(k as nat) + enc(
                                                        old(self).prog@,
                                                        *pt,
                                                        (**p)@,
                                                    ).unwrap()));
                                                }
                                            }
                                            r
                                        },
                                    }
                                },
                            }
                        },
                    }
                } else {
                    Err(Error::TypeMismatch)
                }
            },
        }
    }

    fn write_list(&mut self, et: &'a SmithType<usize>, items: &Vec<Value>) -> (r: Result<(), Error>)
        ensures
            appended(
                r,
                match enc_list(old(self).prog@, *et, list_view(items@)) {
                    Ok(b) => Ok(udint_bytes(items@.len() as nat) + b),
                    Err(e) => Err(e),
                },
                old(self).buff@,
                final(self).buff@,
            ),
            final(self).prog == old(self).prog,
        decreases items, 0nat,
    {
        push_udint(&mut self.buff, items.len() as u64);
        let ghost start = self.buff@;
        let ghost table = self.prog@;
        let ghost all = list_view(items@);
        proof {
            lemma_list_view(items@);
            assert(all.take(0) =~= Seq::<Val>::empty());
        }
        let mut i: usize = 0;
        while i < items.len()
            invariant
                0 <= i <= items@.len(),
                all == list_view(items@),
                all.len() == items@.len(),
                forall|j: int| 0 <= j < items@.len() ==> #[trigger] all[j] == value_view(items@[j]),
                table == self.prog@,
                self.prog == old(self).prog,
                start == old(self).buff@ + udint_bytes(items@.len() as nat),
                enc_list(table, *et, all.take(i as int)) is Ok,
                self.buff@ == start + enc_list(table, *et, all.take(i as int)).unwrap(),
            decreases items@.len() - i,
        {
            let ghost before = self.buff@;
            let r = self.write(et, &items[i]);
            proof {
                assert(all.take(i as int + 1).drop_last() =~= all.take(i as int));
                assert(all.take(i as int + 1).last() == items@[i as int]@);
            }
            match r {
                Err(e) => {
                    proof {
                        lemma_enc_list_prefix_err(table, *et, all, i as int + 1);
                    }
                    return Err(e);
                },
                Ok(()) => {},
            }
            proof {
                let b = enc_list(table, *et, all.take(i as int)).unwrap();
                let c = enc(table, *et, items@[i as int]@).unwrap();
                assert(self.buff@ =~= start + (b + c));
            }
            i = i + 1;
        }
        proof {
            assert(all.take(i as int) =~= all);
            assert(self.buff@ =~= old(self).buff@ + (udint_bytes(items@.len() as nat)
                + enc_list(table, *et, all).unwrap()));
        }
        Ok(())
    }

    fn write_fields(&mut self, fields: &'a Vec<(String, SmithType<usize>)>, entries: &Vec<(String, Value)>) -> (r: Result<(), Error>)
        ensures
            appended(
                r,
                match enc_fields(old(self).prog@, fields@, entries_view(entries@)) {
                    Ok(b) => if entries@.len() < fields@.len() {
                        Err(Error::MissingStructField)
                    } else {
                        Ok(b)
                    },
                    Err(e) => Err(e),
                },
                old(self).buff@,
                final(self).buff@,
            ),
            final(self).prog == old(self).prog,
        decreases entries, 0nat,
    {
        let ghost start = self.buff@;
        let ghost table = self.prog@;
        let ghost all = entries_view(entries@);
        proof {
            lemma_entries_view(entries@);
            assert(all.take(0) =~= Seq::<(Seq<char>, Val)>::empty());
        }
        let mut i: usize = 0;
        while i < entries.len()
            invariant
                0 <= i <= entries@.len(),
                all == entries_view(entries@),
                all.len() == entries@.len(),
                forall|j: int|
                    0 <= j < entries@.len() ==> #[trigger] all[j] == (
                    entries@[j].0@,
                    value_view(entries@[j].1),
                ),
                table == self.prog@,
                self.prog == old(self).prog,
                start == old(self).buff@,
                enc_fields(table, fields@, all.take(i as int)) is Ok,
                self.buff@ == start + enc_fields(table, fields@, all.take(i as int)).unwrap(),
            decreases entries@.len() - i,
        {
            proof {
                assert(all.take(i as int + 1).drop_last() =~= all.take(i as int));
                assert(all.take(i as int + 1).last() == all[i as int]);
            }
            if i >= fields.len() {
                proof {
                    lemma_enc_fields_prefix_err(table, fields@, all, i as int + 1);
                }
                return Err(Error::UnexpectedField);
            }
            if !entries[i].0.eq(&fields[i].0) {
                proof {
                    lemma_enc_fields_prefix_err(table, fields@, all, i as int + 1);
                }
                return Err(Error::WrongFieldOrder);
            }
            let ft: &'a SmithType<usize> = &fields[i].1;
            let r = self.write(ft, &entries[i].1);
            match r {
                Err(e) => {
                    proof {
                        lemma_enc_fields_prefix_err(table, fields@, all, i as int + 1);
                    }
                    return Err(e);
                },
                Ok(()) => {},
            }
            proof {
                let b = enc_fields(table, fields@, all.take(i as int)).unwrap();
                let c = enc(table, fields@[i as int].1, entries@[i as int].1@).unwrap();
                assert(self.buff@ =~= start + (b + c));
            }
            i = i + 1;
        }
        proof {
            assert(all.take(i as int) =~= all);
        }
        if entries.len() < fields.len() {
            return Err(Error::MissingStructField);
        }
        Ok(())
    }

    fn write_tagged(
        &mut self,
        variants: &'a Vec<(String, Option<SmithType<usize>>)>,
        entries: &Vec<(String, Value)>,
    ) -> (r: Result<(), Error>)
        ensures
            appended(
                r,
                enc_tagged(old(self).prog@, variants@, entries_view(entries@)),
                old(self).buff@,
                final(self).buff@,
            ),
            final(self).prog == old(self).prog,
        decreases entries, 0nat,
    {
        proof {
            lemma_entries_view(entries@);
        }
        if entries.len() == 0 || !text_is(&entries[0].0, "tag") {
            return Err(Error::UnexpectedEnumKey);
        }
        let name = match &entries[0].1 {
            Value::Str(name) => name,
            _ => {
                return Err(Error::TypeMismatch);
            },
        };
        let k = match find_variant(variants, name) {
            Some(k) => k,
            None => {
                return Err(Error::UnknownEnumVariant);
            },
        };
        match &variants[k].1 {
            None => {
                if entries.len() == 1 {
                    push_udint(&mut self.buff, k as u64);
                    Ok(())
                } else {
                    Err(Error::UnexpectedEnumKey)
                }
            },
            Some(pt) => {
                if entries.len() == 2 && text_is(&entries[1].0, "val") {
                    push_udint(&mut self.buff, k as u64);
                    let r = self.write(pt, &entries[1].1);
                    proof {
                        if r is Ok {
                            assert(self.buff@ =~= old(self).buff@ + (udint_bytes(k as nat) + enc(
                                old(self).prog@,
                                *pt,
                                entries@[1].1@,
                            ).unwrap()));
                        }
                    }
                    r
                } else {
                    Err(Error::UnexpectedEnumKey)
                }
            },
        }
    }
}

} // verus!
