use vstd::prelude::*;

use crate::error::Error;
use crate::ser::{int_max, int_width, is_signed};
use crate::types::{SmithCustomTyp, SmithCustomTypVariant, SmithType};
use crate::value::{
    entries_view, lemma_entries_view_push, lemma_list_view_push, list_view, Val, Value,
};
use crate::wire::{be_value, udint_read, UDINT_MAX_LEN};
use vstd::utf8::{decode_utf8, valid_utf8};
use vstd::string::StringExecFns;

verus! {

/// How deep values may nest (arrays and custom types) before decoding gives up.
pub const MAX_DEPTH: usize = 128;

pub open spec fn pow256(n: nat) -> nat
    decreases n,
{
    if n == 0 {
        1
    } else {
        256 * pow256((n - 1) as nat)
    }
}

/// A udInt read from the front of `s`: its value and length.
pub open spec fn udint_dec(s: Seq<u8>) -> Result<(nat, nat), Error> {
    match udint_read(s, UDINT_MAX_LEN as nat) {
        Some((v, n)) => if v <= u64::MAX {
            Ok((v, n))
        } else {
            Err(Error::IntegerRange)
        },
        None => if s.len() >= UDINT_MAX_LEN {
            Err(Error::IntegerRange)
        } else {
            Err(Error::EndOfStream)
        },
    }
}

/// Index of the first zero byte of `s` at or after `i`.
pub open spec fn zero_from(s: Seq<u8>, i: int) -> Option<nat>
    decreases s.len() - i,
{
    if i < 0 || i >= s.len() {
        None
    } else if s[i] == 0 {
        Some(i as nat)
    } else {
        zero_from(s, i + 1)
    }
}

/// How an enum variant is presented: as a variant, or as a `tag`/`val` map.
pub open spec fn enum_shape(json: bool, name: Seq<char>, payload: Option<Val>) -> Val {
    if json {
        match payload {
            None => Val::Record(seq![("tag"@, Val::Str(name))]),
            Some(p) => Val::Record(seq![("tag"@, Val::Str(name)), ("val"@, p)]),
        }
    } else {
        match payload {
            None => Val::Variant(name, None),
            Some(p) => Val::Variant(name, Some(Box::new(p))),
        }
    }
}

/// The value at the front of `s` under cursor `t`, and how many bytes it takes;
/// `fuel` bounds the nesting.
pub open spec fn dec(
    table: Seq<SmithCustomTyp<usize>>,
    t: SmithType<usize>,
    s: Seq<u8>,
    json: bool,
    fuel: nat,
) -> Result<(Val, nat), Error>
    decreases fuel, 0nat,
{
    match t {
        SmithType::UInt => match udint_dec(s) {
            Ok((v, n)) => Ok((Val::UInt(v as u64), n)),
            Err(e) => Err(e),
        },
        SmithType::Bool => if s.len() < 1 {
            Err(Error::EndOfStream)
        } else {
            Ok((Val::Bool(s[0] != 0), 1))
        },
        SmithType::F32 => if s.len() < 4 {
            Err(Error::EndOfStream)
        } else {
            Ok((Val::F32(be_value(s.take(4)) as u32), 4))
        },
        SmithType::F64 => if s.len() < 8 {
            Err(Error::EndOfStream)
        } else {
            Ok((Val::F64(be_value(s.take(8)) as u64), 8))
        },
        SmithType::String => match zero_from(s, 0) {
            None => Err(Error::EndOfStream),
            Some(z) => if valid_utf8(s.take(z as int)) {
                Ok((Val::Str(decode_utf8(s.take(z as int))), z + 1))
            } else {
                Err(Error::Utf8Error)
            },
        },
        SmithType::Array(et) => match udint_dec(s) {
            Err(e) => Err(e),
            Ok((n, k)) => if fuel == 0 {
                Err(Error::DepthLimit)
            } else {
                match dec_list(table, *et, s.skip(k as int), json, (fuel - 1) as nat, n) {
                    Ok((items, m)) => Ok((Val::List(items), k + m)),
                    Err(e) => Err(e),
                }
            },
        },
        SmithType::CustomType(id, _) => if id >= table.len() {
            Err(Error::UnresolvedName)
        } else if fuel == 0 {
            Err(Error::DepthLimit)
        } else {
            match table[id as int].variant {
                SmithCustomTypVariant::Struct(st) => match dec_fields(
                    table,
                    st.fields@,
                    s,
                    json,
                    (fuel - 1) as nat,
                    st.fields@.len(),
                ) {
                    Ok((entries, m)) => Ok((Val::Record(entries), m)),
                    Err(e) => Err(e),
                },
                SmithCustomTypVariant::Enum(en) => dec_enum(
                    table,
                    en.variants@,
                    s,
                    json,
                    (fuel - 1) as nat,
                ),
            }
        },
        _ => dec_fixed(t, s),
    }
}

/// A fixed-width integer at the front of `s`.
pub open spec fn dec_fixed(t: SmithType<usize>, s: Seq<u8>) -> Result<(Val, nat), Error> {
    let w = int_width(t);
    if s.len() < w {
        Err(Error::EndOfStream)
    } else {
        let u = be_value(s.take(w as int));
        if is_signed(t) {
            let x = if u > int_max(t) {
                u - 2 * (int_max(t) + 1)
            } else {
                u as int
            };
            Ok((Val::Int(x as i64), w))
        } else {
            Ok((Val::UInt(u as u64), w))
        }
    }
}

/// An enum value at the front of `s`: its ordinal, then its payload if the variant has one.
pub open spec fn dec_enum(
    table: Seq<SmithCustomTyp<usize>>,
    variants: Seq<(String, Option<SmithType<usize>>)>,
    s: Seq<u8>,
    json: bool,
    fuel: nat,
) -> Result<(Val, nat), Error>
    decreases fuel, 1nat,
{
    match udint_dec(s) {
        Err(e) => Err(e),
        Ok((k, c)) => if k >= variants.len() {
            Err(Error::OrdinalOutOfRange)
        } else {
            let name = variants[k as int].0@;
            match variants[k as int].1 {
                None => Ok((enum_shape(json, name, None), c)),
                Some(pt) => match dec(table, pt, s.skip(c as int), json, fuel) {
                    Ok((p, m)) => Ok((enum_shape(json, name, Some(p)), c + m)),
                    Err(e) => Err(e),
                },
            }
        },
    }
}

/// `n` values under element type `et`, one after another.
pub open spec fn dec_list(
    table: Seq<SmithCustomTyp<usize>>,
    et: SmithType<usize>,
    s: Seq<u8>,
    json: bool,
    fuel: nat,
    n: nat,
) -> Result<(Seq<Val>, nat), Error>
    decreases fuel, n + 1,
{
    if n == 0 {
        Ok((Seq::empty(), 0))
    } else {
        match dec_list(table, et, s, json, fuel, (n - 1) as nat) {
            Err(e) => Err(e),
            Ok((items, m)) => match dec(table, et, s.skip(m as int), json, fuel) {
                Err(e) => Err(e),
                Ok((x, c)) => Ok((items.push(x), m + c)),
            },
        }
    }
}

/// The first `n` fields of a struct, each under its declared type.
pub open spec fn dec_fields(
    table: Seq<SmithCustomTyp<usize>>,
    fields: Seq<(String, SmithType<usize>)>,
    s: Seq<u8>,
    json: bool,
    fuel: nat,
    n: nat,
) -> Result<(Seq<(Seq<char>, Val)>, nat), Error>
    decreases fuel, n + 1,
{
    if n == 0 || n > fields.len() {
        Ok((Seq::empty(), 0))
    } else {
        match dec_fields(table, fields, s, json, fuel, (n - 1) as nat) {
            Err(e) => Err(e),
            Ok((entries, m)) => match dec(table, fields[n - 1].1, s.skip(m as int), json, fuel) {
                Err(e) => Err(e),
                Ok((x, c)) => Ok((entries.push((fields[n - 1].0@, x)), m + c)),
            },
        }
    }
}

/// Holds an exec result to a spec result of decoding.
pub open spec fn decoded(r: Result<Value, Error>, spec: Result<(Val, nat), Error>, pos0: nat, pos1: nat) -> bool {
    match spec {
        Ok((v, n)) => r matches Ok(x) && x@ == v && pos1 == pos0 + n,
        Err(e) => r matches Err(e2) && e2 == e,
    }
}

/// Relies on `String::from_utf8`: it accepts exactly the valid UTF-8 byte
/// sequences and keeps the characters they encode.
#[verifier::external_body]
fn utf8_string(bytes: Vec<u8>) -> (r: Option<String>)
    ensures
        r is Some <==> valid_utf8(bytes@),
        r matches Some(s) ==> s@ == decode_utf8(bytes@),
{
    String::from_utf8(bytes).ok()
}

pub proof fn lemma_dec_list_prefix_err(
    table: Seq<SmithCustomTyp<usize>>,
    et: SmithType<usize>,
    s: Seq<u8>,
    json: bool,
    fuel: nat,
    k: nat,
    n: nat,
)
    requires
        k <= n,
        dec_list(table, et, s, json, fuel, k) is Err,
    ensures
        dec_list(table, et, s, json, fuel, n) == dec_list(table, et, s, json, fuel, k),
    decreases n - k,
{
    if k < n {
        lemma_dec_list_prefix_err(table, et, s, json, fuel, k, (n - 1) as nat);
    }
}

pub proof fn lemma_dec_fields_prefix_err(
    table: Seq<SmithCustomTyp<usize>>,
    fields: Seq<(String, SmithType<usize>)>,
    s: Seq<u8>,
    json: bool,
    fuel: nat,
    k: nat,
    n: nat,
)
    requires
        k <= n <= fields.len(),
        dec_fields(table, fields, s, json, fuel, k) is Err,
    ensures
        dec_fields(table, fields, s, json, fuel, n) == dec_fields(table, fields, s, json, fuel, k),
    decreases n - k,
{
    if k < n {
        lemma_dec_fields_prefix_err(table, fields, s, json, fuel, k, (n - 1) as nat);
    }
}

/// Reads values from bytes, driven by a type cursor over a type table.
pub struct Deserializer<'de> {
    pub data: &'de [u8],
    pub pos: usize,
    pub prog: &'de Vec<SmithCustomTyp<usize>>,
    pub current_type: &'de SmithType<usize>,
    /// Present enums as `tag`/`val` maps rather than as variants.
    pub json: bool,
}

impl<'de> Deserializer<'de> {
    pub open spec fn rest(&self) -> Seq<u8> {
        self.data@.skip(self.pos as int)
    }

    pub open spec fn same_source(&self, other: &Self) -> bool {
        self.data == other.data && self.prog == other.prog && self.json == other.json
            && self.current_type == other.current_type
    }

    pub fn from_bytes(
        data: &'de [u8],
        prog: &'de Vec<SmithCustomTyp<usize>>,
        current_type: &'de SmithType<usize>,
    ) -> (r: Self)
        ensures
            r.data == data,
            r.pos == 0,
            r.prog == prog,
            r.current_type == current_type,
            !r.json,
    {
        Deserializer { data, pos: 0, prog, current_type, json: false }
    }

    pub fn from_bytes_json(
        data: &'de [u8],
        prog: &'de Vec<SmithCustomTyp<usize>>,
        current_type: &'de SmithType<usize>,
    ) -> (r: Self)
        ensures
            r.data == data,
            r.pos == 0,
            r.prog == prog,
            r.current_type == current_type,
            r.json,
    {
        Deserializer { data, pos: 0, prog, current_type, json: true }
    }

    /// Takes the next byte.
    pub fn read(&mut self) -> (r: Result<u8, Error>)
        requires
            old(self).pos <= old(self).data@.len(),
        ensures
            final(self).same_source(old(self)),
            final(self).pos <= final(self).data@.len(),
            if old(self).pos < old(self).data@.len() {
                r == Ok::<u8, Error>(old(self).data@[old(self).pos as int]) && final(self).pos
                    == old(self).pos + 1
            } else {
                r == Err::<u8, Error>(Error::EndOfStream)
            },
    {
        if self.pos < self.data.len() {
            let b = self.data[self.pos];
            self.pos = self.pos + 1;
            Ok(b)
        } else {
            Err(Error::EndOfStream)
        }
    }

    /// Takes the next `n` bytes.
    pub fn read_n(&mut self, n: usize) -> (r: Result<Vec<u8>, Error>)
        requires
            old(self).pos <= old(self).data@.len(),
        ensures
            final(self).same_source(old(self)),
            final(self).pos <= final(self).data@.len(),
            if old(self).rest().len() >= n {
                r matches Ok(b) && b@ == old(self).rest().take(n as int) && final(self).pos
                    == old(self).pos + n
            } else {
                r == Err::<Vec<u8>, Error>(Error::EndOfStream)
            },
    {
        if self.data.len() - self.pos < n {
            return Err(Error::EndOfStream);
        }
        let mut out: Vec<u8> = Vec::new();
        let mut i: usize = 0;
        while i < n
            invariant
                self.same_source(old(self)),
                old(self).pos + n <= self.data@.len(),
                0 <= i <= n,
                self.pos == old(self).pos + i,
                out@ == old(self).rest().take(i as int),
            decreases n - i,
        {
            let b = self.data[self.pos];
            out.push(b);
            self.pos = self.pos + 1;
            assert(old(self).rest().take(i + 1) =~= old(self).rest().take(i as int).push(b));
            i = i + 1;
        }
        Ok(out)
    }

    /// Takes `w` bytes as a big-endian number.
    fn read_be(&mut self, w: usize) -> (r: Result<u64, Error>)
        requires
            old(self).pos <= old(self).data@.len(),
            w <= 8,
        ensures
            final(self).same_source(old(self)),
            final(self).pos <= final(self).data@.len(),
            if old(self).rest().len() >= w {
                r matches Ok(x) && x == be_value(old(self).rest().take(w as int)) && final(self).pos
                    == old(self).pos + w
            } else {
                r == Err::<u64, Error>(Error::EndOfStream)
            },
    {
        if self.data.len() - self.pos < w {
            return Err(Error::EndOfStream);
        }
        proof {
            lemma_pow256_table();
        }
        let ghost s = old(self).rest();
        let mut acc: u128 = 0;
        let mut i: usize = 0;
        assert(s.take(0).len() == 0);
        while i < w
            invariant
                self.same_source(old(self)),
                s == old(self).rest(),
                old(self).pos + w <= self.data@.len(),
                0 <= i <= w <= 8,
                self.pos == old(self).pos + i,
                acc == be_value(s.take(i as int)),
                acc < pow256(i as nat),
                pow256(8) == 0x1_0000_0000_0000_0000,
                forall|j: nat| j <= 8 ==> #[trigger] pow256(j) <= pow256(8),
            decreases w - i,
        {
            let b = self.data[self.pos];
            assert(s.take(i + 1).drop_last() =~= s.take(i as int));
            assert(s.take(i + 1).last() == b);
            acc = acc * 256 + b as u128;
            self.pos = self.pos + 1;
            i = i + 1;
        }
        Ok(acc as u64)
    }

    /// Takes a udInt.
    pub fn read_udint(&mut self) -> (r: Result<u64, Error>)
        requires
            old(self).pos <= old(self).data@.len(),
        ensures
            final(self).same_source(old(self)),
            final(self).pos <= final(self).data@.len(),
            match udint_dec(old(self).rest()) {
                Ok((v, n)) => r == Ok::<u64, Error>(v as u64) && final(self).pos == old(self).pos + n,
                Err(e) => r == Err::<u64, Error>(e),
            },
    {
        let ghost s = old(self).rest();
        proof {
            assert(pow128_of(0) == 1);
            assert(pow128_of(1) == 0x80);
            assert(pow128_of(2) == 0x4000);
            assert(pow128_of(3) == 0x20_0000);
            assert(pow128_of(4) == 0x1000_0000);
            assert(pow128_of(5) == 0x8_0000_0000);
            assert(pow128_of(6) == 0x400_0000_0000);
            assert(pow128_of(7) == 0x2_0000_0000_0000);
            assert(pow128_of(8) == 0x100_0000_0000_0000);
            assert(pow128_of(9) == 0x8000_0000_0000_0000);
            assert(s.skip(0) =~= s);
        }
        let mut acc: u128 = 0;
        let mut scale: u128 = 1;
        let mut i: usize = 0;
        loop
            invariant
                self.same_source(old(self)),
                s == old(self).rest(),
                self.pos == old(self).pos + i,
                self.pos <= self.data@.len(),
                0 <= i < UDINT_MAX_LEN,
                scale == pow128_of(i as nat),
                pow128_of(9) == 0x8000_0000_0000_0000,
                forall|j: nat| j <= 9 ==> #[trigger] pow128_of(j) <= pow128_of(9),
                acc < scale,
                udint_read(s, UDINT_MAX_LEN as nat) == match udint_read(
                    s.skip(i as int),
                    (UDINT_MAX_LEN - i) as nat,
                ) {
                    Some((v, n)) => Some(((acc + scale * v) as nat, (n + i) as nat)),
                    None => None,
                },
            decreases UDINT_MAX_LEN - i,
        {
            let ghost tail = s.skip(i as int);
            if self.pos >= self.data.len() {
                proof {
                    assert(tail.len() == 0);
                    assert(s.len() == i);
                }
                return Err(Error::EndOfStream);
            }
            let b = self.data[self.pos];
            self.pos = self.pos + 1;
            let group: u128 = (b / 2) as u128;
            assert(tail[0] == b);
            proof {
                assert(acc + scale * group < scale * 128) by (nonlinear_arith)
                    requires
                        acc < scale,
                        group < 128,
                ;
            }
            if b % 2 == 1 {
                let v = acc + scale * group;
                if v > 0xffff_ffff_ffff_ffffu128 {
                    return Err(Error::IntegerRange);
                }
                return Ok(v as u64);
            }
            proof {
                assert(tail.drop_first() =~= s.skip(i + 1));
            }
            if i + 1 == UDINT_MAX_LEN {
                proof {
                    assert(s.len() >= UDINT_MAX_LEN);
                }
                return Err(Error::IntegerRange);
            }
            proof {
                match udint_read(s.skip(i + 1), (UDINT_MAX_LEN - i - 1) as nat) {
                    Some((v, n)) => {
                        assert(scale * (group + 128 * v) == scale * group + (scale * 128) * v)
                            by (nonlinear_arith);
                    },
                    None => {},
                }
            }
            acc = acc + scale * group;
            scale = scale * 128;
            i = i + 1;
        }
    }

    /// Takes a NUL-terminated UTF-8 string.
    pub fn read_str(&mut self) -> (r: Result<String, Error>)
        requires
            old(self).pos <= old(self).data@.len(),
        ensures
            final(self).same_source(old(self)),
            final(self).pos <= final(self).data@.len(),
            match zero_from(old(self).rest(), 0) {
                None => r == Err::<String, Error>(Error::EndOfStream),
                Some(z) => if valid_utf8(old(self).rest().take(z as int)) {
                    r matches Ok(x) && x@ == decode_utf8(old(self).rest().take(z as int))
                        && final(self).pos == old(self).pos + z + 1
                } else {
                    r == Err::<String, Error>(Error::Utf8Error)
                },
            },
    {
        let ghost s = old(self).rest();
        let mut out: Vec<u8> = Vec::new();
        loop
            invariant
                self.same_source(old(self)),
                s == old(self).rest(),
                old(self).pos <= self.pos <= self.data@.len(),
                out@ == s.take(self.pos - old(self).pos),
                zero_from(s, 0) == zero_from(s, self.pos - old(self).pos),
                s.len() == self.data@.len() - old(self).pos,
            decreases self.data@.len() - self.pos,
        {
            if self.pos >= self.data.len() {
                return Err(Error::EndOfStream);
            }
            let b = self.data[self.pos];
            let ghost k = self.pos - old(self).pos;
            assert(s[k] == b);
            self.pos = self.pos + 1;
            if b == 0 {
                return match utf8_string(out) {
                    Some(x) => Ok(x),
                    None => Err(Error::Utf8Error),
                };
            }
            out.push(b);
            assert(s.take(k + 1) =~= s.take(k).push(b));
        }
    }
}

impl<'de> Deserializer<'de> {
    /// Decodes one value under the current type.
    pub fn deserialize(&mut self) -> (r: Result<Value, Error>)
        requires
            old(self).pos <= old(self).data@.len(),
        ensures
            final(self).same_source(old(self)),
            final(self).pos <= final(self).data@.len(),
            decoded(
                r,
                dec(old(self).prog@, *old(self).current_type, old(self).rest(), old(self).json, MAX_DEPTH as nat),
                old(self).pos as nat,
                final(self).pos as nat,
            ),
    {
        let t = self.current_type;
        self.read_value(t, MAX_DEPTH)
    }

    fn read_value(&mut self, t: &'de SmithType<usize>, fuel: usize) -> (r: Result<Value, Error>)
        requires
            old(self).pos <= old(self).data@.len(),
        ensures
            final(self).same_source(old(self)),
            final(self).pos <= final(self).data@.len(),
            decoded(r, dec(old(self).prog@, *t, old(self).rest(), old(self).json, fuel as nat), old(self).pos as nat, final(self).pos as nat),
        decreases fuel, 0nat,
    {
        let ghost s = old(self).rest();
        let prog: &'de Vec<SmithCustomTyp<usize>> = self.prog;
        match t {
            SmithType::UInt => {
                let x = self.read_udint()?;
                Ok(Value::UInt(x))
            },
            SmithType::Bool => {
                let b = self.read()?;
                assert(s[0] == b);
                Ok(Value::Bool(b != 0))
            },
            SmithType::F32 => {
                let x = self.read_be(4)?;
                proof {
                    lemma_pow256_table();
                    lemma_be_value_bound(s.take(4));
                }
                Ok(Value::F32(x as u32))
            },
            SmithType::F64 => {
                let x = self.read_be(8)?;
                Ok(Value::F64(x))
            },
            SmithType::String => {
                let x = self.read_str()?;
                Ok(Value::Str(x))
            },
            SmithType::Array(et) => {
                let n = self.read_udint()?;
                if fuel == 0 {
                    return Err(Error::DepthLimit);
                }
                let et: &'de SmithType<usize> = et;
                let ghost k = self.pos - old(self).pos;
                assert(self.rest() =~= s.skip(k));
                let items = self.read_list(et, n, fuel - 1)?;
                Ok(Value::List(items))
            },
            SmithType::CustomType(id, _) => {
                if *id >= prog.len() {
                    return Err(Error::UnresolvedName);
                }
                if fuel == 0 {
                    return Err(Error::DepthLimit);
                }
                match &prog[*id].variant {
                    SmithCustomTypVariant::Struct(st) => {
                        let fields: &'de Vec<(String, SmithType<usize>)> = &st.fields;
                        let entries = self.read_fields(fields, fuel - 1)?;
                        Ok(Value::Record(entries))
                    },
                    SmithCustomTypVariant::Enum(en) => {
                        let variants: &'de Vec<(String, Option<SmithType<usize>>)> = &en.variants;
                        self.read_enum(variants, fuel - 1)
                    },
                }
            },
            _ => self.read_fixed(t),
        }
    }

    fn read_enum(&mut self, variants: &'de Vec<(String, Option<SmithType<usize>>)>, fuel: usize) -> (r: Result<Value, Error>)
        requires
            old(self).pos <= old(self).data@.len(),
        ensures
            final(self).same_source(old(self)),
            final(self).pos <= final(self).data@.len(),
            decoded(r, dec_enum(old(self).prog@, variants@, old(self).rest(), old(self).json, fuel as nat), old(self).pos as nat, final(self).pos as nat),
        decreases fuel, 1nat,
    {
        let ghost s = old(self).rest();
        let k = self.read_udint()?;
        if k >= variants.len() as u64 {
            return Err(Error::OrdinalOutOfRange);
        }
        let variant = &variants[k as usize];
        let name = variant.0.clone();
        let ghost pos1 = self.pos;
        let payload = match &variant.1 {
            None => None,
            Some(pt) => {
                let ghost c = self.pos - old(self).pos;
                assert(self.rest() =~= s.skip(c));
                let p = self.read_value(pt, fuel)?;
                Some(p)
            },
        };
        if self.json {
            let mut entries: Vec<(String, Value)> = Vec::new();
            entries.push((tag_key(), Value::Str(name)));
            let ghost payload_copy = payload;
            match payload {
                None => {},
                Some(p) => {
                    entries.push((val_key(), p));
                },
            }
            proof {
                lemma_entries_view_push(Seq::empty(), entries@[0]);
                assert(seq![entries@[0]] =~= Seq::<(String, Value)>::empty().push(entries@[0]));
                assert(entries_view(Seq::empty()) =~= Seq::empty());
                if entries@.len() == 2 {
                    lemma_entries_view_push(seq![entries@[0]], entries@[1]);
                    assert(entries@ =~= seq![entries@[0]].push(entries@[1]));
                } else {
                    assert(entries@ =~= seq![entries@[0]]);
                }
            }
            let ghost pv: Option<Val> = match payload_copy {
                None => None,
                Some(p) => Some(p@),
            };
            proof {
                match pv {
                    None => assert(entries_view(entries@) =~= seq![("tag"@, Val::Str(variants@[k as int].0@))]),
                    Some(p) => assert(entries_view(entries@) =~= seq![("tag"@, Val::Str(variants@[k as int].0@)), ("val"@, p)]),
                }
                assert(Value::Record(entries)@ == enum_shape(true, variants@[k as int].0@, pv));
            }
            Ok(Value::Record(entries))
        } else {
            match payload {
                None => Ok(Value::Variant(name, None)),
                Some(p) => Ok(Value::Variant(name, Some(Box::new(p)))),
            }
        }
    }

    fn read_fixed(&mut self, t: &'de SmithType<usize>) -> (r: Result<Value, Error>)
        requires
            old(self).pos <= old(self).data@.len(),
            int_width(*t) > 0,
        ensures
            final(self).same_source(old(self)),
            final(self).pos <= final(self).data@.len(),
            decoded(r, dec_fixed(*t, old(self).rest()), old(self).pos as nat, final(self).pos as nat),
    {
        let ghost s = old(self).rest();
        let (width, signed, half): (usize, bool, u64) = match t {
            SmithType::I8 => (1, true, 0x80),
            SmithType::I16 => (2, true, 0x8000),
            SmithType::I32 => (4, true, 0x8000_0000),
            SmithType::U8 => (1, false, 0),
            SmithType::U16 => (2, false, 0),
            SmithType::U32 => (4, false, 0),
            _ => (8, false, 0),
        };
        let u = self.read_be(width)?;
        proof {
            lemma_pow256_table();
            lemma_be_value_bound(s.take(width as int));
        }
        if signed {
            let x: i64 = if u >= half {
                u as i64 - 2 * half as i64
            } else {
                u as i64
            };
            Ok(Value::Int(x))
        } else {
            Ok(Value::UInt(u))
        }
    }

    fn read_list(&mut self, et: &'de SmithType<usize>, n: u64, fuel: usize) -> (r: Result<Vec<Value>, Error>)
        requires
            old(self).pos <= old(self).data@.len(),
        ensures
            final(self).same_source(old(self)),
            final(self).pos <= final(self).data@.len(),
            match dec_list(old(self).prog@, *et, old(self).rest(), old(self).json, fuel as nat, n as nat) {
                Ok((items, m)) => r matches Ok(x) && list_view(x@) == items && final(self).pos == old(self).pos + m,
                Err(e) => r matches Err(e2) && e2 == e,
            },
        decreases fuel, 1nat,
    {
        let ghost s = old(self).rest();
        let ghost table = self.prog@;
        let mut items: Vec<Value> = Vec::new();
        let mut i: u64 = 0;
        while i < n
            invariant
                self.same_source(old(self)),
                s == old(self).rest(),
                table == self.prog@,
                old(self).pos <= self.pos <= self.data@.len(),
                0 <= i <= n,
                dec_list(table, *et, s, self.json, fuel as nat, i as nat) matches Ok((v, m)) && list_view(items@) == v && self.pos == old(self).pos + m,
            decreases n - i,
        {
            let ghost m = self.pos - old(self).pos;
            assert(self.rest() =~= s.skip(m));
            let x = match self.read_value(et, fuel) {
                Ok(x) => x,
                Err(e) => {
                    proof {
                        lemma_dec_list_prefix_err(table, *et, s, self.json, fuel as nat, (i + 1) as nat, n as nat);
                    }
                    return Err(e);
                },
            };
            proof {
                lemma_list_view_push(items@, x);
            }
            items.push(x);
            i = i + 1;
        }
        Ok(items)
    }

    fn read_fields(&mut self, fields: &'de Vec<(String, SmithType<usize>)>, fuel: usize) -> (r: Result<Vec<(String, Value)>, Error>)
        requires
            old(self).pos <= old(self).data@.len(),
        ensures
            final(self).same_source(old(self)),
            final(self).pos <= final(self).data@.len(),
            match dec_fields(old(self).prog@, fields@, old(self).rest(), old(self).json, fuel as nat, fields@.len()) {
                Ok((entries, m)) => r matches Ok(x) && entries_view(x@) == entries && final(self).pos == old(self).pos + m,
                Err(e) => r matches Err(e2) && e2 == e,
            },
        decreases fuel, 1nat,
    {
        let ghost s = old(self).rest();
        let ghost table = self.prog@;
        let mut entries: Vec<(String, Value)> = Vec::new();
        let mut i: usize = 0;
        while i < fields.len()
            invariant
                self.same_source(old(self)),
                s == old(self).rest(),
                table == self.prog@,
                old(self).pos <= self.pos <= self.data@.len(),
                0 <= i <= fields@.len(),
                dec_fields(table, fields@, s, self.json, fuel as nat, i as nat) matches Ok((v, m)) && entries_view(entries@) == v && self.pos == old(self).pos + m,
            decreases fields@.len() - i,
        {
            let ghost m = self.pos - old(self).pos;
            assert(self.rest() =~= s.skip(m));
            let ft: &'de SmithType<usize> = &fields[i].1;
            let x = match self.read_value(ft, fuel) {
                Ok(x) => x,
                Err(e) => {
                    proof {
                        lemma_dec_fields_prefix_err(table, fields@, s, self.json, fuel as nat, (i + 1) as nat, fields@.len());
                    }
                    return Err(e);
                },
            };
            let entry = (fields[i].0.clone(), x);
            proof {
                lemma_entries_view_push(entries@, entry);
            }
            entries.push(entry);
            i = i + 1;
        }
        Ok(entries)
    }
}

/// The key under which an enum in map shape gives its variant name.
pub fn tag_key() -> (r: String)
    ensures
        r@ == "tag"@,
{
    String::from_str("tag")
}

/// The key under which an enum in map shape gives its payload.
pub fn val_key() -> (r: String)
    ensures
        r@ == "val"@,
{
    String::from_str("val")
}

pub proof fn lemma_pow256_table()
    ensures
        pow256(0) == 1,
        pow256(1) == 0x100,
        pow256(2) == 0x10000,
        pow256(3) == 0x100_0000,
        pow256(4) == 0x1_0000_0000,
        pow256(5) == 0x100_0000_0000,
        pow256(6) == 0x1_0000_0000_0000,
        pow256(7) == 0x100_0000_0000_0000,
        pow256(8) == 0x1_0000_0000_0000_0000,
{
    assert(pow256(0) == 1);
    assert(pow256(1) == 0x100);
    assert(pow256(2) == 0x10000);
    assert(pow256(3) == 0x100_0000);
    assert(pow256(4) == 0x1_0000_0000);
    assert(pow256(5) == 0x100_0000_0000);
    assert(pow256(6) == 0x1_0000_0000_0000);
    assert(pow256(7) == 0x100_0000_0000_0000);
    assert(pow256(8) == 0x1_0000_0000_0000_0000);
}

pub proof fn lemma_be_value_bound(s: Seq<u8>)
    ensures
        be_value(s) < pow256(s.len()),
    decreases s.len(),
{
    if s.len() > 0 {
        lemma_be_value_bound(s.drop_last());
    }
}

/// Decodes a whole buffer as one value of type `typ`, enums as variants
/// (`json == false`) or as `tag`/`val` maps (`json == true`).
pub fn decode(data: &[u8], prog: &Vec<SmithCustomTyp<usize>>, typ: &SmithType<usize>, json: bool) -> (r: Result<Value, Error>)
    ensures
        match dec(prog@, *typ, data@, json, MAX_DEPTH as nat) {
            Ok((v, n)) => if n == data@.len() {
                r matches Ok(x) && x@ == v
            } else {
                r == Err::<Value, Error>(Error::TrailingBytes)
            },
            Err(e) => r == Err::<Value, Error>(e),
        },
{
    let mut de = Deserializer { data, pos: 0, prog, current_type: typ, json };
    assert(de.rest() =~= data@);
    let v = de.deserialize()?;
    if de.pos == data.len() {
        Ok(v)
    } else {
        Err(Error::TrailingBytes)
    }
}

/// Decodes a whole buffer as one value of type `current_type`, enums as variants.
pub fn from_bytes(data: &[u8], prog: &Vec<SmithCustomTyp<usize>>, current_type: &SmithType<usize>) -> (r: Result<Value, Error>)
    ensures
        match dec(prog@, *current_type, data@, false, MAX_DEPTH as nat) {
            Ok((v, n)) => if n == data@.len() {
                r matches Ok(x) && x@ == v
            } else {
                r == Err::<Value, Error>(Error::TrailingBytes)
            },
            Err(e) => r == Err::<Value, Error>(e),
        },
{
    decode(data, prog, current_type, false)
}

pub open spec fn pow128_of(n: nat) -> nat
    decreases n,
{
    if n == 0 {
        1
    } else {
        128 * pow128_of((n - 1) as nat)
    }
}

} // verus!
