use vstd::prelude::*;

pub mod de;
pub mod error;
pub mod generics_engine;
pub mod laws;
pub mod parser;
pub mod resolver;
pub mod ser;
pub mod types;
pub mod value;
pub mod wire;

pub use error::Error;
pub use types::SmithType;
pub use types::SmithProgram;
pub use value::Value;

use types::{custom_name, find_position, position_of, SmithCustomTyp};
use de::{dec, MAX_DEPTH};
use ser::{enc, Serializer};
use resolver::{ids_dense, table_resolved};
use vstd::string::StringExecFns;
use ser::text_is;

verus! {

/// `table` is the resolution of an expansion `exp` of declarations `roots`:
/// every identifier well formed, every non-generic declaration present, every
/// entry a declaration with its parameters substituted under its mangled name,
/// names distinct, and each entry resolved against `exp` in place.
pub open spec fn compiled_from(
    roots: Seq<parser::ASTRootType>,
    exp: Seq<SmithCustomTyp<String>>,
    table: Seq<SmithCustomTyp<usize>>,
) -> bool {
    &&& forall|i: int| 0 <= i < roots.len() ==> parser::root_ok(#[trigger] roots[i])
    &&& generics_engine::names_distinct(exp)
    &&& generics_engine::roots_present(roots, exp)
    &&& generics_engine::entries_of(roots, exp)
    &&& exp.len() == table.len()
    &&& forall|i: int|
        0 <= i < table.len() ==> resolver::custom_resolves_to(exp[i], exp, #[trigger] table[i])
}

/// `roots` are the declarations that schema text `src` writes.
pub open spec fn written_by(src: Seq<char>, roots: Seq<parser::ASTRootType>) -> bool {
    parser::schema(src) matches Ok(syn) && roots.len() == syn.len() && forall|i: int|
        0 <= i < roots.len() ==> parser::root_denotes(#[trigger] roots[i], syn[i])
}

/// `table` is the resolution of an expansion of the declarations that `src` writes.
pub open spec fn compiled(src: Seq<char>, table: Seq<SmithCustomTyp<usize>>) -> bool {
    exists|roots: Seq<parser::ASTRootType>, exp: Seq<SmithCustomTyp<String>>|
        #[trigger] compiled_from(roots, exp, table) && written_by(src, roots)
}

/// Parses, expands and resolves a schema into its type table.
pub fn compile(src: &str) -> (r: Result<SmithProgram<usize>, Error>)
    ensures
        r matches Ok(p) ==> ids_dense(p.expanded@) && table_resolved(p.expanded@),
        r matches Ok(p) ==> generics_engine::names_distinct_resolved(p.expanded@),
        r matches Ok(p) ==> compiled(src@, p.expanded@),
        r matches Err(e) ==> e is ParseError || generics_engine::expansion_error(e),
        parser::schema(src@) matches Err(e) ==> r matches Err(er) && er is ParseError && er->ParseError_0 == e,
        parser::schema(src@) is Ok ==> (r matches Err(e) ==> generics_engine::expansion_error(e)),
{
    let parsed = parser::parse(src)?;
    let ghost roots = parsed.0@;
    let expanded = generics_engine::expand(parsed)?;
    let ghost names = expanded.expanded@;
    proof {
        generics_engine::lemma_closed_expansion_resolvable(roots, names);
    }
    let r = match resolver::resolve(expanded) {
        Ok(r) => r,
        Err(e) => {
            assert(false);
            return Err(e);
        },
    };
    assert(compiled_from(roots, names, r.expanded@));
    assert(written_by(src@, roots));
    proof {
        assert forall|i: int, j: int| 0 <= i < j < r.expanded@.len() implies custom_name(#[trigger] r.expanded@[i]) != custom_name(#[trigger] r.expanded@[j]) by {
            assert(custom_name(r.expanded@[i]) == custom_name(names[i]));
            assert(custom_name(r.expanded@[j]) == custom_name(names[j]));
        }
    }
    Ok(r)
}

/// The primitive that a keyword names.
pub open spec fn prim_named(name: Seq<char>) -> Option<SmithType<usize>> {
    if name == "i8"@ {
        Some(SmithType::I8)
    } else if name == "i16"@ {
        Some(SmithType::I16)
    } else if name == "i32"@ {
        Some(SmithType::I32)
    } else if name == "f32"@ {
        Some(SmithType::F32)
    } else if name == "f64"@ {
        Some(SmithType::F64)
    } else if name == "u8"@ {
        Some(SmithType::U8)
    } else if name == "u16"@ {
        Some(SmithType::U16)
    } else if name == "u32"@ {
        Some(SmithType::U32)
    } else if name == "u64"@ {
        Some(SmithType::U64)
    } else if name == "udInt"@ {
        Some(SmithType::UInt)
    } else if name == "bool"@ {
        Some(SmithType::Bool)
    } else if name == "string"@ {
        Some(SmithType::String)
    } else {
        None
    }
}

/// `name` is `Array<inner>` for a non-empty `inner`.
pub open spec fn array_name(name: Seq<char>) -> bool {
    name.len() >= 8 && name.take(6) == "Array<"@ && name.last() == '>'
}

/// `name` describes a cursor against `table`.
pub open spec fn nameable(table: Seq<SmithCustomTyp<usize>>, name: Seq<char>) -> bool
    decreases name.len(),
{
    position_of(table, name) is Some || prim_named(name) is Some || (array_name(name) && nameable(
        table,
        name.subrange(6, name.len() - 1),
    ))
}

/// `u` is the cursor that `name` describes: the first entry so named, else the
/// primitive it names, else an array of what the inner name describes.
pub open spec fn type_named(table: Seq<SmithCustomTyp<usize>>, name: Seq<char>, u: SmithType<usize>) -> bool
    decreases name.len(),
{
    match position_of(table, name) {
        Some(k) => u matches SmithType::CustomType(id, args) && id == k && args@.len() == 0,
        None => match prim_named(name) {
            Some(p) => u == p,
            None => array_name(name) && (u matches SmithType::Array(e) && type_named(
                table,
                name.subrange(6, name.len() - 1),
                *e,
            )),
        },
    }
}

/// A compiled schema, ready to convert values of its types.
pub struct Smith(pub Vec<SmithCustomTyp<usize>>);

impl Smith {
    pub open spec fn table(&self) -> Seq<SmithCustomTyp<usize>> {
        self.0@
    }

    /// Compiles `src`.
    pub fn new(src: &str) -> (r: Result<Self, Error>)
        ensures
            r matches Ok(s) ==> ids_dense(s.table()) && table_resolved(s.table()),
            r matches Ok(s) ==> compiled(src@, s.table()),
            r matches Err(e) ==> e is ParseError || generics_engine::expansion_error(e),
            parser::schema(src@) matches Err(e) ==> r matches Err(er) && er is ParseError && er->ParseError_0 == e,
            parser::schema(src@) is Ok ==> (r matches Err(e) ==> generics_engine::expansion_error(e)),
    {
        let p = compile(src)?;
        let ghost table = p.expanded@;
        let s = Smith(p.expanded);
        assert(s.table() == table);
        Ok(s)
    }

    /// The cursor that `name` describes: an entry of the table by its
    /// (mangled) name, a primitive keyword, or `Array<...>` of such a name.
    pub fn get_type(&self, name: &str) -> (r: Option<SmithType<usize>>)
        ensures
            r is Some <==> nameable(self.table(), name@),
            r matches Some(u) ==> type_named(self.table(), name@, u),
    {
        let n = String::from_str(name);
        self.type_of(&n)
    }

    fn type_of(&self, n: &String) -> (r: Option<SmithType<usize>>)
        ensures
            r is Some <==> nameable(self.table(), n@),
            r matches Some(u) ==> type_named(self.table(), n@, u),
        decreases n@.len(),
    {
        if let Some(k) = find_position(&self.0, n) {
            return Some(SmithType::CustomType(k, Vec::new()));
        }
        let prim = if text_is(n, "i8") {
            Some(SmithType::I8)
        } else if text_is(n, "i16") {
            Some(SmithType::I16)
        } else if text_is(n, "i32") {
            Some(SmithType::I32)
        } else if text_is(n, "f32") {
            Some(SmithType::F32)
        } else if text_is(n, "f64") {
            Some(SmithType::F64)
        } else if text_is(n, "u8") {
            Some(SmithType::U8)
        } else if text_is(n, "u16") {
            Some(SmithType::U16)
        } else if text_is(n, "u32") {
            Some(SmithType::U32)
        } else if text_is(n, "u64") {
            Some(SmithType::U64)
        } else if text_is(n, "udInt") {
            Some(SmithType::UInt)
        } else if text_is(n, "bool") {
            Some(SmithType::Bool)
        } else if text_is(n, "string") {
            Some(SmithType::String)
        } else {
            None
        };
        if prim.is_some() {
            return prim;
        }
        let cs = parser::chars_of(n.as_str());
        let len = cs.len();
        proof {
            reveal_strlit("Array<");
        }
        if len < 8 || cs[0] != 'A' || cs[1] != 'r' || cs[2] != 'r' || cs[3] != 'a' || cs[4] != 'y'
            || cs[5] != '<' || cs[len - 1] != '>' {
            proof {
                if n@.len() >= 8 && n@.take(6) == "Array<"@ {
                    assert(n@.take(6)[0] == 'A');
                    assert(n@.take(6)[1] == 'r');
                    assert(n@.take(6)[2] == 'r');
                    assert(n@.take(6)[3] == 'a');
                    assert(n@.take(6)[4] == 'y');
                    assert(n@.take(6)[5] == '<');
                }
            }
            return None;
        }
        assert(n@.take(6) =~= "Array<"@);
        let mut inner = String::new();
        let mut i: usize = 6;
        while i < len - 1
            invariant
                cs@ == n@,
                len == cs@.len(),
                len >= 8,
                6 <= i <= len - 1,
                inner@ == n@.subrange(6, i as int),
            decreases len - 1 - i,
        {
            parser::push_char(&mut inner, cs[i]);
            assert(n@.subrange(6, i + 1) =~= n@.subrange(6, i as int).push(cs@[i as int]));
            i = i + 1;
        }
        match self.type_of(&inner) {
            Some(e) => Some(SmithType::Array(Box::new(e))),
            None => None,
        }
    }

    /// The type table.
    pub fn get_types(&self) -> (r: &Vec<SmithCustomTyp<usize>>)
        ensures
            r@ == self.table(),
    {
        &self.0
    }

    /// Encodes a value given in native shape (enums as variants) or in map shape.
    pub fn rust2binary(&self, value: &Value, typ: &SmithType<usize>) -> (r: Result<Vec<u8>, Error>)
        ensures
            match enc(self.table(), *typ, value@) {
                Ok(b) => r matches Ok(x) && x@ == b,
                Err(e) => r == Err::<Vec<u8>, Error>(e),
            },
    {
        let mut ser = Serializer::new(&self.0, typ);
        ser.serialize(value)?;
        Ok(ser.buffer())
    }

    /// Decodes a whole buffer into a value with enums as variants.
    pub fn binary2rust(&self, data: &[u8], typ: &SmithType<usize>) -> (r: Result<Value, Error>)
        ensures
            match dec(self.table(), *typ, data@, false, MAX_DEPTH as nat) {
                Ok((v, n)) => if n == data@.len() {
                    r matches Ok(x) && x@ == v
                } else {
                    r == Err::<Value, Error>(Error::TrailingBytes)
                },
                Err(e) => r == Err::<Value, Error>(e),
            },
    {
        de::decode(data, &self.0, typ, false)
    }

    /// Encodes a JSON-shaped value (enums as `tag`/`val` maps).
    pub fn json2binary(&self, json: &Value, typ: &SmithType<usize>) -> (r: Result<Vec<u8>, Error>)
        ensures
            match enc(self.table(), *typ, json@) {
                Ok(b) => r matches Ok(x) && x@ == b,
                Err(e) => r == Err::<Vec<u8>, Error>(e),
            },
    {
        self.rust2binary(json, typ)
    }

    /// Decodes a whole buffer into a JSON-shaped value (enums as `tag`/`val` maps).
    pub fn binary2json(&self, bin: &[u8], typ: &SmithType<usize>) -> (r: Result<Value, Error>)
        ensures
            match dec(self.table(), *typ, bin@, true, MAX_DEPTH as nat) {
                Ok((v, n)) => if n == bin@.len() {
                    r matches Ok(x) && x@ == v
                } else {
                    r == Err::<Value, Error>(Error::TrailingBytes)
                },
                Err(e) => r == Err::<Value, Error>(e),
            },
    {
        de::decode(bin, &self.0, typ, true)
    }
}

} // verus!
