use smith::de::decode;
use smith::generics_engine::expand;
use smith::parser::parse;
use smith::resolver::resolve_typ;
use smith::types::{SmithCustomTypVariant, SmithType};
use smith::{compile, Error, Smith, Value};

const SCHEMA: &str = r#"
    enum Optional<T>{
        Some(T)
        None
    }
    
    struct Packet{
        id: u8
        payload: PacketType
    }
    
    //Dont work - Array<T> will not generate a optional with string type
    struct Order<T>{
        table_number: udInt
        items: Optional<Array<T>>
    }
    
    enum PacketType{
        Ack
        LogOut
        Order(Order<OrderItem>)
    }

    struct OrderItem{
        id: u8
        amount: u8
    }
    
    struct Person{
        name: string
        age: u8
        desc: Optional<string>
    }"#;

const BIN: &[u8] = &[1, 5, 3, 1, 9, 1, 2, 2, 2, 3, 3, 4, 4];

fn s(x: &str) -> String {
    x.to_string()
}

fn map(entries: Vec<(&str, Value)>) -> Value {
    Value::Record(entries.into_iter().map(|(k, v)| (s(k), v)).collect())
}

fn tagged(tag: &str, val: Option<Value>) -> Value {
    let mut entries = vec![(s("tag"), Value::Str(s(tag)))];
    if let Some(v) = val {
        entries.push((s("val"), v));
    }
    Value::Record(entries)
}

fn item(id: u64, amount: u64) -> Value {
    map(vec![("id", Value::UInt(id)), ("amount", Value::UInt(amount))])
}

fn items() -> Vec<Value> {
    vec![item(1, 2), item(2, 2), item(3, 3), item(4, 4)]
}

/// The JSON document of the packet, with enums as `tag`/`val` maps.
fn src_json() -> Value {
    map(vec![
        ("id", Value::UInt(1)),
        (
            "payload",
            tagged(
                "Order",
                Some(map(vec![
                    ("table_number", Value::UInt(1)),
                    ("items", tagged("Some", Some(Value::List(items())))),
                ])),
            ),
        ),
    ])
}

/// The same packet as a native value, with enums as variants.
fn rust_value() -> Value {
    map(vec![
        ("id", Value::UInt(1)),
        (
            "payload",
            Value::Variant(
                s("Order"),
                Some(Box::new(map(vec![
                    ("table_number", Value::UInt(1)),
                    ("items", Value::Variant(s("Some"), Some(Box::new(Value::List(items()))))),
                ]))),
            ),
        ),
    ])
}

#[test]
fn test_schemaread() {
    let s = Smith::new(SCHEMA).unwrap();
    let required_types = [
        "OrderItem",
        "Person",
        "Order<OrderItem>",
        "Optional<Array<OrderItem>>",
        "Optional<string>",
        "Packet",
        "PacketType",
    ];
    for name in required_types {
        let typ = s.get_type(name);
        assert!(typ.is_some(), "failed for {}", name)
    }
    assert_eq!(s.get_types().len(), required_types.len());
}

#[test]
fn test_json2bin() {
    let s = Smith::new(SCHEMA).unwrap();
    let typ = s.get_type("Packet").unwrap();
    let res = s.json2binary(&src_json(), &typ).unwrap();
    assert_eq!(res, BIN.to_vec());
}

#[test]
fn test_bin2json() {
    let s = Smith::new(SCHEMA).unwrap();
    let typ = s.get_type("Packet").unwrap();
    let res = s.binary2json(BIN, &typ).unwrap();
    assert_eq!(res, src_json());
}

#[test]
fn test_bin2rust() {
    let s = Smith::new(SCHEMA).unwrap();
    let typ = s.get_type("Packet").unwrap();
    let res = s.binary2rust(BIN, &typ).unwrap();
    assert_eq!(res, rust_value());
}

#[test]
fn test_rust2bin() {
    let s = Smith::new(SCHEMA).unwrap();
    let typ = s.get_type("Packet").unwrap();
    let res = s.rust2binary(&rust_value(), &typ).unwrap();
    assert_eq!(res, BIN.to_vec());
}

#[test]
fn ids_are_positions_and_references_in_range() {
    let p = compile(SCHEMA).unwrap();
    let n = p.expanded.len();
    for (i, c) in p.expanded.iter().enumerate() {
        assert_eq!(c.id, i);
        if let SmithCustomTypVariant::Struct(st) = &c.variant {
            for (_, t) in st.fields.iter() {
                if let SmithType::CustomType(id, _) = t {
                    assert!(*id < n);
                }
            }
        }
    }
}

#[test]
fn instantiation_has_no_parameter_left() {
    let ast = parse("struct Box<T>{ inner: T list: Array<T> } struct Root{ b: Box<u8> }").unwrap();
    let p = expand(ast).unwrap();
    let b = p.expanded.iter().find(|c| c.get_name() == "Box<u8>").unwrap();
    match &b.variant {
        SmithCustomTypVariant::Struct(st) => {
            let mut name = String::new();
            st.fields[0].1.write_self(&mut name);
            assert_eq!(name, "u8");
            let mut name = String::new();
            st.fields[1].1.write_self(&mut name);
            assert_eq!(name, "Array<u8>");
        }
        _ => panic!("expected a struct"),
    }
}

#[test]
fn narrowing_is_rejected() {
    let s = Smith::new("struct S{ x: u8 }").unwrap();
    let typ = s.get_type("S").unwrap();
    let r = s.rust2binary(&map(vec![("x", Value::UInt(256))]), &typ);
    assert_eq!(r, Err(Error::IntegerRange));
    let r = s.rust2binary(&map(vec![("x", Value::Int(-1))]), &typ);
    assert_eq!(r, Err(Error::IntegerRange));
}

#[test]
fn trailing_bytes_are_rejected() {
    let s = Smith::new("struct S{ x: u8 }").unwrap();
    let t = SmithType::U8;
    let bin = s.rust2binary(&Value::UInt(42), &t).unwrap();
    assert_eq!(bin, vec![0x2A]);
    assert_eq!(s.binary2rust(&[0x2A, 0x00], &t), Err(Error::TrailingBytes));
    assert_eq!(s.binary2rust(&[0x2A], &t), Ok(Value::UInt(42)));
}

#[test]
fn empty_string_round_trip() {
    let s = Smith::new("struct S{ s: string }").unwrap();
    let typ = s.get_type("S").unwrap();
    let v = map(vec![("s", Value::Str(String::new()))]);
    let bin = s.json2binary(&v, &typ).unwrap();
    assert_eq!(bin, vec![0x00]);
    assert_eq!(s.binary2json(&bin, &typ).unwrap(), v);
}

#[test]
fn strings_are_nul_terminated_utf8() {
    let s = Smith::new("struct S{ s: string }").unwrap();
    let typ = s.get_type("S").unwrap();
    let v = map(vec![("s", Value::Str(s_("hé")))]);
    let bin = s.json2binary(&v, &typ).unwrap();
    assert_eq!(bin, vec![0x68, 0xC3, 0xA9, 0x00]);
    assert_eq!(s.binary2json(&bin, &typ).unwrap(), v);
    let bad = map(vec![("s", Value::Str(s_("a\0b")))]);
    assert_eq!(s.json2binary(&bad, &typ), Err(Error::NulInString));
    assert_eq!(s.binary2json(&[0xFF, 0x00], &typ), Err(Error::Utf8Error));
    assert_eq!(s.binary2json(&[0x61], &typ), Err(Error::EndOfStream));
}

fn s_(x: &str) -> String {
    x.to_string()
}

#[test]
fn fixed_width_integers_are_big_endian() {
    let s = Smith::new("struct S{ a: i8 b: i16 c: u32 d: u64 e: bool }").unwrap();
    let typ = s.get_type("S").unwrap();
    let v = map(vec![
        ("a", Value::Int(-1)),
        ("b", Value::Int(-2)),
        ("c", Value::UInt(0x01020304)),
        ("d", Value::UInt(5)),
        ("e", Value::Bool(true)),
    ]);
    let bin = s.rust2binary(&v, &typ).unwrap();
    assert_eq!(
        bin,
        vec![0xFF, 0xFF, 0xFE, 1, 2, 3, 4, 0, 0, 0, 0, 0, 0, 0, 5, 1]
    );
    let back = s.binary2rust(&bin, &typ).unwrap();
    let expected = map(vec![
        ("a", Value::Int(-1)),
        ("b", Value::Int(-2)),
        ("c", Value::UInt(0x01020304)),
        ("d", Value::UInt(5)),
        ("e", Value::Bool(true)),
    ]);
    assert_eq!(back, expected);
}

#[test]
fn floats_travel_as_bits() {
    let s = Smith::new("struct S{ f: f32 g: f64 }").unwrap();
    let typ = s.get_type("S").unwrap();
    let v = map(vec![("f", Value::F32(1.5f32.to_bits())), ("g", Value::F64((-2.0f64).to_bits()))]);
    let bin = s.rust2binary(&v, &typ).unwrap();
    assert_eq!(bin, vec![0x3F, 0xC0, 0, 0, 0xC0, 0, 0, 0, 0, 0, 0, 0]);
    assert_eq!(s.binary2rust(&bin, &typ).unwrap(), v);
}

#[test]
fn udint_uses_seven_bit_groups() {
    let s = Smith::new("struct S{ n: udInt }").unwrap();
    let t = SmithType::UInt;
    assert_eq!(s.rust2binary(&Value::UInt(0), &t).unwrap(), vec![0x01]);
    assert_eq!(s.rust2binary(&Value::UInt(127), &t).unwrap(), vec![0xFF]);
    assert_eq!(s.rust2binary(&Value::UInt(300), &t).unwrap(), vec![0x58, 0x05]);
    let max = s.rust2binary(&Value::UInt(u64::MAX), &t).unwrap();
    assert_eq!(max.len(), 10);
    assert_eq!(s.binary2rust(&max, &t), Ok(Value::UInt(u64::MAX)));
    assert_eq!(s.binary2rust(&[0x58, 0x05], &t), Ok(Value::UInt(300)));
    assert_eq!(s.binary2rust(&[0x58], &t), Err(Error::EndOfStream));
    assert_eq!(s.binary2rust(&[0u8; 10], &t), Err(Error::IntegerRange));
}

#[test]
fn array_length_comes_first() {
    let s = Smith::new("struct S{ a: Array<u8> }").unwrap();
    let typ = s.get_type("S").unwrap();
    let v = map(vec![("a", Value::List(vec![Value::UInt(7), Value::UInt(8), Value::UInt(9)]))]);
    let bin = s.rust2binary(&v, &typ).unwrap();
    assert_eq!(bin, vec![0x07, 7, 8, 9]);
    let empty = map(vec![("a", Value::List(vec![]))]);
    assert_eq!(s.rust2binary(&empty, &typ).unwrap(), vec![0x01]);
}

#[test]
fn enum_ordinal_is_below_variant_count() {
    let s = Smith::new("enum E{ A B C(u8) }").unwrap();
    let typ = s.get_type("E").unwrap();
    let c = Value::Variant(s_("C"), Some(Box::new(Value::UInt(4))));
    assert_eq!(s.rust2binary(&c, &typ).unwrap(), vec![0x05, 4]);
    let b = tagged("B", None);
    assert_eq!(s.json2binary(&b, &typ).unwrap(), vec![0x03]);
    assert_eq!(s.binary2rust(&[0x07], &typ), Err(Error::OrdinalOutOfRange));
    assert_eq!(s.binary2json(&[0x03], &typ).unwrap(), b);
}

#[test]
fn struct_field_errors() {
    let s = Smith::new("struct S{ a: u8 b: u8 }").unwrap();
    let typ = s.get_type("S").unwrap();
    let missing = map(vec![("a", Value::UInt(1))]);
    assert_eq!(s.rust2binary(&missing, &typ), Err(Error::MissingStructField));
    let order = map(vec![("b", Value::UInt(1)), ("a", Value::UInt(1))]);
    assert_eq!(s.rust2binary(&order, &typ), Err(Error::WrongFieldOrder));
    let extra = map(vec![("a", Value::UInt(1)), ("b", Value::UInt(1)), ("c", Value::UInt(1))]);
    assert_eq!(s.rust2binary(&extra, &typ), Err(Error::UnexpectedField));
    assert_eq!(s.rust2binary(&Value::Bool(true), &typ), Err(Error::TypeMismatch));
}

#[test]
fn enum_errors() {
    let s = Smith::new("enum E{ A B(u8) }").unwrap();
    let typ = s.get_type("E").unwrap();
    assert_eq!(s.json2binary(&tagged("Z", None), &typ), Err(Error::UnknownEnumVariant));
    assert_eq!(
        s.json2binary(&map(vec![("val", Value::UInt(1))]), &typ),
        Err(Error::UnexpectedEnumKey)
    );
    assert_eq!(s.json2binary(&tagged("B", None), &typ), Err(Error::UnexpectedEnumKey));
    assert_eq!(s.rust2binary(&Value::Variant(s_("B"), None), &typ), Err(Error::TypeMismatch));
}

#[test]
fn schema_errors() {
    assert_eq!(compile("struct S{ x: Missing }").err(), Some(Error::UnknownType));
    assert_eq!(
        compile("struct G<T>{ x: T } struct S{ g: G<u8, u8> }").err(),
        Some(Error::GenericArityMismatch)
    );
    assert_eq!(
        compile("struct G<T>{ x: T<u8> } struct S{ g: G<u8> }").err(),
        Some(Error::GenericWithArguments)
    );
    assert!(matches!(compile("struct S{ x u8 }"), Err(Error::ParseError(_))));
    assert!(matches!(compile("struct S{ x: u8 } /* open"), Err(Error::ParseError(_))));
}

#[test]
fn comments_and_commas_are_accepted() {
    let p = compile("// a\nstruct S{ /* b */ x: u8, y: bool }\nenum E{ A, B(S) }").unwrap();
    assert_eq!(p.expanded.len(), 2);
}

#[test]
fn mangled_names_and_listing() {
    let ast = parse("struct P<A,B>{ a: A b: B } struct R{ p: P<Array<u8>, string> }").unwrap();
    assert_eq!(ast.to_string(), "[P<A,B>, R]");
    let p = expand(ast).unwrap();
    assert!(p.expanded.iter().any(|c| c.get_name() == "P<Array<u8>,string>"));
}

#[test]
fn resolve_typ_finds_mangled_entry() {
    let p = expand(parse("struct G<T>{ x: T } struct S{ g: G<u8> }").unwrap()).unwrap();
    let t = SmithType::CustomType(s_("G"), vec![SmithType::U8]);
    match resolve_typ(&t, &p.expanded).unwrap() {
        SmithType::CustomType(id, args) => {
            assert_eq!(p.expanded[id].get_name(), "G<u8>");
            assert_eq!(args.len(), 1);
        }
        _ => panic!("expected a reference"),
    }
    let missing = SmithType::CustomType(s_("G"), vec![SmithType::Bool]);
    assert_eq!(resolve_typ(&missing, &p.expanded).err(), Some(Error::UnresolvedName));
}

#[test]
fn decode_free_function_matches_methods() {
    let s = Smith::new(SCHEMA).unwrap();
    let typ = s.get_type("Packet").unwrap();
    assert_eq!(decode(BIN, s.get_types(), &typ, true).unwrap(), src_json());
    assert_eq!(decode(&BIN[..5], s.get_types(), &typ, true), Err(Error::EndOfStream));
}

#[test]
fn recursive_generic_expands_once() {
    let p = compile("enum Tree<T>{ Leaf(T) Node(Array<Tree<T>>) } struct R{ t: Tree<u8> }").unwrap();
    let names: Vec<&str> = p.expanded.iter().map(|c| c.get_name().as_str()).collect();
    assert_eq!(names.len(), 2);
    assert!(names.contains(&"Tree<u8>"));
    assert!(names.contains(&"R"));
}

#[test]
fn unbounded_instantiation_is_cut_off() {
    let r = compile("struct L<T>{ x: L<Array<T>> } struct R{ l: L<u8> }");
    assert_eq!(r.err(), Some(Error::ExpansionLimit));
}

#[test]
fn nesting_beyond_the_bound_is_rejected() {
    let s = Smith::new("enum L{ Nil Cons(L) }").unwrap();
    let typ = s.get_type("L").unwrap();
    let mut deep = vec![0x03u8; 200];
    deep.push(0x01);
    assert_eq!(s.binary2rust(&deep, &typ), Err(Error::DepthLimit));
    let shallow = [0x03u8, 0x03, 0x01];
    let v = s.binary2rust(&shallow, &typ).unwrap();
    let nil = Value::Variant(s_("Nil"), None);
    let expected = Value::Variant(
        s_("Cons"),
        Some(Box::new(Value::Variant(s_("Cons"), Some(Box::new(nil))))),
    );
    assert_eq!(v, expected);
    assert_eq!(s.rust2binary(&expected, &typ).unwrap(), shallow.to_vec());
}

#[test]
fn reader_methods_follow_the_wire_format() {
    let prog = compile("struct S{ x: u8 }").unwrap().expanded;
    let t = SmithType::String;
    let data = [0x07u8, 0x58, 0x05, 0x61, 0x62, 0x00, 0x01, 0x02];
    let mut de = smith::de::Deserializer::from_bytes(&data, &prog, &t);
    assert_eq!(de.read(), Ok(0x07));
    assert_eq!(de.read_udint(), Ok(300));
    assert_eq!(de.read_str().unwrap(), "ab");
    assert_eq!(de.read_n(2).unwrap(), vec![0x01, 0x02]);
    assert_eq!(de.read(), Err(Error::EndOfStream));
    assert_eq!(de.read_n(1), Err(Error::EndOfStream));
    let mut json_de = smith::de::Deserializer::from_bytes_json(&[0x61, 0x00], &prog, &t);
    assert_eq!(json_de.deserialize(), Ok(Value::Str(s_("a"))));
}

#[test]
fn serializer_appends_under_its_cursor() {
    let prog = compile("struct S{ x: u8 y: u16 }").unwrap().expanded;
    let t = SmithType::CustomType(0, vec![]);
    let mut ser = smith::ser::Serializer::new(&prog, &t);
    let v = map(vec![("x", Value::UInt(1)), ("y", Value::UInt(0x0203))]);
    ser.serialize(&v).unwrap();
    assert_eq!(ser.buffer(), vec![1, 2, 3]);
}

#[test]
fn get_type_accepts_primitives_and_arrays() {
    let s = Smith::new(SCHEMA).unwrap();
    assert!(matches!(s.get_type("u8"), Some(SmithType::U8)));
    assert!(matches!(s.get_type("string"), Some(SmithType::String)));
    assert!(matches!(s.get_type("udInt"), Some(SmithType::UInt)));
    match s.get_type("Array<OrderItem>") {
        Some(SmithType::Array(e)) => match *e {
            SmithType::CustomType(id, args) => {
                assert_eq!(s.get_types()[id].get_name(), "OrderItem");
                assert!(args.is_empty());
            }
            _ => panic!("expected a reference"),
        },
        _ => panic!("expected an array"),
    }
    assert!(matches!(s.get_type("Array<Array<bool>>"), Some(SmithType::Array(_))));
    assert!(s.get_type("Missing").is_none());
    assert!(s.get_type("Array<Missing>").is_none());
    let bin = s.rust2binary(&Value::List(vec![Value::UInt(3)]), &s.get_type("Array<u8>").unwrap()).unwrap();
    assert_eq!(bin, vec![0x03, 3]);
}

#[test]
fn program_keeps_generic_declarations() {
    let p = compile(SCHEMA).unwrap();
    let names: Vec<String> = p
        .generics
        .iter()
        .map(|g| match g {
            smith::parser::ASTRootType::Struct(s) => s.name.clone(),
            smith::parser::ASTRootType::Enum(e) => e.name.clone(),
        })
        .collect();
    assert_eq!(names, vec![s_("Optional"), s_("Order")]);
}
