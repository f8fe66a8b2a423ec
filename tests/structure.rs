use fipa::ast::{
    Argument, Attribute, Broadcast, Enumerator, Field, Method, MethodErrorSpec, Type,
    TypeCollection, TypeRef,
};
use fipa::parser::{
    parse_argument, parse_array_type, parse_attribute, parse_broadcast, parse_enumeration,
    parse_enumerator, parse_field, parse_import, parse_interface, parse_map_type, parse_method,
    parse_struct_type, parse_type, parse_type_collection, parse_typedef, parse_union_type,
    InterfaceContent, ModuleContent, Mismatch,
};
use fipa::ast::Import;

#[test]
fn test_method() {
    assert_eq!(parse_method("method resetHistory fireAndForget {}"),
        Ok(("", InterfaceContent::Method(Method {
            annotation: None, name: "resetHistory".to_string(), fire_and_forget: true, selector: None,
            in_args: Vec::new(), out_args: Vec::new(), error: None }))));
    assert_eq!(parse_method("method setStrength { in { Strength s } }"),
        Ok(("", InterfaceContent::Method(Method {
            annotation: None, name: "setStrength".to_string(), fire_and_forget: false, selector: None,
            out_args: Vec::new(), error: None, in_args: vec![
                Argument { annotation: None, name: "s".to_string(), type_ref: TypeRef::Derived("Strength".to_string()), array: false }
            ] }))));
    assert_eq!(parse_method("method getCount { out { UInt32 counter } }"),
        Ok(("", InterfaceContent::Method(Method {
            annotation: None, name: "getCount".to_string(), fire_and_forget: false, selector: None,
            in_args: Vec::new(), error: None, out_args: vec![
                Argument { annotation: None, name: "counter".to_string(), type_ref: TypeRef::UInt32, array: false }
            ] }))));
    assert_eq!(parse_method("method callable { in { Int8 a Int32 b } out { String[] r } error ErrorTypes }"),
        Ok(("", InterfaceContent::Method(Method { annotation: None, name: "callable".to_string(),
            fire_and_forget: false, selector: None,
            in_args: vec![
                Argument { annotation: None, name: "a".to_string(), array: false, type_ref: TypeRef::Int8 },
                Argument { annotation: None, name: "b".to_string(), array: false, type_ref: TypeRef::Int32 },
            ],
            out_args: vec![
                Argument { annotation: None, name: "r".to_string(), array: true, type_ref: TypeRef::String }
            ],
            error: Some(MethodErrorSpec::Reference { annotation: None, fqn: "ErrorTypes".to_string() })
        }))));
}

#[test]
fn method_with_inline_error_and_selector() {
    let r = parse_method("method m:sel { error extends Base { A = 1, B } }");
    assert_eq!(r, Ok(("", InterfaceContent::Method(Method {
        annotation: None, name: "m".to_string(), selector: Some("sel".to_string()),
        fire_and_forget: false, in_args: Vec::new(), out_args: Vec::new(),
        error: Some(MethodErrorSpec::EnumerationBody {
            annotation: None, extends: Some(TypeRef::Derived("Base".to_string())),
            enumerators: vec![
                Enumerator { annotation: None, name: "A".to_string(), val: Some(1) },
                Enumerator { annotation: None, name: "B".to_string(), val: None },
            ] }) }))));
    let r = parse_method("method m { error { E } }");
    assert!(matches!(r, Ok(("", InterfaceContent::Method(Method {
        error: Some(MethodErrorSpec::EnumerationBody { .. }), .. })))));
    assert_eq!(parse_method("method m { error { } }"), Err(Mismatch));
}

#[test]
fn test_broadcast() {
    assert_eq!(parse_broadcast("broadcast SignalA{ }"), Ok(("", InterfaceContent::Broadcast(
        Broadcast { annotation: None, selective: false, selector: None, name: "SignalA".to_string(),
            out_args: Vec::new() }))));
    assert_eq!(parse_broadcast("broadcast SignalB selective { out{ Int8[] a Boolean b} }"),
        Ok(("", InterfaceContent::Broadcast(Broadcast {
            annotation: None, selective: true, selector: None, name: "SignalB".to_string(),
            out_args: vec![
                Argument { annotation: None, name: "a".to_string(), array: true, type_ref: TypeRef::Int8 },
                Argument { annotation: None, name: "b".to_string(), array: false, type_ref: TypeRef::Boolean },
            ] }))));
}

#[test]
fn test_type_collection() {
    assert_eq!(parse_type_collection("typeCollection my_type_collection {}"),
        Ok(("", ModuleContent::TypeCollection(TypeCollection {
            annotation: None, name: Some("my_type_collection".to_string()), version: None, types: Vec::new() }))));
    assert_eq!(parse_type_collection("typeCollection my_type_collection { version{ major 1 minor 100}}"),
        Ok(("", ModuleContent::TypeCollection(TypeCollection {
            annotation: None, name: Some("my_type_collection".to_string()), version: Some((1, 100)), types: Vec::new() }))));
}

#[test]
fn anonymous_type_collection_with_typedef() {
    assert_eq!(parse_type_collection("typeCollection { version{major 2 minor 14} public typedef Byte is UInt8 }"),
        Ok(("", ModuleContent::TypeCollection(TypeCollection {
            annotation: None, name: None, version: Some((2, 14)), types: vec![
                Type::TypeDef { annotation: None, public: true, name: "Byte".to_string(), array: false,
                    actual_type: TypeRef::UInt8 }
            ] }))));
}

#[test]
fn test_enumeration() {
    assert_eq!(parse_enumeration("public enumeration MyEnum { A=1 B=100, C D }"),
        Ok(("", Type::Enumeration { annotation: None, public: true, name: "MyEnum".to_string(),
            base_type: None, enumerators: vec![
                Enumerator { annotation: None, name: "A".to_string(), val: Some(1) },
                Enumerator { annotation: None, name: "B".to_string(), val: Some(100) },
                Enumerator { annotation: None, name: "C".to_string(), val: None },
                Enumerator { annotation: None, name: "D".to_string(), val: None },
            ] })));
}

#[test]
fn enumeration_values_in_every_base() {
    assert_eq!(parse_enumeration("enumeration E extends Base { X = 0x1A Y = 0b11, Z = 26 W }"),
        Ok(("", Type::Enumeration { annotation: None, public: false, name: "E".to_string(),
            base_type: Some(TypeRef::Derived("Base".to_string())), enumerators: vec![
                Enumerator { annotation: None, name: "X".to_string(), val: Some(26) },
                Enumerator { annotation: None, name: "Y".to_string(), val: Some(3) },
                Enumerator { annotation: None, name: "Z".to_string(), val: Some(26) },
                Enumerator { annotation: None, name: "W".to_string(), val: None },
            ] })));
    assert_eq!(parse_enumeration("enumeration E { }"), Err(Mismatch));
}

#[test]
fn test_enumerator() {
    assert_eq!(parse_enumerator(" enum_value_1 "), Ok(("", Enumerator {
        annotation: None, name: "enum_value_1".to_string(), val: None })));
    assert_eq!(parse_enumerator("<** some comment **>\n SIGNAL_UNBEFUELLT = 0x12"), Ok(("", Enumerator {
        annotation: Some(" some comment ".to_string()), name: "SIGNAL_UNBEFUELLT".to_string(), val: Some(0x12u64) })));
}

#[test]
fn enumerator_with_bad_value_fails() {
    assert_eq!(parse_enumerator("A = zz"), Err(Mismatch));
}

#[test]
fn test_map_type() {
    assert_eq!(parse_map_type("public map myMap { type_x to Boolean }"),
        Ok(("", Type::Mapping { annotation: None, public: true, name: "myMap".to_string(),
            key_type: TypeRef::Derived("type_x".to_string()), value_type: TypeRef::Boolean })));
}

#[test]
fn test_union_type() {
    assert_eq!(parse_union_type("<**comment**> union A_Union extends X_Type {\n <**a**> Int32 counter \n Int64 long_counter }"),
        Ok(("", Type::Union {
            annotation: Some("comment".to_string()), public: false, base_type: Some("X_Type".to_string()),
            name: "A_Union".to_string(), fields: vec![
                Field { annotation: Some("a".to_string()), name: "counter".to_string(), array: false, type_ref: TypeRef::Int32 },
                Field { annotation: None, name: "long_counter".to_string(), array: false, type_ref: TypeRef::Int64 },
            ] })));
}

#[test]
fn test_struct_type() {
    assert_eq!(parse_struct_type("public struct MyStruct {\n Int8 a\n UInt32 b String[] c} XYZ"),
        Ok(("XYZ", Type::Struct { annotation: None, public: true, name: "MyStruct".to_string(),
            polymorphic: false, extends: None,
            fields: vec![
                Field { annotation: None, name: "a".to_string(), array: false, type_ref: TypeRef::Int8 },
                Field { annotation: None, name: "b".to_string(), array: false, type_ref: TypeRef::UInt32 },
                Field { annotation: None, name: "c".to_string(), array: true, type_ref: TypeRef::String },
            ] })));
}

#[test]
fn struct_extends_polymorphic() {
    assert_eq!(parse_struct_type("struct S extends a.Base polymorphic { }"),
        Ok(("", Type::Struct { annotation: None, public: false, name: "S".to_string(),
            polymorphic: true, extends: Some("a.Base".to_string()), fields: Vec::new() })));
}

#[test]
fn test_array_type() {
    assert_eq!(parse_array_type("public array MyArray of UInt32  AAA"),
        Ok(("AAA", Type::Array { annotation: None, public: true, name: "MyArray".to_string(),
            element_type: TypeRef::UInt32 })));
    assert_eq!(parse_array_type("<** nothing \n here \n to see **>\n  array SomeArray of Boolean    AAA"),
        Ok(("AAA", Type::Array { annotation: Some(" nothing \n here \n to see ".to_string()),
            public: false, name: "SomeArray".to_string(), element_type: TypeRef::Boolean })));
}

#[test]
fn test_typedef() {
    assert_eq!(parse_typedef("public typedef MyType is Int8  AAA"),
        Ok(("AAA", Type::TypeDef { annotation: None, public: true, name: "MyType".to_string(),
            actual_type: TypeRef::Int8, array: false })));
    assert_eq!(parse_typedef("<** nothing **>\n typedef SomeArray is Boolean [  ]  AAA"),
        Ok(("AAA", Type::TypeDef { annotation: Some(" nothing ".to_string()),
            public: false, name: "SomeArray".to_string(), actual_type: TypeRef::Boolean, array: true })));
}

#[test]
fn type_alternatives() {
    assert!(matches!(parse_type("map M { A to B }"), Ok(("", Type::Mapping { .. }))));
    assert!(matches!(parse_type("union U { }"), Ok(("", Type::Union { .. }))));
    assert_eq!(parse_type("interface I { }"), Err(Mismatch));
}

#[test]
fn test_field() {
    assert_eq!(parse_field("Boolean my_bool   "),
        Ok(("", Field { annotation: None, name: "my_bool".to_string(), array: false, type_ref: TypeRef::Boolean })));
    assert_eq!(parse_field("UInt32[] an_array \nA"),
        Ok(("A", Field { annotation: None, name: "an_array".to_string(), array: true, type_ref: TypeRef::UInt32 })));
    assert_eq!(parse_field("<** a little comment**>\n     MyOwnType field \n"),
        Ok(("", Field { annotation: Some(" a little comment".to_string()),
            name: "field".to_string(), array: false, type_ref: TypeRef::Derived("MyOwnType".to_string()) })));
}

#[test]
fn test_argument() {
    assert_eq!(parse_argument("Boolean my_bool   "),
        Ok(("", Argument { annotation: None, name: "my_bool".to_string(), array: false, type_ref: TypeRef::Boolean })));
    assert_eq!(parse_argument("UInt32[] an_array \nA"),
        Ok(("A", Argument { annotation: None, name: "an_array".to_string(), array: true, type_ref: TypeRef::UInt32 })));
    assert_eq!(parse_argument("<** a little comment**>\n     MyOwnType field \n"),
        Ok(("", Argument { annotation: Some(" a little comment".to_string()),
            name: "field".to_string(), array: false, type_ref: TypeRef::Derived("MyOwnType".to_string()) })));
}

#[test]
fn test_attribute() {
    assert_eq!(parse_attribute("attribute Int8 my_int_8  }"), Ok(("}", InterfaceContent::Attribute(
        Attribute { annotation: None, name: "my_int_8".to_string(), array: false,
            read_only: false, no_subscription: false, no_read: false, type_ref: TypeRef::Int8 }))));
    assert_eq!(parse_attribute("attribute MyType[] a readonly  noSubscription  "), Ok(("", InterfaceContent::Attribute(
        Attribute { annotation: None, name: "a".to_string(), array: true,
            read_only: true, no_subscription: true, no_read: false, type_ref: TypeRef::Derived("MyType".to_string()) }))));
}

fn flags(text: &str) -> (bool, bool, bool) {
    match parse_attribute(text) {
        Ok(("", InterfaceContent::Attribute(a))) => (a.read_only, a.no_read, a.no_subscription),
        other => panic!("unexpected {:?}", other),
    }
}

#[test]
fn attribute_modifiers_are_independent() {
    assert_eq!(flags("attribute Int8 a"), (false, false, false));
    assert_eq!(flags("attribute Int8 a noRead"), (false, true, false));
    assert_eq!(flags("attribute Int8 a noSubscription readonly"), (true, false, true));
    assert_eq!(flags("attribute Int8 a noRead noSubscription readonly"), (true, true, true));
    assert_eq!(flags("attribute Int8 a readonly readonly noRead"), (true, true, false));
}

#[test]
fn parser_test_import() {
    assert_eq!(parse_import(" import a.b.c from 'a_b-file.fidl'"),
        Ok(("", Import { uri: "a_b-file.fidl".to_string(), namespace: "a.b.c".to_string() })));
    assert_eq!(parse_import(" import model   'a_b-file.fidl' \n a new line"),
        Ok((" \n a new line", Import { uri: "a_b-file.fidl".to_string(), namespace: String::new() })));
    assert_eq!(parse_import(" import a.b.c.* from 'a_b-file.fidl'"),
        Ok(("", Import { uri: "a_b-file.fidl".to_string(), namespace: "a.b.c.*".to_string() })));
}

#[test]
fn lib_test_import() {
    assert_eq!(parse_import(" import a.b.c from 'a_b-file.fidl'"),
        Ok(("", Import { uri: "a_b-file.fidl".to_string(), namespace: "a.b.c".to_string() })));
    assert_eq!(parse_import(" import model   'a_b-file.fidl' \n a new line"),
        Ok((" \n a new line", Import { uri: "a_b-file.fidl".to_string(), namespace: String::new() })));
}

fn check_interfaces() {
    let txt = "interface MyInterface { version {major 1 minor 34} }    ";
    let (_, interface) = parse_interface(txt).unwrap();
    if let ModuleContent::Interface(intf) = interface {
        assert_eq!(intf.annotation, None);
        assert_eq!(intf.name, "MyInterface");
        assert_eq!(intf.version, Some((1, 34)));
    } else {
        assert!(false, "interface is not ModuleContent::Interface");
    }

    let txt = "<** This is an annotation **> \ninterface Another_Interface\n{ \n}";
    let (_, interface) = parse_interface(txt).unwrap();
    if let ModuleContent::Interface(intf) = interface {
        assert_eq!(intf.annotation, Some(" This is an annotation ".to_string()));
        assert_eq!(intf.name, "Another_Interface");
        assert_eq!(intf.version, None);
    } else {
        assert!(false, "interface is not ModuleContent::Interface");
    }
}

#[test]
fn parser_test_interface() {
    check_interfaces();
}

#[test]
fn lib_test_interface() {
    check_interfaces();
}

#[test]
fn interface_items_interleave() {
    let txt = "interface I { method m {} attribute Int8 a typedef T is Int8 method n {} attribute Boolean b broadcast B {} }";
    let (rest, c) = parse_interface(txt).unwrap();
    assert_eq!(rest, "");
    if let ModuleContent::Interface(intf) = c {
        assert_eq!(intf.methods.iter().map(|m| m.name.as_str()).collect::<Vec<_>>(), vec!["m", "n"]);
        assert_eq!(intf.attributes.iter().map(|a| a.name.as_str()).collect::<Vec<_>>(), vec!["a", "b"]);
        assert_eq!(intf.types.len(), 1);
        assert_eq!(intf.broadcasts.len(), 1);
        assert_eq!(intf.extends, None);
        assert_eq!(intf.manages, None);
    } else {
        panic!("not an interface");
    }
}
