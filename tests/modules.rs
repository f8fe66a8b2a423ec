use fipa::ast::{Argument, Attribute, Broadcast, Enumerator, Field, Method, Type, TypeRef};
use fipa::parser::{parse_module, Mismatch};

const INTERFACE_1A: &str = "package de.titnc.my_test.package

import de.titnc.my_test.sub_package from \"types.fidl\"
import model \"a-very-nice-model\"

interface MyInterface {
    attribute Int8 counter readonly
    attribute Boolean active
    <** This is an attribute with annotation **>
    attribute MyType[] headlines noSubscription
}

<** the status of the vehicle **>
interface VehicleStatus {
    version { major 2 minor 1 }

    attribute FesMode actualFesMode readonly

    typedef Flag is Boolean

    public enumeration FesMode {
        SPORT_INDIVIDUAL = 1
        COMFORT = 2
        ECO = 4
    }

    <** a pure event -> broadcast
    **>
    broadcast ZeroEmmissionZoneBorder {
        out {
            Boolean zoneEntered
            Int8 zoneID
        }
    }

    method setActiveStatistics fireAndForget {
        in {
            StatisticsType activeStatistics
            Boolean resetStatistics
        }
    }
}
";

const TYPE_COLLECTION_1: &str = "package de.titnc.fidl_test

typeCollection MyTypeCollection {
    version { major 2 minor 14 }

    public typedef Byte is UInt8

    <** an array of int's **>
    public array IntArray of Int8

    public struct AStruct {
        Byte a_single_byte
        Boolean flag
        String explanation
    }

    public enumeration Status {
        NO_SIGNAL,
        VALUE_1,
        SIGNAL_UNBEFUELLT = 0x0f,
    }
}

<** an 'anonymous' type collection **>
typeCollection {
}
";

#[test]
fn test_interface_simple_1a() {
    let module_result = parse_module(INTERFACE_1A);
    assert!(module_result.is_ok());
    let (_, module) = module_result.unwrap();

    assert_eq!(module.package, "de.titnc.my_test.package");

    assert_eq!(module.imports.len(), 2);
    assert_eq!(module.imports[0].namespace, "de.titnc.my_test.sub_package");
    assert_eq!(module.imports[0].uri, "types.fidl");
    assert!(module.imports[1].namespace.is_empty());
    assert_eq!(module.imports[1].uri, "a-very-nice-model");

    assert_eq!(module.interfaces.len(), 2);

    let my_interface = &module.interfaces[0];
    assert_eq!(my_interface.annotation, None);
    assert_eq!(my_interface.name, "MyInterface");
    assert_eq!(my_interface.version, None);
    assert_eq!(my_interface.attributes.len(), 3);

    assert_eq!(my_interface.attributes[0].annotation, None);
    assert_eq!(my_interface.attributes[0].name, "counter");
    assert_eq!(my_interface.attributes[0].array, false);
    assert_eq!(my_interface.attributes[0].no_read, false);
    assert_eq!(my_interface.attributes[0].read_only, true);
    assert_eq!(my_interface.attributes[0].no_subscription, false);
    assert_eq!(my_interface.attributes[0].type_ref, TypeRef::Int8);

    assert_eq!(my_interface.attributes[1].annotation, None);
    assert_eq!(my_interface.attributes[1].name, "active");
    assert_eq!(my_interface.attributes[1].array, false);
    assert_eq!(my_interface.attributes[1].no_read, false);
    assert_eq!(my_interface.attributes[1].read_only, false);
    assert_eq!(my_interface.attributes[1].no_subscription, false);
    assert_eq!(my_interface.attributes[1].type_ref, TypeRef::Boolean);

    assert_eq!(my_interface.attributes[2].annotation, Some(" This is an attribute with annotation ".to_string()));
    assert_eq!(my_interface.attributes[2].name, "headlines");
    assert_eq!(my_interface.attributes[2].array, true);
    assert_eq!(my_interface.attributes[2].no_read, false);
    assert_eq!(my_interface.attributes[2].read_only, false);
    assert_eq!(my_interface.attributes[2].no_subscription, true);
    assert_eq!(my_interface.attributes[2].type_ref, TypeRef::Derived("MyType".to_string()));

    let vehicle_status = &module.interfaces[1];
    assert!(vehicle_status.annotation.is_some());
    assert_eq!(vehicle_status.name, "VehicleStatus");
    assert_eq!(vehicle_status.version, Some((2, 1)));
    assert_eq!(vehicle_status.attributes.len(), 1);
    assert_eq!(vehicle_status.types.len(), 2);

    assert_eq!(vehicle_status.attributes[0], Attribute {
        annotation: None, name: "actualFesMode".to_string(), array: false, read_only: true,
        no_read: false, no_subscription: false, type_ref: TypeRef::Derived("FesMode".to_string()) });

    assert_eq!(vehicle_status.types[0], Type::TypeDef {
        annotation: None, name: "Flag".to_string(), public: false, array: false,
        actual_type: TypeRef::Boolean });
    assert_eq!(vehicle_status.types[1], Type::Enumeration {
        annotation: None, name: "FesMode".to_string(), public: true, base_type: None,
        enumerators: vec![
            Enumerator { annotation: None, name: "SPORT_INDIVIDUAL".to_string(), val: Some(1) },
            Enumerator { annotation: None, name: "COMFORT".to_string(), val: Some(2) },
            Enumerator { annotation: None, name: "ECO".to_string(), val: Some(4) },
        ] });

    assert_eq!(vehicle_status.broadcasts.len(), 1);
    assert_eq!(vehicle_status.broadcasts[0], Broadcast {
        annotation: Some(" a pure event -> broadcast\n    ".to_string()), selector: None, selective: false,
        name: "ZeroEmmissionZoneBorder".to_string(), out_args: vec![
            Argument { annotation: None, array: false, name: "zoneEntered".to_string(), type_ref: TypeRef::Boolean },
            Argument { annotation: None, array: false, name: "zoneID".to_string(), type_ref: TypeRef::Int8 },
        ] });

    assert_eq!(vehicle_status.methods.len(), 1);
    assert_eq!(vehicle_status.methods[0], Method {
        annotation: None, name: "setActiveStatistics".to_string(), fire_and_forget: true, selector: None,
        in_args: vec![
            Argument { annotation: None, name: "activeStatistics".to_string(), array: false,
                type_ref: TypeRef::Derived("StatisticsType".to_string()) },
            Argument { annotation: None, name: "resetStatistics".to_string(), array: false,
                type_ref: TypeRef::Boolean },
        ],
        out_args: Vec::new(), error: None });
}

#[test]
fn test_type_collection1() {
    let module_result = parse_module(TYPE_COLLECTION_1);
    assert!(module_result.is_ok());
    let (_, module) = module_result.unwrap();

    assert_eq!(module.package, "de.titnc.fidl_test");
    assert_eq!(module.imports.len(), 0);
    assert_eq!(module.type_collections.len(), 2);

    let coll1 = &module.type_collections[0];
    assert_eq!(coll1.annotation, None);
    assert_eq!(coll1.version, Some((2, 14)));
    assert_eq!(coll1.name, Some("MyTypeCollection".to_string()));
    assert_eq!(coll1.types.len(), 4);

    assert_eq!(coll1.types[0], Type::TypeDef {
        annotation: None, public: true, name: "Byte".to_string(), array: false,
        actual_type: TypeRef::UInt8 });
    assert_eq!(coll1.types[1], Type::Array {
        annotation: Some(" an array of int's ".to_string()), public: true, name: "IntArray".to_string(),
        element_type: TypeRef::Int8 });
    assert_eq!(coll1.types[2], Type::Struct {
        annotation: None, public: true, name: "AStruct".to_string(), extends: None, polymorphic: false,
        fields: vec![
            Field { annotation: None, name: "a_single_byte".to_string(), array: false, type_ref: TypeRef::Derived("Byte".to_string()) },
            Field { annotation: None, name: "flag".to_string(), array: false, type_ref: TypeRef::Boolean },
            Field { annotation: None, name: "explanation".to_string(), array: false, type_ref: TypeRef::String },
        ] });
    assert_eq!(coll1.types[3], Type::Enumeration {
        annotation: None, public: true, name: "Status".to_string(), base_type: None,
        enumerators: vec![
            Enumerator { annotation: None, name: "NO_SIGNAL".to_string(), val: None },
            Enumerator { annotation: None, name: "VALUE_1".to_string(), val: None },
            Enumerator { annotation: None, name: "SIGNAL_UNBEFUELLT".to_string(), val: Some(0x0f) },
        ] });

    let coll2 = &module.type_collections[1];
    assert_eq!(coll2.annotation, Some(" an 'anonymous' type collection ".to_string()));
    assert_eq!(coll2.version, None);
    assert_eq!(coll2.name, None);
    assert_eq!(coll2.types.len(), 0);
}

#[test]
fn module_with_model_import_and_interface() {
    let (rest, module) = parse_module(
        "package p\nimport model 'x.fidl'\ninterface I { attribute Int8 counter readonly }").unwrap();
    assert_eq!(rest, "");
    assert_eq!(module.package, "p");
    assert_eq!(module.imports.len(), 1);
    assert_eq!(module.imports[0].namespace, "");
    assert_eq!(module.imports[0].uri, "x.fidl");
    assert_eq!(module.interfaces.len(), 1);
    assert_eq!(module.interfaces[0].name, "I");
    assert_eq!(module.interfaces[0].attributes, vec![Attribute {
        annotation: None, name: "counter".to_string(), array: false, read_only: true,
        no_read: false, no_subscription: false, type_ref: TypeRef::Int8 }]);
}

#[test]
fn module_with_anonymous_type_collection() {
    let (_, module) = parse_module(
        "package p typeCollection { version{major 2 minor 14} public typedef Byte is UInt8 }").unwrap();
    assert_eq!(module.type_collections.len(), 1);
    let tc = &module.type_collections[0];
    assert_eq!(tc.name, None);
    assert_eq!(tc.version, Some((2, 14)));
    assert_eq!(tc.types, vec![Type::TypeDef { annotation: None, public: true, name: "Byte".to_string(),
        array: false, actual_type: TypeRef::UInt8 }]);
}

#[test]
fn parsing_twice_gives_equal_trees() {
    assert_eq!(parse_module(INTERFACE_1A), parse_module(INTERFACE_1A));
    assert_eq!(parse_module(TYPE_COLLECTION_1), parse_module(TYPE_COLLECTION_1));
}

#[test]
fn module_failures() {
    assert_eq!(parse_module("interface I { }"), Err(Mismatch));
    assert_eq!(parse_module("package p interface I { } trailing"), Err(Mismatch));
    assert_eq!(parse_module("package p interface I {"), Err(Mismatch));
    assert!(parse_module("  package p  ").is_ok());
}

#[test]
fn keywords_do_not_run_into_names() {
    assert_eq!(parse_module("package_x"), Err(Mismatch));
    assert_eq!(parse_module("package p interface_I {}"), Err(Mismatch));
    assert_eq!(parse_module("package p interface I { method_m {} }"), Err(Mismatch));
}
