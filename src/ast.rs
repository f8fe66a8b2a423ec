//! The syntax tree of one source file.
use vstd::prelude::*;

verus! {

/// One source file: its package, imports, interfaces and type collections.
#[derive(Clone, PartialEq, Eq, Debug)]
pub struct Module {
    /// Package the module defines.
    pub package: String,
    /// Imports of other namespaces and modules.
    pub imports: Vec<Import>,
    /// Interfaces defined in the module.
    pub interfaces: Vec<Interface>,
    /// Type collections defined in the module.
    pub type_collections: Vec<TypeCollection>,
}

/// An import of a whole module (empty namespace) or of a namespace from a module.
#[derive(Clone, PartialEq, Eq, Debug)]
pub struct Import {
    /// Imported namespace; empty where a whole module is imported.
    pub namespace: String,
    /// Names the file of the imported module.
    pub uri: String,
}

/// An interface: attributes, nested types, broadcasts and methods.
#[derive(Clone, PartialEq, Eq, Debug)]
pub struct Interface {
    pub annotation: Option<String>,
    pub name: String,
    /// Version as (major, minor).
    pub version: Option<(u32, u32)>,
    pub attributes: Vec<Attribute>,
    pub types: Vec<Type>,
    pub broadcasts: Vec<Broadcast>,
    pub methods: Vec<Method>,
    /// Base interface.
    pub extends: Option<String>,
    /// Managed interfaces.
    pub manages: Option<Vec<String>>,
}

/// A reference to a built-in type, or to a type defined elsewhere by name.
#[derive(Clone, PartialEq, Eq, Debug)]
pub enum TypeRef {
    /// A type named by its simple or fully qualified name.
    Derived(String),
    Undefined,
    Int8,
    UInt8,
    Int16,
    UInt16,
    Int32,
    UInt32,
    Int64,
    UInt64,
    Boolean,
    String,
    Float,
    Double,
    ByteBuffer,
    /// Integer range with optional bounds; no syntax produces it yet.
    IntegerInterval(Option<isize>, Option<isize>),
}

/// An attribute of an interface.
#[derive(Clone, PartialEq, Eq, Debug)]
pub struct Attribute {
    pub annotation: Option<String>,
    pub name: String,
    pub array: bool,
    pub read_only: bool,
    pub no_subscription: bool,
    pub no_read: bool,
    pub type_ref: TypeRef,
}

/// A broadcast of an interface, with its output arguments.
#[derive(Clone, PartialEq, Eq, Debug)]
pub struct Broadcast {
    pub annotation: Option<String>,
    pub name: String,
    pub selector: Option<String>,
    pub selective: bool,
    pub out_args: Vec<Argument>,
}

/// A member of a struct or union.
#[derive(Clone, PartialEq, Eq, Debug)]
pub struct Field {
    pub annotation: Option<String>,
    pub name: String,
    pub type_ref: TypeRef,
    pub array: bool,
}

/// A parameter of a method or broadcast.
#[derive(Clone, PartialEq, Eq, Debug)]
pub struct Argument {
    pub annotation: Option<String>,
    pub type_ref: TypeRef,
    pub array: bool,
    pub name: String,
}

/// A method of an interface.
#[derive(Clone, PartialEq, Eq, Debug)]
pub struct Method {
    pub annotation: Option<String>,
    pub name: String,
    pub selector: Option<String>,
    pub fire_and_forget: bool,
    pub in_args: Vec<Argument>,
    pub out_args: Vec<Argument>,
    pub error: Option<MethodErrorSpec>,
}

/// The error a method declares: a named enumeration, or one written inline.
#[derive(Clone, PartialEq, Eq, Debug)]
pub enum MethodErrorSpec {
    Reference { annotation: Option<String>, fqn: String },
    EnumerationBody {
        annotation: Option<String>,
        extends: Option<TypeRef>,
        enumerators: Vec<Enumerator>,
    },
}

/// One value of an enumeration, with its explicit value if it has one.
#[derive(Clone, PartialEq, Eq, Debug)]
pub struct Enumerator {
    pub annotation: Option<String>,
    pub name: String,
    pub val: Option<u64>,
}

/// A named or anonymous group of type definitions.
#[derive(Clone, PartialEq, Eq, Debug)]
pub struct TypeCollection {
    pub annotation: Option<String>,
    pub name: Option<String>,
    /// Version as (major, minor).
    pub version: Option<(u32, u32)>,
    pub types: Vec<Type>,
}

/// A type definition.
#[derive(Clone, PartialEq, Eq, Debug)]
pub enum Type {
    TypeDef {
        annotation: Option<String>,
        public: bool,
        name: String,
        array: bool,
        actual_type: TypeRef,
    },
    Array { annotation: Option<String>, public: bool, name: String, element_type: TypeRef },
    Struct {
        annotation: Option<String>,
        public: bool,
        name: String,
        polymorphic: bool,
        extends: Option<String>,
        fields: Vec<Field>,
    },
    Union {
        annotation: Option<String>,
        public: bool,
        name: String,
        base_type: Option<String>,
        fields: Vec<Field>,
    },
    Mapping {
        annotation: Option<String>,
        public: bool,
        name: String,
        key_type: TypeRef,
        value_type: TypeRef,
    },
    Enumeration {
        annotation: Option<String>,
        name: String,
        public: bool,
        base_type: Option<TypeRef>,
        enumerators: Vec<Enumerator>,
    },
}

} // verus!
