//! The metadata that describes what crosses the boundary: structs, enums,
//! their fields and methods, the thread-safety level of each, and the
//! boundary type system with its sizes and alignments.

use vstd::prelude::*;

use vstd::string::StringExecFns;

verus! {

/// Metadata for one field of a bridged struct.
pub struct FieldMetadata {
    pub name: String,
    pub rust_type: String,
    pub ffi_getter_name: String,
    pub ffi_setter_name: String,
    pub ffi_type: String,
}

/// Metadata for one bridged method.
pub struct MethodMetadata {
    pub name: String,
    pub ffi_name: String,
    pub args: Vec<String>,
    pub return_type: String,
    pub has_self: bool,
    pub is_static: bool,
}

/// Metadata for one bridged struct: its symbol names, fields and methods.
pub struct StructMetadata {
    pub name: String,
    pub ffi_prefix: String,
    pub new_fn_name: String,
    pub drop_fn_name: String,
    pub clone_fn_name: String,
    pub fields: Vec<FieldMetadata>,
    pub methods: Vec<MethodMetadata>,
}

/// Everything collected for one build: the structs and the free methods.
pub struct XrossCombinedMetadata {
    pub structs: Vec<StructMetadata>,
    pub methods: Vec<MethodMetadata>,
}

/// How safely the runtime may touch a field or call a method.
pub enum ThreadSafety {
    /// No protection at all: single-thread use, or locking done elsewhere.
    Unsafe,
    /// Reader-writer exclusion on the runtime side.
    Lock,
    /// Compare-and-swap level operations.
    Atomic,
    /// Written once, read-only afterwards.
    Immutable,
}

/// What kind of receiver a bridged method takes.
pub enum XrossMethodType {
    Static,
    OwnedInstance,
    MutInstance,
    ConstInstance,
}

/// The boundary type system: primitives, text, and composites.
pub enum XrossType {
    Void,
    Bool,
    I8,
    I16,
    I32,
    I64,
    U16,
    F32,
    F64,
    Pointer,
    String,
    /// Another bridged class.
    Struct { name: String, symbol_prefix: String, is_reference: bool },
    /// A slice of elements of one type.
    Slice { element_type: Box<XrossType>, is_reference: bool },
}

/// One field of a bridged struct or enum variant.
pub struct XrossField {
    pub name: String,
    pub ty: XrossType,
    pub docs: Vec<String>,
    pub safety: ThreadSafety,
}

/// One method bridged to the runtime.
pub struct XrossMethod {
    pub name: String,
    pub symbol: String,
    pub method_type: XrossMethodType,
    pub is_constructor: bool,
    pub args: Vec<XrossField>,
    pub ret: XrossType,
    pub docs: Vec<String>,
    pub safety: ThreadSafety,
}

/// A bridged struct definition.
pub struct XrossStruct {
    pub signature: String,
    pub symbol_prefix: String,
    pub package_name: String,
    pub name: String,
    pub fields: Vec<XrossField>,
    pub methods: Vec<XrossMethod>,
    pub docs: Vec<String>,
}

/// One variant of a bridged enum; unnamed fields are numbered.
pub struct XrossVariant {
    pub name: String,
    pub fields: Vec<XrossField>,
    pub docs: Vec<String>,
}

/// A bridged enum definition.
pub struct XrossEnum {
    pub signature: String,
    pub symbol_prefix: String,
    pub package_name: String,
    pub name: String,
    pub variants: Vec<XrossVariant>,
    pub methods: Vec<XrossMethod>,
    pub docs: Vec<String>,
}

/// A bridged definition: a struct or an enum.
pub enum XrossDefinition {
    Struct(XrossStruct),
    Enum(XrossEnum),
}

/// The byte size of a boundary type.
pub open spec fn spec_xross_type_size(t: XrossType) -> int {
    match t {
        XrossType::Void => 0,
        XrossType::Bool => 1,
        XrossType::I8 => 1,
        XrossType::I16 => 2,
        XrossType::U16 => 2,
        XrossType::I32 => 4,
        XrossType::F32 => 4,
        XrossType::I64 => 8,
        XrossType::F64 => 8,
        XrossType::Pointer => 8,
        XrossType::String => 8,
        XrossType::Struct { .. } => 8,
        XrossType::Slice { .. } => 16,
    }
}

/// The alignment of a boundary type.
pub open spec fn spec_xross_type_align(t: XrossType) -> int {
    match t {
        XrossType::Void => 1,
        XrossType::Bool => 1,
        XrossType::I8 => 1,
        XrossType::I16 => 2,
        XrossType::U16 => 2,
        XrossType::I32 => 4,
        XrossType::F32 => 4,
        XrossType::I64 => 8,
        XrossType::F64 => 8,
        XrossType::Pointer => 8,
        XrossType::String => 8,
        XrossType::Struct { .. } => 8,
        XrossType::Slice { .. } => 8,
    }
}

impl XrossType {
    /// The byte size of this type as the runtime's value layouts see it:
    /// structs travel as pointers, slices as a pointer with a length.
    pub fn size(&self) -> (r: usize)
        ensures
            r == spec_xross_type_size(*self),
    {
        match self {
            XrossType::Void => 0,
            XrossType::Bool | XrossType::I8 => 1,
            XrossType::I16 | XrossType::U16 => 2,
            XrossType::I32 | XrossType::F32 => 4,
            XrossType::I64 | XrossType::F64 | XrossType::Pointer | XrossType::String => 8,
            XrossType::Struct { .. } => 8,
            XrossType::Slice { .. } => 16,
        }
    }

    /// The alignment of this type.
    pub fn align(&self) -> (r: usize)
        ensures
            r == spec_xross_type_align(*self),
    {
        match self {
            XrossType::Void => 1,
            XrossType::Bool | XrossType::I8 => 1,
            XrossType::I16 | XrossType::U16 => 2,
            XrossType::I32 | XrossType::F32 => 4,
            XrossType::I64 | XrossType::F64 | XrossType::Pointer | XrossType::String => 8,
            XrossType::Struct { .. } => 8,
            XrossType::Slice { .. } => 8,
        }
    }

    /// The runtime's layout member name for this type. The void type has
    /// none and is ruled out.
    pub fn layout_member(&self) -> (r: String)
        requires
            !(self is Void),
        ensures
            self is Bool || self is I8 ==> r@ == "JAVA_BYTE"@,
            self is I16 ==> r@ == "JAVA_SHORT"@,
            self is U16 ==> r@ == "JAVA_CHAR"@,
            self is I32 ==> r@ == "JAVA_INT"@,
            self is I64 ==> r@ == "JAVA_LONG"@,
            self is F32 ==> r@ == "JAVA_FLOAT"@,
            self is F64 ==> r@ == "JAVA_DOUBLE"@,
            self is Pointer || self is String || self is Struct || self is Slice ==> r@
                == "ADDRESS"@,
    {
        match self {
            XrossType::Void => String::from_str(""),
            XrossType::Bool | XrossType::I8 => String::from_str("JAVA_BYTE"),
            XrossType::I16 => String::from_str("JAVA_SHORT"),
            XrossType::U16 => String::from_str("JAVA_CHAR"),
            XrossType::I32 => String::from_str("JAVA_INT"),
            XrossType::I64 => String::from_str("JAVA_LONG"),
            XrossType::F32 => String::from_str("JAVA_FLOAT"),
            XrossType::F64 => String::from_str("JAVA_DOUBLE"),
            XrossType::Pointer | XrossType::String | XrossType::Struct { .. }
            | XrossType::Slice { .. } => String::from_str("ADDRESS"),
        }
    }

    /// Whether this type is a borrow the runtime must not free.
    pub fn is_reference(&self) -> (r: bool)
        ensures
            r == match *self {
                XrossType::Struct { is_reference, .. } => is_reference,
                XrossType::Slice { is_reference, .. } => is_reference,
                _ => false,
            },
    {
        match self {
            XrossType::Struct { is_reference, .. } => *is_reference,
            XrossType::Slice { is_reference, .. } => *is_reference,
            _ => false,
        }
    }
}

/// Whether two definitions describe the same shape: the same kind under the
/// same package and name, with as many fields or variants.
pub open spec fn spec_structurally_compatible(a: XrossDefinition, b: XrossDefinition) -> bool {
    match (a, b) {
        (XrossDefinition::Struct(sa), XrossDefinition::Struct(sb)) => {
            &&& sa.package_name@ == sb.package_name@
            &&& sa.name@ == sb.name@
            &&& sa.fields@.len() == sb.fields@.len()
        },
        (XrossDefinition::Enum(ea), XrossDefinition::Enum(eb)) => {
            &&& ea.package_name@ == eb.package_name@
            &&& ea.name@ == eb.name@
            &&& ea.variants@.len() == eb.variants@.len()
        },
        _ => false,
    }
}

/// Decide whether an existing definition and a fresh one describe the same
/// shape, so a rebuild may keep the one already written out.
pub fn is_structurally_compatible(a: &XrossDefinition, b: &XrossDefinition) -> (r: bool)
    ensures
        r == spec_structurally_compatible(*a, *b),
{
    match (a, b) {
        (XrossDefinition::Struct(sa), XrossDefinition::Struct(sb)) => {
            sa.package_name == sb.package_name && sa.name == sb.name && sa.fields.len()
                == sb.fields.len()
        },
        (XrossDefinition::Enum(ea), XrossDefinition::Enum(eb)) => {
            ea.package_name == eb.package_name && ea.name == eb.name && ea.variants.len()
                == eb.variants.len()
        },
        _ => false,
    }
}

} // verus!
