//! The semantic records the resolvers produce: modules, packages,
//! parameters, ports and instances, with the enumerations their fields range
//! over.

use vstd::prelude::*;

verus! {

/// Parameter kinds.
#[derive(Debug, Clone, Copy, PartialEq, Eq, Structural)]
pub enum SvParamType {
    Parameter,
    LocalParam,
}

/// Port directions.
#[derive(Debug, Clone, Copy, PartialEq, Eq, Structural)]
pub enum SvPortDirection {
    Inout,
    Input,
    Output,
    Ref,
    IMPLICIT,
}

/// Data kinds.
#[derive(Debug, Clone, Copy, PartialEq, Eq, Structural)]
pub enum SvDataKind {
    Net,
    Variable,
    IMPLICIT,
}

/// Signedness.
#[derive(Debug, Clone, Copy, PartialEq, Eq, Structural)]
pub enum SvSignedness {
    Signed,
    Unsigned,
    Unsupported,
    IMPLICIT,
}

/// Data types.
#[derive(Debug, Clone, Copy, PartialEq, Eq, Structural)]
pub enum SvDataType {
    Logic,
    Reg,
    Bit,
    Byte,
    Integer,
    Int,
    Shortint,
    Longint,
    Time,
    Real,
    Shortreal,
    Realtime,
    Array,
    Enum,
    Struct,
    Union,
    Class,
    TypeRef,
    String,
    Unsupported,
    IMPLICIT,
}

/// Net types.
#[derive(Debug, Clone, Copy, PartialEq, Eq, Structural)]
pub enum SvNetType {
    Wire,
    Uwire,
    Tri,
    Wor,
    Wand,
    Triand,
    Trior,
    Trireg,
    Tri0,
    Tri1,
    Supply0,
    Supply1,
    IMPLICIT,
}

/// A packed dimension: the left and right bound as constant expression
/// text.
pub type SvPackedDimension = (String, String);

/// An unpacked dimension: the left bound and, for the range form, the right
/// bound.
pub type SvUnpackedDimension = (String, Option<String>);

/// A parameter record.
#[derive(Debug)]
pub struct SvParameter {
    pub identifier: String,
    pub expression: Option<String>,
    pub paramtype: SvParamType,
    pub datatype: Option<SvDataType>,
    pub datatype_overridable: bool,
    pub classid: Option<String>,
    pub signedness: Option<SvSignedness>,
    pub signedness_overridable: bool,
    pub num_bits: Option<u64>,
    pub packed_dimensions: Vec<SvPackedDimension>,
    pub unpacked_dimensions: Vec<SvUnpackedDimension>,
    pub comment: Option<Vec<String>>,
}

/// A port record.
#[derive(Debug)]
pub struct SvPort {
    pub identifier: String,
    pub direction: SvPortDirection,
    pub datakind: SvDataKind,
    pub datatype: SvDataType,
    pub classid: Option<String>,
    pub nettype: Option<SvNetType>,
    pub signedness: Option<SvSignedness>,
    pub packed_dimensions: Vec<SvPackedDimension>,
    pub unpacked_dimensions: Vec<SvUnpackedDimension>,
    pub comment: Option<Vec<String>>,
}

/// An instantiation record.
#[derive(Debug)]
pub struct SvInstance {
    pub module_identifier: String,
    pub hierarchical_instance: String,
    pub hierarchy: Vec<String>,
    pub connections: Vec<Vec<String>>,
}

/// A module record.
#[derive(Debug)]
pub struct SvModuleDeclaration {
    pub identifier: String,
    pub parameters: Vec<SvParameter>,
    pub ports: Vec<SvPort>,
    pub instances: Vec<SvInstance>,
    pub filepath: String,
    pub comments: Vec<String>,
}

/// A package record.
#[derive(Debug)]
pub struct SvPackageDeclaration {
    pub identifier: String,
    pub parameters: Vec<SvParameter>,
    pub filepath: String,
}

/// The whole parsed model of one source file.
#[derive(Debug)]
pub struct SvData {
    pub modules: Vec<SvModuleDeclaration>,
    pub packages: Vec<SvPackageDeclaration>,
}

/// The malformed parameter declarations the resolver refuses.
#[derive(Debug, Clone, Copy, PartialEq, Eq, Structural)]
pub enum SvSemanticError {
    PackedDimensionsOnInteger,
    PackedDimensionsOnReal,
    PackedDimensionsOnString,
    PackedDimensionsOnTime,
    SignednessOnReal,
    SignednessOnString,
    LocalParamWithoutDefault,
}

impl SvSemanticError {
    /// The diagnostic text of the violation.
    pub fn message(&self) -> (r: &'static str)
        ensures
            *self is PackedDimensionsOnInteger ==> r@
                == "Cannot combine packed dimensions with an integer!"@,
            *self is PackedDimensionsOnReal ==> r@
                == "Cannot combine packed dimensions with a real!"@,
            *self is PackedDimensionsOnString ==> r@
                == "Cannot combine packed dimensions with a string!"@,
            *self is PackedDimensionsOnTime ==> r@
                == "Cannot combine packed dimensions with time!"@,
            *self is SignednessOnReal ==> r@ == "Reals cannot have signedness!"@,
            *self is SignednessOnString ==> r@ == "Strings cannot have signedness!"@,
            *self is LocalParamWithoutDefault ==> r@ == "Localparams must have a default value!"@,
    {
        match self {
            SvSemanticError::PackedDimensionsOnInteger => {
                "Cannot combine packed dimensions with an integer!"
            },
            SvSemanticError::PackedDimensionsOnReal => {
                "Cannot combine packed dimensions with a real!"
            },
            SvSemanticError::PackedDimensionsOnString => {
                "Cannot combine packed dimensions with a string!"
            },
            SvSemanticError::PackedDimensionsOnTime => {
                "Cannot combine packed dimensions with time!"
            },
            SvSemanticError::SignednessOnReal => "Reals cannot have signedness!",
            SvSemanticError::SignednessOnString => "Strings cannot have signedness!",
            SvSemanticError::LocalParamWithoutDefault => "Localparams must have a default value!",
        }
    }
}

} // verus!
