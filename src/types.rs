//! Signal types carried by connections, and the direction of an IO node.

use vstd::prelude::*;

verus! {

/// The kinds of signal a slot can carry.
#[derive(Clone, Copy, PartialEq, Eq, Debug, Structural)]
pub enum Type {
    /// On/Off (boolean) value.
    OnOff,
    /// Number value.
    Number,
    /// Composite value: several channels over one connection.
    Composite,
    /// Video value.
    Video,
    /// Audio value.
    Audio,
}

/// The code of a signal type in the document format.
pub open spec fn type_code_spec(t: Type) -> u8 {
    match t {
        Type::OnOff => 0,
        Type::Number => 1,
        Type::Composite => 5,
        Type::Video => 6,
        Type::Audio => 7,
    }
}

/// The code of a signal type in the document format.
pub fn type_code(t: Type) -> (r: u8)
    ensures
        r == type_code_spec(t),
{
    match t {
        Type::OnOff => 0,
        Type::Number => 1,
        Type::Composite => 5,
        Type::Video => 6,
        Type::Audio => 7,
    }
}

/// The signal type with document code `c`, if it names one.
pub fn type_from_code(c: u8) -> (r: Option<Type>)
    ensures
        r is Some ==> type_code_spec(r->0) == c,
        r is None ==> forall|t: Type| type_code_spec(t) != c,
{
    if c == 0 {
        Some(Type::OnOff)
    } else if c == 1 {
        Some(Type::Number)
    } else if c == 5 {
        Some(Type::Composite)
    } else if c == 6 {
        Some(Type::Video)
    } else if c == 7 {
        Some(Type::Audio)
    } else {
        None
    }
}

/// A signal type known at compile time.
pub trait CompileType {
    /// The type, for specifications.
    spec fn spec_type() -> Type;

    /// Gets the underlying [`Type`].
    fn get_type() -> (r: Type)
        ensures
            r == Self::spec_type(),
    ;
}

/// [`CompileType`] for [`Type::Number`].
#[derive(Clone, Copy, Default, Debug, PartialEq, Eq)]
pub struct TNumber;

impl CompileType for TNumber {
    open spec fn spec_type() -> Type {
        Type::Number
    }

    fn get_type() -> (r: Type) {
        Type::Number
    }
}

/// [`CompileType`] for [`Type::OnOff`].
#[derive(Clone, Copy, Default, Debug, PartialEq, Eq)]
pub struct TOnOff;

impl CompileType for TOnOff {
    open spec fn spec_type() -> Type {
        Type::OnOff
    }

    fn get_type() -> (r: Type) {
        Type::OnOff
    }
}

/// [`CompileType`] for [`Type::Composite`].
#[derive(Clone, Copy, Default, Debug, PartialEq, Eq)]
pub struct TComposite;

impl CompileType for TComposite {
    open spec fn spec_type() -> Type {
        Type::Composite
    }

    fn get_type() -> (r: Type) {
        Type::Composite
    }
}

/// [`CompileType`] for [`Type::Video`].
#[derive(Clone, Copy, Default, Debug, PartialEq, Eq)]
pub struct TVideo;

impl CompileType for TVideo {
    open spec fn spec_type() -> Type {
        Type::Video
    }

    fn get_type() -> (r: Type) {
        Type::Video
    }
}

/// [`CompileType`] for [`Type::Audio`].
#[derive(Clone, Copy, Default, Debug, PartialEq, Eq)]
pub struct TAudio;

impl CompileType for TAudio {
    open spec fn spec_type() -> Type {
        Type::Audio
    }

    fn get_type() -> (r: Type) {
        Type::Audio
    }
}

/// Whether an IO node feeds a signal into the microcontroller or out of it.
#[derive(Clone, Copy, PartialEq, Eq, Debug, Structural)]
pub enum IONodeType {
    Output,
    Input,
}

/// The code of a direction in the document format.
pub open spec fn mode_code_spec(m: IONodeType) -> u8 {
    match m {
        IONodeType::Output => 0,
        IONodeType::Input => 1,
    }
}

} // verus!
