use vstd::prelude::*;

verus! {

/// What went wrong while compiling a schema or converting a value.
#[derive(Debug, Clone, Copy, PartialEq, Eq, Structural)]
pub enum Error {
    /// The schema text is malformed at this character position.
    ParseError(usize),
    /// A type name names no declaration of the schema.
    UnknownType,
    /// A reference gives another number of type arguments than its declaration has parameters.
    GenericArityMismatch,
    /// A generic parameter is used with type arguments.
    GenericWithArguments,
    /// Expansion went on past the bound on instantiations.
    ExpansionLimit,
    /// A mangled name is missing from the expanded table, or an id is out of the table.
    UnresolvedName,
    /// The input ended inside a value.
    EndOfStream,
    /// Bytes are left after a complete top-level value.
    TrailingBytes,
    /// A string on the wire is not UTF-8.
    Utf8Error,
    /// An integer does not fit the type that the schema declares.
    IntegerRange,
    /// The value does not have the shape that the schema expects here.
    TypeMismatch,
    /// A string holds the NUL character, which terminates strings on the wire.
    NulInString,
    /// No variant of the enum has this name.
    UnknownEnumVariant,
    /// An ordinal on the wire is not below the enum's number of variants.
    OrdinalOutOfRange,
    /// A struct value ends before all fields were given.
    MissingStructField,
    /// A struct value gives a field other than the next one of the declaration.
    WrongFieldOrder,
    /// A struct value gives more fields than the declaration has.
    UnexpectedField,
    /// An enum in map shape has a key other than `tag` then `val`, or lacks one.
    UnexpectedEnumKey,
    /// A value nests deeper than the decoder follows.
    DepthLimit,
}

} // verus!
