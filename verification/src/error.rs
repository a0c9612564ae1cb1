//! What can go wrong while a layout is generated. Every failure is final:
//! the first one found is returned and nothing is produced.

use vstd::prelude::*;
use crate::text::{decimal, push_decimal};

verus! {

/// A failed generation.
#[derive(Debug, Clone, PartialEq, Eq)]
pub enum Error {
    /// The field's name has no `_`, or what follows its last `_` is not a
    /// width. `field` is the name as it was declared.
    MalformedFieldName { field: String },
    /// The field's declared type is neither a named type nor the empty
    /// tuple. `field` is the field's label.
    UnsupportedReturnType { field: String },
    /// No conversion from the container's integer is known for the named
    /// type.
    MissingConversion { identifier: String },
    /// The fields need `excess` bits more than the container has.
    LayoutOverflow { excess: u128 },
    /// The first parameter names no container.
    InvalidContainerWidth,
    /// A parameter after the first is not one of the known options.
    InvalidOrderingToken { token: String },
}

/// An [`Error`] with its texts as sequences of characters.
pub enum ErrorView {
    MalformedFieldName { field: Seq<char> },
    UnsupportedReturnType { field: Seq<char> },
    MissingConversion { identifier: Seq<char> },
    LayoutOverflow { excess: nat },
    InvalidContainerWidth,
    InvalidOrderingToken { token: Seq<char> },
}

impl View for Error {
    type V = ErrorView;

    open spec fn view(&self) -> ErrorView {
        match self {
            Error::MalformedFieldName { field } => ErrorView::MalformedFieldName { field: field@ },
            Error::UnsupportedReturnType { field } => ErrorView::UnsupportedReturnType {
                field: field@,
            },
            Error::MissingConversion { identifier } => ErrorView::MissingConversion {
                identifier: identifier@,
            },
            Error::LayoutOverflow { excess } => ErrorView::LayoutOverflow { excess: *excess as nat },
            Error::InvalidContainerWidth => ErrorView::InvalidContainerWidth,
            Error::InvalidOrderingToken { token } => ErrorView::InvalidOrderingToken {
                token: token@,
            },
        }
    }
}

/// The grammar of a field's name, as the diagnostics quote it.
pub open spec fn expected_format() -> Seq<char> {
    "Expected format: any_field_name_intSize"@
}

/// The diagnostic for an error.
pub open spec fn message_of(e: ErrorView) -> Seq<char> {
    match e {
        ErrorView::MalformedFieldName { field } => "Wrong field name format: "@ + field + ". "@
            + expected_format(),
        ErrorView::UnsupportedReturnType { field } => "Return type not supported for field "@
            + field,
        ErrorView::MissingConversion { identifier } => "No conversion from the bitfield's integer to "@
            + identifier,
        ErrorView::LayoutOverflow { excess } =>
            "Selected size for bitfield is not large enough to hold every field: "@ + decimal(
                excess,
            ) + " bit(s) too many"@,
        ErrorView::InvalidContainerWidth =>
            "The first parameter must be the size of the bitfield: 'u8' / 'u16' / 'u32' / 'u64' / 'u128'"@,
        ErrorView::InvalidOrderingToken { token } => "Wrong parameter supplied: "@ + token
            + ". Parameters can be: 'lsb' / 'msb' for the order of field declaration, 'no_pub', 'pp'"@,
    }
}

impl Error {
    /// The diagnostic for this error, naming the field or parameter at
    /// fault.
    pub fn message(&self) -> (s: String)
        ensures
            s@ == message_of(self@),
    {
        match self {
            Error::MalformedFieldName { field } => {
                let mut s = String::from_str("Wrong field name format: ");
                s.append(field.as_str());
                s.append(". ");
                s.append("Expected format: any_field_name_intSize");
                s
            },
            Error::UnsupportedReturnType { field } => {
                let mut s = String::from_str("Return type not supported for field ");
                s.append(field.as_str());
                s
            },
            Error::MissingConversion { identifier } => {
                let mut s = String::from_str("No conversion from the bitfield's integer to ");
                s.append(identifier.as_str());
                s
            },
            Error::LayoutOverflow { excess } => {
                let mut s = String::from_str(
                    "Selected size for bitfield is not large enough to hold every field: ",
                );
                push_decimal(&mut s, *excess);
                s.append(" bit(s) too many");
                s
            },
            Error::InvalidContainerWidth => String::from_str(
                "The first parameter must be the size of the bitfield: 'u8' / 'u16' / 'u32' / 'u64' / 'u128'",
            ),
            Error::InvalidOrderingToken { token } => {
                let mut s = String::from_str("Wrong parameter supplied: ");
                s.append(token.as_str());
                s.append(
                    ". Parameters can be: 'lsb' / 'msb' for the order of field declaration, 'no_pub', 'pp'",
                );
                s
            },
        }
    }
}

} // verus!
