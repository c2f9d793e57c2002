//! The error a link reports when it cannot produce an image.

use vstd::prelude::*;

use crate::object::Width;
use crate::text::{decimal, decimal_text};

verus! {

/// The reason a link could not be completed. Each variant names the object, symbol, or
/// section involved so the producer can be fixed.
#[derive(Clone, PartialEq, Eq, Debug)]
#[non_exhaustive]
pub enum LinkError {
    /// A symbol of this name is defined by more than one object.
    DuplicateSymbol {
        /// The name defined more than once.
        name: String,
    },
    /// A relocation in `object` names a `name` that no object defines.
    UndefinedSymbol {
        /// The unresolved symbol name.
        name: String,
        /// The object whose relocation referenced it.
        object: String,
    },
    /// The entry point the linker was configured with is not defined by any object.
    UndefinedEntry {
        /// The configured entry symbol name.
        name: String,
    },
    /// A symbol or relocation names a section its object never created.
    InvalidSection {
        /// The object that named the section.
        object: String,
        /// The section name that does not exist in that object.
        section: String,
    },
    /// A relocation's slot, `offset` plus its width, runs past the end of the section it
    /// patches.
    RelocationOutOfRange {
        /// The object that requested the relocation.
        object: String,
        /// The section the slot is in.
        section: String,
        /// The byte offset of the slot within the object's section.
        offset: u64,
    },
    /// A relocation resolved to an address that is negative after the addend, or larger
    /// than its width can hold.
    RelocationOverflow {
        /// The symbol whose resolved address overflowed.
        target: String,
        /// The width the address had to fit.
        width: Width,
    },
    /// The laid-out image would extend past the end of the 64-bit address space.
    LayoutOverflow,
}

/// A link error as a value: the same variants, with names as character sequences.
pub enum LinkErrorView {
    DuplicateSymbol { name: Seq<char> },
    UndefinedSymbol { name: Seq<char>, object: Seq<char> },
    UndefinedEntry { name: Seq<char> },
    InvalidSection { object: Seq<char>, section: Seq<char> },
    RelocationOutOfRange { object: Seq<char>, section: Seq<char>, offset: u64 },
    RelocationOverflow { target: Seq<char>, width: Width },
    LayoutOverflow,
}

impl View for LinkError {
    type V = LinkErrorView;

    open spec fn view(&self) -> LinkErrorView {
        match self {
            LinkError::DuplicateSymbol { name } => LinkErrorView::DuplicateSymbol { name: name@ },
            LinkError::UndefinedSymbol { name, object } => LinkErrorView::UndefinedSymbol {
                name: name@,
                object: object@,
            },
            LinkError::UndefinedEntry { name } => LinkErrorView::UndefinedEntry { name: name@ },
            LinkError::InvalidSection { object, section } => LinkErrorView::InvalidSection {
                object: object@,
                section: section@,
            },
            LinkError::RelocationOutOfRange { object, section, offset } =>
                LinkErrorView::RelocationOutOfRange {
                object: object@,
                section: section@,
                offset: *offset,
            },
            LinkError::RelocationOverflow { target, width } =>
                LinkErrorView::RelocationOverflow { target: target@, width: *width },
            LinkError::LayoutOverflow => LinkErrorView::LayoutOverflow,
        }
    }
}

/// A result with its error taken as a value.
pub open spec fn with_error_view<T>(r: Result<T, LinkError>) -> Result<T, LinkErrorView> {
    match r {
        Ok(v) => Ok(v),
        Err(e) => Err(e@),
    }
}

/// The message that describes a link error.
pub open spec fn error_message(e: LinkErrorView) -> Seq<char> {
    match e {
        LinkErrorView::DuplicateSymbol { name } => "symbol `"@ + name
            + "` is defined by more than one object"@,
        LinkErrorView::UndefinedSymbol { name, object } => "object `"@ + object
            + "` references symbol `"@ + name + "`, which no object defines"@,
        LinkErrorView::UndefinedEntry { name } => "entry point `"@ + name
            + "` is not defined by any object"@,
        LinkErrorView::InvalidSection { object, section } => "object `"@ + object
            + "` names section `"@ + section + "`, which it never created"@,
        LinkErrorView::RelocationOutOfRange { object, section, offset } => "relocation at offset "@
            + decimal(offset as nat) + " in section `"@ + section + "` of object `"@ + object
            + "` runs past the end of the section"@,
        LinkErrorView::RelocationOverflow { target, width } => "the resolved address of `"@
            + target + "` does not fit in "@ + decimal(width.size()) + " bytes"@,
        LinkErrorView::LayoutOverflow => "the laid-out image would exceed the 64-bit address space"@,
    }
}

impl LinkError {
    /// Renders the error as a readable message that names its subject.
    pub fn to_string(&self) -> (s: String)
        ensures
            s@ == error_message(self@),
    {
        match self {
            LinkError::DuplicateSymbol { name } => String::from_str("symbol `").concat(
                name.as_str(),
            ).concat("` is defined by more than one object"),
            LinkError::UndefinedSymbol { name, object } => String::from_str("object `").concat(
                object.as_str(),
            ).concat("` references symbol `").concat(name.as_str()).concat(
                "`, which no object defines",
            ),
            LinkError::UndefinedEntry { name } => String::from_str("entry point `").concat(
                name.as_str(),
            ).concat("` is not defined by any object"),
            LinkError::InvalidSection { object, section } => String::from_str("object `").concat(
                object.as_str(),
            ).concat("` names section `").concat(section.as_str()).concat(
                "`, which it never created",
            ),
            LinkError::RelocationOutOfRange { object, section, offset } => {
                let number = decimal_text(*offset);
                String::from_str("relocation at offset ").concat(number.as_str()).concat(
                    " in section `",
                ).concat(section.as_str()).concat("` of object `").concat(object.as_str()).concat(
                    "` runs past the end of the section",
                )
            },
            LinkError::RelocationOverflow { target, width } => {
                let number = decimal_text(width.bytes() as u64);
                String::from_str("the resolved address of `").concat(target.as_str()).concat(
                    "` does not fit in ",
                ).concat(number.as_str()).concat(" bytes")
            },
            LinkError::LayoutOverflow => String::from_str(
                "the laid-out image would exceed the 64-bit address space",
            ),
        }
    }
}

} // verus!
