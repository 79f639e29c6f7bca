//! Why patterns beside each other cannot be tested.

use crate::gadget_verifier;
use crate::gadget_verifier::{VerifierError, VerifierFailure};
use crate::published;
use crate::published::{PatternError, PatternFailure};
use vstd::prelude::*;

verus! {

/// Why patterns beside each other cannot be tested, over texts.
pub enum InterfaceFailure {
    UnknownSpec(Seq<char>),
    Pattern(PatternFailure),
    MissingAnchor(Seq<char>, Seq<char>),
    DuplicatePlacement(Seq<char>),
    MissingPlacement(Seq<char>),
    TooLarge,
    Gadget(VerifierFailure),
    FailedReport(Seq<char>),
}

/// Why patterns beside each other cannot be tested.
#[derive(Debug)]
#[allow(inconsistent_fields)]
pub enum InterfaceError {
    /// The library has no pattern of that name.
    UnknownSpec { name: String },
    /// A pattern cannot be read or composed.
    Pattern { error: PatternError },
    /// A pattern has no wire at an edge.
    MissingAnchor { name: &'static str, port: String },
    /// A piece is placed twice.
    DuplicatePlacement { role: String },
    /// A piece is not placed.
    MissingPlacement { role: &'static str },
    /// The patterns are too large, or lie too far apart, to be tested together.
    TooLarge,
    /// A question about the whole makes no sense.
    Gadget { error: VerifierError },
    /// The test of a family failed.
    FailedReport { label: String },
}

impl View for InterfaceError {
    type V = InterfaceFailure;

    open spec fn view(&self) -> InterfaceFailure {
        match *self {
            InterfaceError::UnknownSpec { name } => InterfaceFailure::UnknownSpec(name@),
            InterfaceError::Pattern { error } => InterfaceFailure::Pattern(error@),
            InterfaceError::MissingAnchor { name, port } => InterfaceFailure::MissingAnchor(name@, port@),
            InterfaceError::DuplicatePlacement { role } => InterfaceFailure::DuplicatePlacement(role@),
            InterfaceError::MissingPlacement { role } => InterfaceFailure::MissingPlacement(role@),
            InterfaceError::TooLarge => InterfaceFailure::TooLarge,
            InterfaceError::Gadget { error } => InterfaceFailure::Gadget(error@),
            InterfaceError::FailedReport { label } => InterfaceFailure::FailedReport(label@),
        }
    }
}

/// The message of a failure.
pub open spec fn interface_text(failure: InterfaceFailure) -> Seq<char> {
    match failure {
        InterfaceFailure::UnknownSpec(name) => "Unknown published spec '"@ + name + "'"@,
        InterfaceFailure::Pattern(failure) => published::failure_text(failure),
        InterfaceFailure::MissingAnchor(name, port) => "Published spec '"@ + name + "' is missing anchor for "@ + port,
        InterfaceFailure::DuplicatePlacement(role) => "Duplicate placement for piece '"@ + role + "'"@,
        InterfaceFailure::MissingPlacement(role) => "Missing placement for piece '"@ + role + "'"@,
        InterfaceFailure::TooLarge => "The composed pattern is too large to be tested"@,
        InterfaceFailure::Gadget(failure) => gadget_verifier::failure_text(failure),
        InterfaceFailure::FailedReport(label) => "Cannot build an interface basis entry from failed report '"@ + label
            + "'"@,
    }
}

fn quoted_in(before: &str, name: &str) -> (out: String)
    ensures
        out@ == before@ + name@ + "'"@,
{
    let mut out: String = before.to_owned();
    out.append(name);
    out.append("'");
    out
}

impl InterfaceError {
    /// The message of the error.
    pub fn to_string(&self) -> (message: String)
        ensures
            message@ == interface_text(self@),
    {
        match self {
            InterfaceError::UnknownSpec { name } => quoted_in("Unknown published spec '", name.as_str()),
            InterfaceError::Pattern { error } => error.to_string(),
            InterfaceError::MissingAnchor { name, port } => {
                let mut out: String = "Published spec '".to_owned();
                out.append(name);
                out.append("' is missing anchor for ");
                out.append(port.as_str());
                out
            },
            InterfaceError::DuplicatePlacement { role } => quoted_in("Duplicate placement for piece '", role.as_str()),
            InterfaceError::MissingPlacement { role } => quoted_in("Missing placement for piece '", role),
            InterfaceError::TooLarge => "The composed pattern is too large to be tested".to_owned(),
            InterfaceError::Gadget { error } => error.to_string(),
            InterfaceError::FailedReport { label } => {
                quoted_in("Cannot build an interface basis entry from failed report '", label.as_str())
            },
        }
    }
}

} // verus!
