//! Why a board cannot be built.

use crate::cellmap;
use crate::cellmap::Place;
use crate::compiler;
use crate::published;
use crate::published::{PatternError, PatternFailure};
use crate::routing;
use crate::routing::{push_dirs, push_place, RoutingError, RoutingFailure};
use crate::search;
use crate::search::PlacementError;
use crate::text;
use crate::text::{push_i64, push_usize};
use vstd::prelude::*;

verus! {

/// Why a board cannot be built, over texts.
pub enum BoardFailure {
    Pattern(PatternFailure),
    TooLarge,
    Route(RoutingFailure),
    UnknownSpec(Seq<char>),
    Missing(Seq<char>),
    MissingConnector(int, int),
    Placement(PlacementError),
    ConnectorOutside(Seq<char>),
}

/// Why a board cannot be built.
#[derive(Debug)]
#[allow(inconsistent_fields)]
pub enum BoardError {
    /// A pattern of the library cannot be read.
    Pattern { error: PatternError },
    /// The pieces, or the board, are too large for its coordinates.
    TooLarge,
    /// The nets cannot be routed.
    Route { error: RoutingError },
    /// The library has no pattern of that name.
    UnknownSpec { name: &'static str },
    /// A pattern lacks a wire at an edge.
    Missing { what: &'static str },
    /// No connector joins the two phases.
    MissingConnector { west: i8, east: i8 },
    /// The pieces cannot be placed.
    Placement { error: PlacementError },
    /// A connector stands left of all pieces, or above them.
    ConnectorOutside { name: &'static str },
}

impl View for BoardError {
    type V = BoardFailure;

    open spec fn view(&self) -> BoardFailure {
        match *self {
            BoardError::Pattern { error } => BoardFailure::Pattern(error@),
            BoardError::TooLarge => BoardFailure::TooLarge,
            BoardError::Route { error } => BoardFailure::Route(error@),
            BoardError::UnknownSpec { name } => BoardFailure::UnknownSpec(name@),
            BoardError::Missing { what } => BoardFailure::Missing(what@),
            BoardError::MissingConnector { west, east } => BoardFailure::MissingConnector(west as int, east as int),
            BoardError::Placement { error } => BoardFailure::Placement(error),
            BoardError::ConnectorOutside { name } => BoardFailure::ConnectorOutside(name@),
        }
    }
}

/// The message of a failure of the routing of a board.
pub open spec fn fabric_text(failure: RoutingFailure) -> Seq<char> {
    match failure {
        RoutingFailure::UnsupportedPort(port, kind) => "Unsupported port '"@ + port + "' on "@ + compiler::kind_text(
            kind,
        ),
        RoutingFailure::Conflict(place, net, existing, new) => "Fabric router conflict at "@ + routing::place_text(
            place,
        ) + " for net "@ + text::decimal(net) + ": existing "@ + routing::dirs_text(existing) + ", new "@
            + routing::dirs_text(new),
        _ => routing::routing_text(failure),
    }
}

/// The message of a failure.
pub open spec fn board_text(failure: BoardFailure) -> Seq<char> {
    match failure {
        BoardFailure::Pattern(failure) => published::failure_text(failure),
        BoardFailure::TooLarge => "The board is too large for its coordinates"@,
        BoardFailure::Route(failure) => fabric_text(failure),
        BoardFailure::UnknownSpec(name) => "Unknown published spec '"@ + name + "'"@,
        BoardFailure::Missing(what) => "Missing "@ + what,
        BoardFailure::MissingConnector(west, east) => "Missing connector for alignment "@ + text::signed_decimal(west)
            + " -> "@ + text::signed_decimal(east),
        BoardFailure::Placement(error) => search::placement_text(error),
        BoardFailure::ConnectorOutside(name) => "Connector '"@ + name + "' stands outside the board"@,
    }
}

/// The message of an error of the routing of a board.
fn fabric_message(error: &RoutingError) -> (message: String)
    ensures
        message@ == fabric_text(error@),
{
    match error {
        RoutingError::UnsupportedPort { port, kind } => {
            let mut out: String = "Unsupported port '".to_owned();
            out.append(port.as_str());
            out.append("' on ");
            let shown: String = kind.rendered();
            out.append(shown.as_str());
            out
        },
        RoutingError::Conflict { place, net, existing, new } => {
            let mut out: String = "Fabric router conflict at ".to_owned();
            push_place(&mut out, *place);
            out.append(" for net ");
            push_usize(&mut out, *net);
            out.append(": existing ");
            push_dirs(&mut out, *existing);
            out.append(", new ");
            push_dirs(&mut out, *new);
            out
        },
        _ => error.to_string(),
    }
}

impl BoardError {
    /// The message of the error.
    pub fn to_string(&self) -> (message: String)
        ensures
            message@ == board_text(self@),
    {
        match self {
            BoardError::Pattern { error } => error.to_string(),
            BoardError::TooLarge => "The board is too large for its coordinates".to_owned(),
            BoardError::Route { error } => fabric_message(error),
            BoardError::UnknownSpec { name } => {
                let mut out: String = "Unknown published spec '".to_owned();
                out.append(name);
                out.append("'");
                out
            },
            BoardError::Missing { what } => {
                let mut out: String = "Missing ".to_owned();
                out.append(what);
                out
            },
            BoardError::MissingConnector { west, east } => {
                let mut out: String = "Missing connector for alignment ".to_owned();
                push_i64(&mut out, *west as i64);
                out.append(" -> ");
                push_i64(&mut out, *east as i64);
                out
            },
            BoardError::Placement { error } => error.to_string(),
            BoardError::ConnectorOutside { name } => {
                let mut out: String = "Connector '".to_owned();
                out.append(name);
                out.append("' stands outside the board");
                out
            },
        }
    }
}

} // verus!
