//! A verified workbench for the reduction from Boolean satisfiability to the
//! question whether a Game of Life pattern has a predecessor.

pub mod text;
pub mod seqs;
pub mod bits;
pub mod cellmap;
pub mod tally;
pub mod strmap;
pub mod circuit;
pub mod clock;
pub mod compiler;
pub mod reduction;
pub mod scan;
pub mod dimacs;
pub mod paths;
pub mod settings;
pub mod grid;
pub mod solver;
pub mod encoding;
pub mod gadget_verifier;
pub mod library;
pub mod published;
pub mod relations;
pub mod routing;
pub mod lanes;
pub mod inputs;
pub mod padding;
pub mod candidates;
pub mod gadgets;
pub mod interfaces;
pub mod contracts;
pub mod certificate;
pub mod netlists;
pub mod router_basis;
pub mod extents;
pub mod matching;
pub mod corridors;
pub mod placement;
pub mod domains;
pub mod search;
pub mod repairs;
pub mod exact;
pub mod board_error;
pub mod stock;
pub mod deltas;
pub mod layout;
pub mod audit;
pub mod board;
pub mod composites;
pub mod interface_error;
pub mod wholes;
pub mod discharge;
pub mod compositions;
pub mod calibration;
pub mod life;
pub mod phases;
pub mod bearings;
pub mod edges;
pub mod turning;
pub mod truths;
pub mod gates;
pub mod orders;
pub mod meetings;
pub mod overlays;
pub mod choices;
pub mod columns;
pub mod soundness;
pub mod routes;
pub mod joints;
pub mod entrances;
pub mod surveys;
pub mod assembly;
pub mod projections;
pub mod verdicts;
pub mod completeness;
pub mod counts;
pub mod reports;
