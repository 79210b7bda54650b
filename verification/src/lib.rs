//! Road-network core of a city traffic simulation.
//!
//! * [`traffic_control`]: the right-of-way policy of an intersection and
//!   the signal it shows at a given clock value.
//! * [`lane_pattern`], [`intersection`]: the values a network is made of.
//! * [`graph_view`]: the network as a mathematical value, with its
//!   invariant and its edits; [`graph_laws`] and [`network_build`]: what
//!   is proved of them.
//! * [`road_graph`]: the network itself. Each operation is stated by the
//!   edit of the same name on the mathematical value.
//! * [`generators`]: ready-made networks; [`parismap`]: a network read
//!   from tables, and [`scanner`], which reads the tables from text.
//! * [`synchronize`], [`movable`]: what a frame of user input does to the
//!   network and to the entity under the pointer.
//!
//! Positions are stored, never computed with: each coordinate is kept as
//! the bit pattern of a single-precision number. Lane anchors, which are
//! derived from positions, are therefore computed by the caller. The
//! network tells which intersections await them and what they are to be
//! computed from, and takes them back one per connection.

pub mod generators;
pub mod graph_laws;
pub mod graph_view;
pub mod intersection;
pub mod lane_pattern;
pub mod movable;
pub mod network_build;
pub mod parismap;
pub mod road_graph;
pub mod scanner;
pub mod synchronize;
pub mod traffic_control;
