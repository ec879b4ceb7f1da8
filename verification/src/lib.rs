//! Verified solvers for twenty-one puzzles of a submarine journey, one
//! module for each puzzle and a few that they share.
//!
//! Every solver takes the lines of its input as characters and states in
//! its contract what it computes: the readers say which lines they
//! accept, the solvers say what their answer is in terms of the puzzle.

use vstd::prelude::*;

/// A machine of four registers, and the search for the numbers whose
/// digits a program accepts.
pub mod alu;
/// Heights of a cave floor: low points and the basins that drain to them.
pub mod basins;
/// Scanners and beacons in space: turns, shifts and the placing of the
/// scanners beside one another.
pub mod beacons;
/// Lines of brackets: which are corrupt, and what closes the others.
pub mod brackets;
/// The burrow of the amphipods with rooms of two, and the least energy
/// that brings every amphipod home.
pub mod burrow;
/// What a step of the octopuses comes to: the flashes that set one
/// another off.
pub mod cascade;
/// Caves and passages, and the number of paths through them.
pub mod caves;
/// A grid of risks and the least total risk of a way across it.
pub mod chiton;
/// The four kinds of amphipod.
pub mod color;
/// Crabs in a row and the fuel that brings them to one place.
pub mod crabs;
/// Two herds of sea cucumbers on a floor whose edges are joined.
pub mod cucumbers;
/// What the power of the matrix of the lanternfish comes to, day by day.
pub mod days;
/// The burrow of the amphipods with rooms of four.
pub mod deep_burrow;
/// The game of dice: the practice game, and the game that splits the
/// universe with every throw.
pub mod dirac;
/// The flight of the probe, step by step.
pub mod flight;
/// What the counts of a growing chain stand for: the links of the chain
/// itself.
pub mod growth;
/// The hallway of the burrow.
pub mod hallway;
/// The herds of sea cucumbers: a step loses none of them.
pub mod herds;
/// Lanternfish and their timers, counted by the power of a matrix.
pub mod lanternfish;
/// What the search of the `alu` finds: the best number whose digits a
/// program accepts.
pub mod monad;
/// A grid of octopuses that gather energy and flash.
pub mod octopus;
/// Sorting.
pub mod order;
/// A sheet of dots that is folded, and the picture that is left.
pub mod origami;
/// Packets within packets, read from bits.
pub mod packets;
/// Matching texts against patterns.
pub mod pattern;
/// A chain of elements that grows by rules, kept as counts of pairs.
pub mod polymer;
/// The launch of a probe onto a target area.
pub mod probe;
/// Boxes of cubes that are switched on and off.
pub mod reactor;
/// Reading numbers and words from a text with a cursor.
pub mod scan;
/// Displays of seven segments with their wires mixed up.
pub mod segments;
/// Why the reduction of a snailfish number comes to an end.
pub mod settle;
/// Snailfish numbers: pairs within pairs, their sums and magnitudes.
pub mod snailfish;
/// Texts as lists of characters: numbers, splitting and trimming.
pub mod text;
/// An image without end that is enhanced step by step.
pub mod trench;
/// What the game of dice comes to: the universes that each player wins.
pub mod universes;
/// Lines of vents and the points where they cross.
pub mod vents;
/// The volumes of the boxes of the reactor: what cutting a box out of
/// others leaves of them.
pub mod volumes;
/// The walks through the caves, and that the count of paths is their
/// number.
pub mod walks;
/// Why the patterns worked out for a display with crossed wires are
/// those of its digits.
pub mod wiring;

verus! {

} // verus!
