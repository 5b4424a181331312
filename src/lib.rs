//! Exploration of the parameter space of a discrete lattice automaton:
//! enumeration of parameter vectors, classification of short runs,
//! periodicity scoring and the layout of a pattern atlas.

pub mod odometer;
pub mod options;
pub mod stats;
pub mod periodicity;
pub mod atlas;
