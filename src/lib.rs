//! A foraging-colony simulation on a bounded integer plane: geometry,
//! decaying pheromone trails, the agents' navigation rules and the
//! per-tick update of the whole colony.

pub mod trig;
pub mod coordinate;
pub mod navigable;
pub mod scent;
pub mod ant;
mod chance;
pub mod world;
