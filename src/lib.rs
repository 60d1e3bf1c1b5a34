//! Evolutionary search for short tours of the travelling salesman problem: a distance
//! model, a route genome with order crossover and position mutation, and the population
//! engine that runs the generations.
pub mod ga;
pub mod random;
pub mod tour;
pub mod tsp;
pub mod tsp_data;
