//! Shortest paths in character-grid mazes: a parser from rows of cell
//! symbols to a graph of traversable cells, a uniform-cost search engine
//! proved to return true minimum costs, and a path reconstructor proved to
//! return a valid cheapest route. Small number-theory utilities (prime
//! factorization, divisor counts, gcd and Bezout coefficients, Fibonacci
//! numbers, an incremental sieve, sum formulas) live alongside, each with
//! its own contract.

pub mod divisors;
pub mod eratosthenes_sieve;
pub mod fibonacci_gen;
pub mod graph;
pub mod num_factors;
pub mod point;
pub mod prime_factors;
pub mod sums;
