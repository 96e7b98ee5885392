//! Two-level boolean minimisation by the Quine–McCluskey method.
//!
//! A boolean function is given by the list of its minterms. The crate finds
//! every prime implicant of that function, and renders product terms as text.

pub mod bits;
pub mod chart;
pub mod engine;
pub mod implicant;
pub mod primes;
pub mod render;
pub mod round;
pub mod term;

pub use chart::print_chart;
pub use engine::{group_minterms, merge_groups, minimize, MinimizeError};
pub use render::{pretty_print, pretty_print_term};
pub use term::AssociatedTerm;
