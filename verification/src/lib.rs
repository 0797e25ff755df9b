//! Model of gravitating point masses: physical quantities with enforced
//! units, validated particle state, and a direct-summation integrator that
//! advances that state in time under mutual Newtonian gravity.
//!
//! Every numeric value is an exact rational number ([`rational::Rat`]), so
//! the quantity algebra satisfies exact algebraic laws, and the integrator's
//! only rounding (its fixed quantization grid and the floor square root) is
//! stated precisely in the contracts.

/// Exact rational arithmetic: the numeric carrier for all quantities.
pub mod rational;

/// Three-dimensional vectors over exact rationals.
pub mod vector;

/// Units, dimensions and the quantity algebra.
pub mod quantity;

/// Particles, particle sets and their energies.
pub mod particles;

/// The direct-summation gravitational integrator.
pub mod integrators;

/// Validated generator parameters and particle-set assembly.
pub mod generators;

/// Wall-clock profiling handle.
pub mod profiler;
