use vstd::prelude::*;

/// Stateless pseudo-random values derived by hashing.
pub mod random;
/// The trail field: a grid of colors, window sums and diffusion.
pub mod field;
/// Headings in turn units, and their fixed-point sine and cosine.
pub mod angle;
/// Agents: sensing, steering, movement and the edge bounce.
pub mod agent;
/// The simulation: the agent stage with its deposits, and the per-tick pipeline.
pub mod simulation;

verus! {

/// The ways a configuration can be rejected.
#[derive(Clone, Copy, Debug, PartialEq, Eq, Structural)]
pub enum SimError {
    /// A field width or height of zero.
    ZeroDimension,
    /// A field width or height above the largest supported size.
    TooLarge,
    /// A cell list whose length is not width times height.
    LengthMismatch,
    /// A cell channel above full intensity.
    ChannelOutOfRange,
    /// An agent outside the field.
    AgentOutOfBounds,
    /// A tick of zero duration.
    ZeroDeltaTime,
}

} // verus!
