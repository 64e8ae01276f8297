//! Domain-coloring renderer core: a fixed-point model of the complex
//! plane, a pluggable complex function, an argument/magnitude color
//! encoder, a per-pixel render pipeline, and the interactive viewport
//! controller.
//!
//! Every quantity is a fixed-point `i64` with `fixed::SCALE` steps per
//! unit.  The host windowing layer converts to and from floats at the
//! edge; nothing inside the library touches one.

pub mod color;
pub mod complex;
pub mod fixed;
pub mod pipeline;
pub mod viewport;
