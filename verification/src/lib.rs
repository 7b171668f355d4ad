//! Reconciles independently produced cell segmentations into one labeling of
//! transcripts to cells.
//!
//! Each input assigns transcripts to local cell identifiers that are not
//! comparable across inputs.  Two labelings are merged by scoring every
//! candidate cell pair with an intersection-over-union over shared
//! transcripts, keeping mutual best matches above a threshold, detecting
//! cells that are genuinely new on the right-hand side, and folding the
//! pairwise merge left to right over all inputs.  The final assignment is
//! joined onto the universe of all transcripts together with their
//! first-seen auxiliary attributes.

pub mod laws;
pub mod merger;
pub mod outer;
pub mod reduce;
pub mod resolver;
pub mod scores;
pub mod table;
pub mod universe;
