//! Decision logic of an on-demand documentation server: repository
//! coordinates, safe archive-entry planning, the build pipeline's stage
//! machine, the per-key publication gate and the publisher's worklist.
pub mod coordinate;
pub mod entry_path;
pub mod extract;
pub mod gate;
pub mod pipeline;
pub mod publish;
