//! Recognition of machine code in binary files: the windows a file is cut into, the
//! heuristic that assigns an architecture to each window, the consolidation of the
//! verdicts into a report, and the computations behind the plots.
pub mod detection;
pub mod hex;
pub mod names;
pub mod output;
pub mod plotting;
pub mod verdict;
pub mod window;
