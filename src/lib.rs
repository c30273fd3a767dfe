//! Analysis of a 16-bit game random number generator: the loops and branches of its seed
//! graph, and the weighted drop tables that consume it.

pub mod drops;
pub mod loop_analysis;
pub mod rng;

pub use drops::analysis::{analyze_correlated, analyze_uncorrelated, DropAnalysis};
pub use drops::{Drop, DropRolls, DropSet, DropSetIterator, DropTable, ExplosionDrop};
pub use loop_analysis::{Analysis, BranchInfo, IndexError, LoopInfo, SeedInfo};
pub use rng::{rng1, Rng};
