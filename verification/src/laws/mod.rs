//! What holds of the library as a whole.

pub mod advance;
pub mod arrival;
pub mod children;
pub mod collection;
pub mod consolidating;
pub mod counting;
pub mod courses;
pub mod creating;
pub mod delta;
pub mod dividing;
pub mod effects;
pub mod entries;
pub mod exchange;
pub mod finding;
pub mod forest;
pub mod growth;
pub mod halves;
pub mod history;
pub mod inner;
pub mod iterating;
pub mod iteration;
pub mod keeping;
pub mod order;
pub mod outcome;
pub mod parting;
pub mod pursuit;
pub mod reading;
pub mod reconciling;
pub mod renewing;
pub mod reporting;
pub mod root;
pub mod runs;
pub mod searching;
pub mod splitting;
pub mod stepping;
pub mod store;
pub mod surface;
pub mod upkeep;
pub mod versions;
pub mod words;
pub mod writing;
