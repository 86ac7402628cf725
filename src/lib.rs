//! Aggregation structure of hierarchical and grouped time series: the
//! aggregation levels of a hierarchy specification, the tree of series built
//! from a table of bottom-level data, and the summation matrix that maps the
//! bottom series to every series.
pub mod error;
pub mod hierarchy;
pub mod hts;
pub mod order;
pub mod period;
pub mod summation_matrix;
pub mod table;

pub use error::{HtsError, Result};
pub use hierarchy::{HierarchySpec, HierarchyTree, Node};
pub use hts::{HierarchicalTimeSeries, HtsSummary};
pub use period::{Date, Period};
pub use summation_matrix::SummationMatrix;
pub use table::Table;
