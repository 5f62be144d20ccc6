//! Snapshot-and-query engine over the top-level windows of a desktop session:
//! filtering by predicates, multi-key sorting and selection by index.
pub mod enumerator;
pub mod errors;
pub mod layout;
pub mod models;
pub mod text;
pub mod types;
pub mod utils;

pub use enumerator::{WindowEnumerator, WindowProbe};
pub use errors::WindowError;
pub use models::WindowSorter;
pub use types::{FilterCriteria, PositionSort, Selection, SortCriteria, WindowInfo, WindowPosition};
pub use utils::{matches_criteria, parse_position_sort, parse_selection};
