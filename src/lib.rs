//! Closed-world enumerations: a trait for finite, densely indexed types, a
//! bit-packed set and an array-backed map keyed by such types, and a
//! double-ended range over their values.
//!
//! Each module states its laws as public proof functions next to the
//! operations they relate.

pub mod entry;
pub mod enum_trait;
pub mod enumeration;
pub mod map;
pub mod optionable;
pub mod set;
pub mod wordlike;

pub use entry::{Entry, OccupiedEntry, VacantEntry};
pub use enum_trait::{Bound, Enum};
pub use enumeration::{enumerate, Enumeration};
pub use map::{EnumMap, ExtractIf, MapIter};
pub use optionable::OptionableEnum;
pub use set::{EnumSet, Iter};
pub use wordlike::Wordlike;
