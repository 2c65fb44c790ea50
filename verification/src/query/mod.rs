pub mod access;
pub mod builder;
pub mod data;
pub mod filter;
pub mod filtered;
pub mod iter;
pub mod state;

pub use access::{matches_access, matches_filter, FilterDesc, QueryAccess};
pub use builder::QueryBuilder;
pub use data::{EntityData, FilteredEntityMutData, FilteredEntityRefData, QueryData, Read, ReadData, Write, WriteData};
pub use filter::{Allow, And, Or, QueryFilter, With, Without};
pub use filtered::{FilteredEntityMut, FilteredEntityRef};
pub use iter::{DynamicQueryIter, DynamicQueryIterMut, Query, QueryIter, QueryMut};
pub use state::QueryState;
