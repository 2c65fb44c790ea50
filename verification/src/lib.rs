pub mod allocator;
pub mod archetype;
pub mod component;
pub mod entity;
pub mod error;
pub mod event;
pub mod query;
pub mod resource;
pub mod storage;
pub mod system;
pub mod system_param;
pub mod world;

pub use allocator::EntityAllocator;
pub use archetype::{Archetype, ArchetypeId};
pub use component::{RegisterComponent, RegisterEvent};
pub use entity::Entity;
pub use error::EcsError;
pub use event::{EventCursor, EventId, EventReader, EventWriter, Events};
pub use query::{
    matches_access, matches_filter, Allow, And, DynamicQueryIter, EntityData, FilterDesc,
    FilteredEntityMutData, FilteredEntityRef, FilteredEntityRefData, Or, Query, QueryAccess,
    QueryBuilder, QueryData, QueryFilter, QueryIter, QueryMut, QueryState, Read, ReadData, With,
    Without, Write, WriteData,
};
pub use resource::ResourceId;
pub use storage::{ComponentId, ComponentRegistry, TypedColumn};
pub use system::{conflicts, AccessDescriptor};
pub use system_param::{Res, ResMut};
pub use world::{EntityLocation, World};
