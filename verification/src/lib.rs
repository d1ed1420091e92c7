//! A small entity-component-system runtime: generational entity ids, sparse
//! component stores with membership bitsets, composable queries, deferred
//! command buffers, a double-buffered event bus, and a staged scheduler with
//! an asset registry on the side.

pub mod accessor;
pub mod anymap;
pub mod app;
pub mod assets;
pub mod bitset;
pub mod command;
pub mod component;
pub mod daemon;
pub mod entity;
pub mod event;
pub mod handle;
pub mod keyed;
pub mod query;
pub mod resources;
pub mod schedule;
pub mod sparse;
pub mod stage;
pub mod system;
pub mod world;

pub use anymap::AnyMap;
pub use app::App;
pub use app::AppExit;
pub use app::AppStage;
pub use app::Plugin;
pub use assets::AssetEvent;
pub use assets::Assets;
pub use bitset::BitSet;
pub use command::Command;
pub use command::CommandBuffer;
pub use component::ComponentTypeId;
pub use component::Components;
pub use daemon::AssetDaemon;
pub use daemon::AssetLifecycleEvent;
pub use entity::Entity;
pub use entity::EntityAllocator;
pub use event::EventReader;
pub use event::Events;
pub use handle::Handle;
pub use handle::HandleId;
pub use handle::RefChange;
pub use query::Query;
pub use query::QueryItem;
pub use query::QueryView;
pub use resources::ResourceTypeId;
pub use resources::Resources;
pub use resources::SyncResources;
pub use schedule::Schedule;
pub use schedule::StageLabel;
pub use sparse::SparseArray;
pub use sparse::SparseSet;
pub use stage::Stage;
pub use system::System;
pub use system::SystemBuilder;
pub use world::World;
