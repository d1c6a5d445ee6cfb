//! Simulation core of a turn-based grid game: a spatial index, a turn
//! timeline, field-of-view computation and the per-entity turn logic.

pub mod action;
pub mod activity;
pub mod ai;
pub mod event;
pub mod grid;
pub mod id;
pub mod input;
pub mod mapping;
pub mod navigation;
pub mod relations;
pub mod spatial_map;
pub mod timeline;
pub mod turn;
pub mod visibility;
pub mod world;

pub use action::Action;
pub use activity::{Activity, ActivityType};
pub use event::Event;
pub use grid::{LineIter, Point, SpiralIter};
pub use id::{Id, IdGenerator};
pub use input::Input;
pub use navigation::Navigation;
pub use relations::{HasMany, HasOne, Is, ManyToOne};
pub use spatial_map::SpatialMap;
pub use timeline::Timeline;
pub use turn::{Controls, Player, TurnType};
pub use visibility::{FieldOfView, VisibilityCache};
pub use world::{Layer, ViewType, World};
