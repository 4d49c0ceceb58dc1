//! A single-threaded simulation kernel for 2D entities: typed entity stores
//! with slot-map identities, two broad-phase spatial indexes (a splitting
//! quadtree and a dynamic bounding-volume tree), a physics layer of bodies
//! that reports collisions when an entity moves, a queue of deferred
//! changes applied between entity updates, and event subscriptions.
//! Coordinates live on the `i32` grid.

pub mod dynamictree;
pub mod events;
pub mod id;
pub mod physics;
pub mod quadtree;
pub mod registry;
pub mod shapes;
pub mod slots;
pub mod solve;
pub mod world;

pub use id::{TypedID, ID};
pub use shapes::{point, CollisionShape, Circle, HasBounds, Point, AABB};
pub use world::World;
