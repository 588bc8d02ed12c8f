//! Procedural voxel-terrain generation: a prefix expression language for
//! composing noise height fields, a column synthesizer that turns a height
//! sample and a layered material profile into cell contents, and a
//! priority-driven scheduler that streams generated regions to viewers.
//!
//! Floating-point noise evaluation and worker threads live outside this
//! library; the library owns the parsing, the column algorithm, and all
//! scheduling decisions, each with a verified contract.

pub mod assoc;
pub mod column;
pub mod config;
pub mod noise_builder;
pub mod scheduler;
pub mod view;
pub mod world;

pub use column::BlockId;
pub use column::Region;
pub use column::clamp_height;
pub use column::synthesize_column;
pub use column::synthesize_region;
pub use config::BlockRegistry;
pub use config::ConfigError;
pub use config::SerializableTerrainGenConfig;
pub use config::TerrainGenConfig;
pub use noise_builder::NoiseBuilder;
pub use noise_builder::ParseError;
pub use scheduler::PendingState;
pub use scheduler::ProtocolViolation;
pub use scheduler::TerrainGenerator;
pub use scheduler::WorkerHandle;
pub use view::ChunkView;
pub use view::distance_squared;
pub use view::update_client_view;
pub use world::ChunkPos;
pub use world::WorldStore;

use vstd::prelude::*;

verus! {

} // verus!
