//! Nova Core Engine: the verified core of a modular game engine.
//!
//! The library holds the engine's own logic: configuration and its validation,
//! the memory-size parser, the prioritised event queues, the resource registry
//! with its memory accounting, the task queue of the threading engine, the
//! plugin lifecycle, the framing of the wire protocol, and the connection and
//! tick policies of client and server.

pub mod error;
pub mod text;
pub mod ids;
pub mod events;
pub mod ieee;
pub mod memsize;
pub mod rounding;
pub mod config;
pub mod resources;
pub mod texture;
pub mod plugins;
pub mod threading;
pub mod protocol;
pub mod engine;
pub mod client;
pub mod server;
pub mod cli;

pub use config::EngineConfig;
pub use engine::EngineBuilder;
pub use error::{NovaError, NovaResult};
pub use events::{Event, EventHandler, EventPriority, EventSystem, SimpleEventHandler};
pub use memsize::parse_memory_size;
pub use plugins::{PluginManager, PluginStatus, SamplePlugin};
pub use protocol::NovaProtocol;
pub use resources::{MemoryStats, Resource, ResourceHandle, ResourceManager};
pub use texture::{TextureLoader, TextureResource};
pub use threading::{ComputeTask, IOTask, Task, TaskPriority, TaskQueue};
