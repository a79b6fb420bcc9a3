pub mod context;
pub mod event;
pub mod layer;
pub mod log;
pub mod runner;
pub mod text;

pub use context::{EventContext, LayerContext};
pub use event::Event;
pub use layer::{Layer, LayerId, LayerStack};
pub use runner::{Application, Context, Error};
