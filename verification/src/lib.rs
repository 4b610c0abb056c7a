//! A tree of chat events whose longest branch is the conversation.

pub mod args;
pub mod chain;
pub mod clock;
pub mod digest;
pub mod event;
pub mod format;
pub mod laws;
pub mod map;
pub mod meaning;
pub mod model;
pub mod results;
pub mod root;
pub mod serial;
pub mod shape;
pub mod text;
pub mod tree;
pub mod view;

pub use args::{Args, CONFIG_FILE};
pub use clock::{get_current_time, timestamp_of, ClockError};
pub use event::{create_message, Event, EventAction, EventId, PrivMsgEvent};
pub use map::{EventMap, EventNode};
pub use model::{EventNodePtr, Model};
pub use serial::DecodeError;
pub use view::View;
