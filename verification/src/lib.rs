pub mod error;
pub mod message;
pub mod mode;
pub mod reudp;

pub use error::ReUDPError;
pub use message::{Message, MessageType};
pub use mode::{Mode, PeerAddr};
pub use reudp::{Buffered, LivenessStatus, RecvOutcome, ReUDP};
