//! Replication: an archive's contents as a stream of frames, and the decisions
//! of the applier that turns them back into an archive.
//!
//! Transport is not here. A publisher yields frames and a subscriber accepts
//! them; a socket or a file is the caller's.

/// Which frames can be sent, and which bytes are taken.
pub mod bounds;
/// What holds of a publisher over call after call.
pub mod calls;
/// What is shipped, done and kept, frame by frame.
pub mod decisions;
/// What holds between a publisher and a subscriber.
pub mod exchange;
mod frame;
/// What holds over the whole of a connection.
pub mod history;
/// What the bytes of a frame are.
pub mod layout;
/// Integers as bytes.
pub mod little_endian;
/// Replication loses nothing.
pub mod lossless;
/// What holds of the codec for every frame.
pub mod laws;
/// Tailing an archive as frames.
pub mod publisher;
/// A subscriber with the archive it writes.
pub mod replica;
/// Applying frames to an archive.
pub mod subscriber;
/// Frames as bytes: the codec, its limits, and a reader over a byte stream.
pub mod wire;

pub use publisher::ArchivePublisher;
pub use replica::{Replica, Summary};
pub use subscriber::{Applied, Step, Subscriber};
pub use frame::{Frame, FrameView, IndexKind, IndexState, NO_INDEX_STATE};
