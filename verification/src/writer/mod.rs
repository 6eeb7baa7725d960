//! The writer's decisions: what a tick commits, what a seal writes, when a
//! failure is waited out and when it stops the writer.
//!
//! There is one writing connection, and everything that changes an archive goes
//! through it in order. What stands here is what it decides; the thread that
//! owns the connection carries the decisions out.

/// What each request comes to.
pub mod conduct;
/// What a handle decides.
pub mod handle;
/// What a session leaves in the metadata.
pub mod journal;
/// What holds of everything a writer does.
pub mod laws;
/// What is noted of the rows that are dropped.
pub mod notices;
/// Which rows of a tick are committed.
pub mod order;
/// Handing freed pages back.
pub mod reclaim;
/// Handling requests in order.
pub mod run;
/// Sealing batches.
pub mod seal;
/// What a seal makes of its streams.
pub mod sealing;
/// Starting and resuming sources.
pub mod session;
/// Committing ticks.
pub mod tick;

pub use handle::SourceWriter;
pub use reclaim::{reclaim_if_fragmented, should_reclaim};
pub use run::{Reply, Request, Writer};
pub use tick::WriterHealth;
