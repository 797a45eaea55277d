//! A pipelined client for an external syntax-highlighting engine.
//!
//! Text lines are submitted to the engine over a message-based RPC
//! protocol, per-column syntax attributes are resolved through a
//! deduplicating cache, and the lines are re-emitted as ANSI-escaped
//! terminal output in strict source order, even though the underlying
//! RPC work completes out of order.

pub mod decimal;
pub mod highlight;
pub mod nvim;
pub mod poller;
pub mod rpc;
pub mod synattr;
