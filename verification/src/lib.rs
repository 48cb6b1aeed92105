//! A server-sent-events (SSE) broadcaster.
//!
//! A [`broadcast::Broadcaster`] owns a collection of bounded per-subscriber
//! message queues. A producer publishes a payload to every live subscriber at
//! once; a periodic sweep probes each queue with a ping frame and evicts the
//! queues whose probe fails (full queue or dropped reader). Each message is
//! framed on the SSE wire format `data: <payload>\n\n` before delivery.

pub mod broadcast;
pub mod frame;
pub mod laws;
