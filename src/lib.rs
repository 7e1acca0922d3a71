//! Layered packet analysis: decapsulation, IP defragmentation, TCP stream
//! reassembly, a flow table keyed by the 5-tuple, and per-layer event
//! dispatch to plugins.
//!
//! The analyzer does not call plugins itself. For each layer of each packet
//! it records an [`plugin::Event`] with the ordered list of plugins that must
//! see it; the caller hands events to its plugins and feeds back what they
//! return with [`analyzer::Analyzer::handle_plugin_result`].
//!
//! Choices where the behaviour is open:
//! - a packet may nest at most [`analyzer::MAX_DEPTH`] layers (tunnels
//!   included); what lies deeper is ignored;
//! - TCP data is shown to plugins only once acknowledged, in sequence order,
//!   never twice; a hole in the stream is skipped only when an ACK covers the
//!   data after it;
//! - at teardown, TCP data still queued is dropped, not delivered;
//! - malformed headers end the dispatch of a packet without an error.

pub mod analyzer;
pub mod bytes;
pub mod checksum;
pub mod error;
pub mod seq;
pub mod tuple;
pub mod flow;
pub mod ip_defrag;
pub mod layers;
pub mod plugin;
pub mod tcp_reassembly;

use vstd::prelude::*;

verus! {

/// An error reported by a plugin callback.
#[derive(Clone, Copy, Debug, PartialEq, Eq, Structural)]
pub struct Error;

} // verus!
