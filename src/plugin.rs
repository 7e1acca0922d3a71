//! Plugin registry and the events that the analyzer hands to plugins.
//!
//! Plugins are identified by their index in the caller's plugin list. The
//! analyzer does not call them: it records, for each layer of each packet,
//! an event with the ordered list of plugins that must see it.

use vstd::prelude::*;
use crate::flow::Flow;
use crate::tuple::{FiveTuple, ThreeTuple};

verus! {

pub const LAYER_PHYSICAL: u8 = 1;
pub const LAYER_LINK: u8 = 2;
pub const LAYER_NETWORK: u8 = 3;
pub const LAYER_TRANSPORT: u8 = 4;

/// A plugin's wish to see one layer, for one filter value (0: all).
#[derive(Clone, Copy, Debug, PartialEq, Eq, Structural)]
pub struct LayerEntry {
    pub layer: u8,
    pub filter: u16,
    pub plugin: usize,
}

/// The plugins registered for exactly `layer` and `filter`, in registration
/// order.
pub open spec fn matching(s: Seq<LayerEntry>, layer: u8, filter: u16) -> Seq<usize>
    decreases s.len(),
{
    if s.len() == 0 {
        Seq::empty()
    } else {
        let rest = matching(s.drop_last(), layer, filter);
        if s.last().layer == layer && s.last().filter == filter {
            rest.push(s.last().plugin)
        } else {
            rest
        }
    }
}

/// The plugins that see an event of `layer` with filter value `filter`: those
/// registered for that value, then the catch-all ones (filter 0), each list
/// once.
pub open spec fn dispatch_list(s: Seq<LayerEntry>, layer: u8, filter: u16) -> Seq<usize> {
    if filter == 0 {
        matching(s, layer, 0)
    } else {
        matching(s, layer, filter) + matching(s, layer, 0)
    }
}

pub struct PluginRegistry {
    entries: Vec<LayerEntry>,
}

impl View for PluginRegistry {
    type V = Seq<LayerEntry>;

    closed spec fn view(&self) -> Seq<LayerEntry> {
        self.entries@
    }
}

impl PluginRegistry {
    pub fn new() -> (r: PluginRegistry)
        ensures
            r@.len() == 0,
    {
        PluginRegistry { entries: Vec::new() }
    }

    /// Register `plugin` for events of `layer` whose filter value is `filter`.
    pub fn register_layer(&mut self, plugin: usize, layer: u8, filter: u16)
        ensures
            final(self)@ == old(self)@.push(LayerEntry { layer, filter, plugin }),
    {
        self.entries.push(LayerEntry { layer, filter, plugin });
    }

    /// The plugins registered for exactly `layer` and `filter`.
    pub fn get_plugins_for_layer(&self, layer: u8, filter: u16) -> (r: Vec<usize>)
        ensures
            r@ == matching(self@, layer, filter),
    {
        let mut r: Vec<usize> = Vec::new();
        let mut i: usize = 0;
        while i < self.entries.len()
            invariant
                0 <= i <= self@.len(),
                r@ == matching(self@.subrange(0, i as int), layer, filter),
            decreases self@.len() - i,
        {
            let e = self.entries[i];
            if e.layer == layer && e.filter == filter {
                r.push(e.plugin);
            }
            i = i + 1;
            assert(self@.subrange(0, i as int).drop_last() =~= self@.subrange(0, i - 1));
        }
        assert(self@.subrange(0, i as int) =~= self@);
        r
    }

    /// The plugins that see an event of `layer` with filter value `filter`.
    pub fn plugins_to_run(&self, layer: u8, filter: u16) -> (r: Vec<usize>)
        ensures
            r@ == dispatch_list(self@, layer, filter),
    {
        let mut r = self.get_plugins_for_layer(layer, filter);
        if filter != 0 {
            let mut all = self.get_plugins_for_layer(layer, 0);
            r.append(&mut all);
        }
        r
    }
}

/// What a transport-layer plugin is told about a packet.
pub struct PacketInfo {
    pub five_tuple: FiveTuple,
    /// The packet goes in the flow's canonical direction
    pub to_server: bool,
    /// Layer 3 protocol (EtherType)
    pub l3_type: u16,
    /// The layer 4 bytes, header included
    pub l4_data: Vec<u8>,
    /// Layer 4 protocol
    pub l4_type: u8,
    /// The layer 4 payload, where the protocol is known
    pub l4_payload: Option<Vec<u8>>,
    pub flow: Option<Flow>,
    pub pcap_index: usize,
}

/// One thing that plugins must be shown, in the order the analyzer met it.
pub enum Event {
    /// A link-layer frame, before any parsing
    Physical { plugins: Vec<usize>, pcap_index: usize, data: Vec<u8> },
    /// The payload of a link-layer frame
    Link { plugins: Vec<usize>, pcap_index: usize, linktype: u16, data: Vec<u8> },
    /// A network-layer packet
    Network {
        plugins: Vec<usize>,
        pcap_index: usize,
        three_tuple: ThreeTuple,
        l4_proto: u8,
        data: Vec<u8>,
    },
    /// A transport-layer packet, or reassembled TCP data
    Transport { plugins: Vec<usize>, info: PacketInfo },
    /// A flow was created
    FlowCreated(Flow),
    /// A flow ends (at teardown)
    FlowDestroyed(Flow),
    /// Analysis starts
    PreProcess,
    /// Analysis is over
    PostProcess,
}

} // verus!
