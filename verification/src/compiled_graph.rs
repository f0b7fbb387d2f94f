//! Queries on a compiled node graph: the ids of the nodes of each stateful
//! kind, the FFT feeding an inverse-FFT node, and a frame decoder's settings.

use vstd::prelude::*;

use crate::byte_plan::{id_views, same_chars, NodeKindTag};
use crate::decoder_block::DecoderBlockDef;

verus! {

/// Settings of a frame-decoder node: its block layout, the switches of its
/// extra output ports, and the legacy loopback flag.
#[derive(Debug, Clone)]
pub struct DecoderNodeConfig {
    pub blocks: Vec<DecoderBlockDef>,
    pub enable_valid: bool,
    pub enable_frame_count: bool,
    pub enable_last_timestamp: bool,
    pub enable_fps: bool,
    pub loopback: bool,
}

/// A node of a compiled graph: its id, its kind and, for a frame decoder,
/// its settings.
#[derive(Debug, Clone)]
pub struct CompiledNode {
    pub id: String,
    pub kind: NodeKindTag,
    pub decoder: Option<DecoderNodeConfig>,
}

/// An input port fed by an edge: `target`'s port `port` reads `source`'s
/// output `source_port`.
#[derive(Debug, Clone)]
pub struct InputLink {
    pub target: String,
    pub port: String,
    pub source: String,
    pub source_port: String,
}

/// The parts of a compiled graph the queries read: its nodes and the edge
/// feeding each input port.
#[derive(Debug, Clone)]
pub struct CompiledGraph {
    pub nodes: Vec<CompiledNode>,
    pub inputs: Vec<InputLink>,
}

/// Ids of the nodes of kind `kind`, in node order.
pub open spec fn ids_of_kind(nodes: Seq<CompiledNode>, kind: NodeKindTag) -> Seq<Seq<char>>
    decreases nodes.len(),
{
    if nodes.len() == 0 {
        Seq::empty()
    } else {
        let rest = ids_of_kind(nodes.drop_last(), kind);
        if nodes.last().kind == kind {
            rest.push(nodes.last().id@)
        } else {
            rest
        }
    }
}

/// Position of the first node with id `id`.
pub open spec fn first_node(nodes: Seq<CompiledNode>, id: Seq<char>) -> Option<int> {
    if exists|i: int| 0 <= i < nodes.len() && #[trigger] nodes[i].id@ == id {
        Some(
            choose|i: int|
                0 <= i < nodes.len() && #[trigger] nodes[i].id@ == id && forall|j: int|
                    0 <= j < i ==> nodes[j].id@ != id,
        )
    } else {
        None
    }
}

/// Position of the first link that feeds port `port` of node `target`.
pub open spec fn first_link(inputs: Seq<InputLink>, target: Seq<char>, port: Seq<char>) -> Option<int> {
    if exists|i: int| 0 <= i < inputs.len() && #[trigger] inputs[i].target@ == target && inputs[i].port@ == port {
        Some(
            choose|i: int|
                0 <= i < inputs.len() && #[trigger] inputs[i].target@ == target && inputs[i].port@ == port
                    && forall|j: int| 0 <= j < i ==> !(inputs[j].target@ == target && inputs[j].port@ == port),
        )
    } else {
        None
    }
}

impl CompiledGraph {
    fn ids_of(&self, kind: NodeKindTag) -> (r: Vec<String>)
        ensures
            id_views(r@) == ids_of_kind(self.nodes@, kind),
    {
        let mut out: Vec<String> = Vec::new();
        let mut i: usize = 0;
        while i < self.nodes.len()
            invariant
                i <= self.nodes@.len(),
                id_views(out@) == ids_of_kind(self.nodes@.take(i as int), kind),
            decreases self.nodes.len() - i,
        {
            assert(self.nodes@.take(i + 1).drop_last() =~= self.nodes@.take(i as int));
            if self.nodes[i].kind == kind {
                out.push(self.nodes[i].id.clone());
                assert(id_views(out@) =~= ids_of_kind(self.nodes@.take(i as int), kind).push(
                    self.nodes@[i as int].id@,
                ));
            }
            i = i + 1;
        }
        assert(self.nodes@.take(self.nodes@.len() as int) =~= self.nodes@);
        out
    }

    /// Ids of the custom (script) nodes.
    pub fn custom_node_ids(&self) -> (r: Vec<String>)
        ensures
            id_views(r@) == ids_of_kind(self.nodes@, NodeKindTag::Custom),
    {
        self.ids_of(NodeKindTag::Custom)
    }

    /// Ids of the spectrum (FFT) sinks.
    pub fn spectrum_sink_ids(&self) -> (r: Vec<String>)
        ensures
            id_views(r@) == ids_of_kind(self.nodes@, NodeKindTag::SpectrumSink),
    {
        self.ids_of(NodeKindTag::SpectrumSink)
    }

    /// Ids of the digital filter nodes.
    pub fn filter_node_ids(&self) -> (r: Vec<String>)
        ensures
            id_views(r@) == ids_of_kind(self.nodes@, NodeKindTag::Filter),
    {
        self.ids_of(NodeKindTag::Filter)
    }

    /// Ids of the inverse-FFT nodes.
    pub fn ifft_node_ids(&self) -> (r: Vec<String>)
        ensures
            id_views(r@) == ids_of_kind(self.nodes@, NodeKindTag::Ifft),
    {
        self.ids_of(NodeKindTag::Ifft)
    }

    /// Ids of the frame-decoder nodes.
    pub fn decoder_node_ids(&self) -> (r: Vec<String>)
        ensures
            id_views(r@) == ids_of_kind(self.nodes@, NodeKindTag::FrameDecoder),
    {
        self.ids_of(NodeKindTag::FrameDecoder)
    }

    /// The node whose output feeds the "spectrum" input of `node_id`
    /// (`None` when no edge feeds it).
    pub fn ifft_source(&self, node_id: &str) -> (r: Option<String>)
        ensures
            match first_link(self.inputs@, node_id@, "spectrum"@) {
                Some(i) => r matches Some(s) && s@ == self.inputs@[i].source@,
                None => r is None,
            },
    {
        let mut i: usize = 0;
        while i < self.inputs.len()
            invariant
                i <= self.inputs@.len(),
                forall|j: int| 0 <= j < i ==> !(self.inputs@[j].target@ == node_id@ && self.inputs@[j].port@ == "spectrum"@),
            decreases self.inputs.len() - i,
        {
            let l = &self.inputs[i];
            if same_chars(l.target.as_str(), node_id) && same_chars(l.port.as_str(), "spectrum") {
                proof {
                    let w = choose|w: int|
                        0 <= w < self.inputs@.len() && #[trigger] self.inputs@[w].target@ == node_id@
                            && self.inputs@[w].port@ == "spectrum"@ && forall|j: int|
                            0 <= j < w ==> !(self.inputs@[j].target@ == node_id@ && self.inputs@[j].port@ == "spectrum"@);
                    assert(w == i) by {
                        if w < i {
                        } else if w > i {
                            assert(!(self.inputs@[i as int].target@ == node_id@ && self.inputs@[i as int].port@
                                == "spectrum"@));
                        }
                    }
                }
                return Some(l.source.clone());
            }
            i = i + 1;
        }
        None
    }

    /// A frame decoder's blocks and switches (valid, frame count, last
    /// timestamp, fps, loopback); `None` for an unknown id or a node that is
    /// not a frame decoder.
    pub fn decoder_config(&self, node_id: &str) -> (r: Option<(&[DecoderBlockDef], bool, bool, bool, bool, bool)>)
        ensures
            match first_node(self.nodes@, node_id@) {
                Some(i) => {
                    let n = self.nodes@[i];
                    if n.kind == NodeKindTag::FrameDecoder && n.decoder is Some {
                        let c = n.decoder->0;
                        r matches Some((b, v, fc, ts, fps, lb)) && b@ == c.blocks@ && v == c.enable_valid
                            && fc == c.enable_frame_count && ts == c.enable_last_timestamp && fps
                            == c.enable_fps && lb == c.loopback
                    } else {
                        r is None
                    }
                },
                None => r is None,
            },
    {
        let mut i: usize = 0;
        while i < self.nodes.len()
            invariant
                i <= self.nodes@.len(),
                forall|j: int| 0 <= j < i ==> self.nodes@[j].id@ != node_id@,
            decreases self.nodes.len() - i,
        {
            let n = &self.nodes[i];
            if same_chars(n.id.as_str(), node_id) {
                proof {
                    let w = choose|w: int|
                        0 <= w < self.nodes@.len() && #[trigger] self.nodes@[w].id@ == node_id@ && forall|j: int|
                            0 <= j < w ==> self.nodes@[j].id@ != node_id@;
                    assert(w == i) by {
                        if w > i {
                            assert(self.nodes@[i as int].id@ != node_id@);
                        }
                    }
                }
                if n.kind == NodeKindTag::FrameDecoder {
                    match &n.decoder {
                        Some(c) => {
                            return Some(
                                (
                                    c.blocks.as_slice(),
                                    c.enable_valid,
                                    c.enable_frame_count,
                                    c.enable_last_timestamp,
                                    c.enable_fps,
                                    c.loopback,
                                ),
                            );
                        },
                        None => {
                            return None;
                        },
                    }
                }
                return None;
            }
            i = i + 1;
        }
        None
    }
}

} // verus!
