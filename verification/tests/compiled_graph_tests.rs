use vofa_next::byte_plan::NodeKindTag;
use vofa_next::compiled_graph::{CompiledGraph, CompiledNode, DecoderNodeConfig, InputLink};

fn node(id: &str, kind: NodeKindTag) -> CompiledNode {
    CompiledNode { id: id.to_string(), kind, decoder: None }
}

fn decoder(id: &str, enable_fps: bool) -> CompiledNode {
    CompiledNode {
        id: id.to_string(),
        kind: NodeKindTag::FrameDecoder,
        decoder: Some(DecoderNodeConfig {
            blocks: vec![],
            enable_valid: true,
            enable_frame_count: false,
            enable_last_timestamp: false,
            enable_fps,
            loopback: false,
        }),
    }
}

fn link(target: &str, port: &str, source: &str, source_port: &str) -> InputLink {
    InputLink {
        target: target.to_string(),
        port: port.to_string(),
        source: source.to_string(),
        source_port: source_port.to_string(),
    }
}

fn graph() -> CompiledGraph {
    CompiledGraph {
        nodes: vec![
            node("f1", NodeKindTag::Filter),
            node("s1", NodeKindTag::SpectrumSink),
            node("c1", NodeKindTag::Custom),
            node("ifft1", NodeKindTag::Ifft),
            decoder("d1", true),
            node("f2", NodeKindTag::Filter),
            node("m1", NodeKindTag::Math),
        ],
        inputs: vec![
            link("f1", "in0", "m1", "result"),
            link("ifft1", "spectrum", "s1", "spectrum"),
            link("ifft1", "spectrum", "other", "spectrum"),
        ],
    }
}

#[test]
fn compiled_graph_id_lists_by_kind() {
    let g = graph();
    assert_eq!(g.filter_node_ids(), vec!["f1", "f2"]);
    assert_eq!(g.spectrum_sink_ids(), vec!["s1"]);
    assert_eq!(g.custom_node_ids(), vec!["c1"]);
    assert_eq!(g.ifft_node_ids(), vec!["ifft1"]);
    assert_eq!(g.decoder_node_ids(), vec!["d1"]);
    let empty = CompiledGraph { nodes: vec![], inputs: vec![] };
    assert!(empty.filter_node_ids().is_empty());
}

#[test]
fn compiled_graph_ifft_source_follows_spectrum_edge() {
    let g = graph();
    assert_eq!(g.ifft_source("ifft1").as_deref(), Some("s1"));
    assert!(g.ifft_source("f1").is_none());
    assert!(g.ifft_source("nope").is_none());
}

#[test]
fn compiled_graph_decoder_config() {
    let g = graph();
    let (blocks, valid, count, ts, fps, loopback) = g.decoder_config("d1").unwrap();
    assert!(blocks.is_empty());
    assert_eq!((valid, count, ts, fps, loopback), (true, false, false, true, false));
    assert!(g.decoder_config("f1").is_none());
    assert!(g.decoder_config("missing").is_none());
}
