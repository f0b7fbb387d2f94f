use vofa_next::byte_plan::{port_domain, BytePlan, ByteRoute, NodeKindTag, PortDomain};

fn route(target: &str, handle: &str) -> ByteRoute {
    ByteRoute { target: target.to_string(), target_handle: handle.to_string() }
}

#[test]
fn byte_plan_default_is_empty() {
    let plan = BytePlan::default();
    assert!(plan.order.is_empty());
    assert!(plan.routes_for("serial").is_empty());
    assert!(!plan.contains("serial"));
}

#[test]
fn byte_plan_routes_for_first_group() {
    let plan = BytePlan {
        order: vec!["serial".to_string(), "decoder".to_string(), "tx".to_string()],
        consumers: vec![
            ("serial".to_string(), vec![route("decoder", "in"), route("log", "in")]),
            ("decoder".to_string(), vec![route("tx", "tx")]),
            ("serial".to_string(), vec![route("other", "in")]),
        ],
    };
    assert_eq!(plan.routes_for("serial"), &[route("decoder", "in"), route("log", "in")][..]);
    assert_eq!(plan.routes_for("decoder"), &[route("tx", "tx")][..]);
    assert!(plan.routes_for("tx").is_empty());
    assert!(plan.contains("decoder"));
    assert!(plan.contains("tx"));
    assert!(!plan.contains("log"));
}

use vofa_next::byte_plan::{CompileError, Edge, GraphNode};

fn transport(id: &str) -> GraphNode {
    GraphNode { id: id.to_string(), transport_or_protocol: true }
}

fn protocol(id: &str) -> GraphNode {
    GraphNode { id: id.to_string(), transport_or_protocol: true }
}

fn decoder(id: &str) -> GraphNode {
    GraphNode { id: id.to_string(), transport_or_protocol: false }
}

fn edge(src: &str, src_h: &str, tgt: &str, tgt_h: &str) -> Edge {
    Edge {
        id: format!("{}-{}", src, tgt),
        source: src.to_string(),
        source_handle: src_h.to_string(),
        target: tgt.to_string(),
        target_handle: tgt_h.to_string(),
    }
}

#[test]
fn test_byte_plan_topo_order() {
    let nodes = vec![transport("tp"), protocol("pt"), decoder("dec")];
    let edges = vec![edge("tp", "rx", "pt", "in"), edge("pt", "out", "dec", "in")];
    let plan = BytePlan::build(&nodes, &edges).expect("compiles");
    let pos = |id: &str| plan.order.iter().position(|n| n == id).unwrap();
    assert!(pos("tp") < pos("pt"));
    assert!(pos("pt") < pos("dec"));

    let routes = plan.routes_for("tp");
    assert_eq!(routes.len(), 1);
    assert_eq!(routes[0].target, "pt");
    assert_eq!(routes[0].target_handle, "in");
    assert_eq!(plan.routes_for("pt").len(), 1);
    assert!(plan.routes_for("dec").is_empty());
}

#[test]
fn test_byte_plan_cycle_detected() {
    let nodes = vec![protocol("pa"), protocol("pb")];
    let edges = vec![edge("pa", "out", "pb", "in"), edge("pb", "out", "pa", "in")];
    let result = BytePlan::build(&nodes, &edges);
    assert!(matches!(result, Err(CompileError::ByteCycle)));
}

#[test]
fn test_byte_plan_includes_isolated_transport() {
    let nodes = vec![transport("tp")];
    let plan = BytePlan::build(&nodes, &[]).expect("compiles");
    assert!(plan.contains("tp"));
    assert!(plan.routes_for("tp").is_empty());
}

#[test]
fn byte_plan_build_exact_order() {
    // Roots are taken in id order; each node comes after its upstream nodes.
    let nodes = vec![decoder("z-dec"), protocol("m-pt"), transport("a-tp"), transport("b-tp")];
    let edges = vec![edge("m-pt", "out", "z-dec", "in"), edge("b-tp", "rx", "m-pt", "in")];
    let plan = BytePlan::build(&nodes, &edges).expect("compiles");
    assert_eq!(plan.order, vec!["a-tp".to_string(), "b-tp".to_string(), "m-pt".to_string(), "z-dec".to_string()]);
}

#[test]
fn byte_plan_build_skips_unknown_endpoints() {
    // An edge from a node missing from the graph adds no node and no ordering
    // constraint, but its route is still recorded.
    let nodes = vec![decoder("dec")];
    let edges = vec![edge("ghost", "out", "dec", "in")];
    let plan = BytePlan::build(&nodes, &edges).expect("compiles");
    assert_eq!(plan.order, vec!["dec".to_string()]);
    assert_eq!(plan.routes_for("ghost").len(), 1);
    assert!(!plan.contains("ghost"));
}

#[test]
fn byte_plan_build_self_loop_is_cycle() {
    let nodes = vec![protocol("p")];
    let edges = vec![edge("p", "out", "p", "in")];
    assert!(matches!(BytePlan::build(&nodes, &edges), Err(CompileError::ByteCycle)));
}

#[test]
fn byte_plan_build_groups_routes_in_edge_order() {
    let nodes = vec![transport("tp"), decoder("d1"), decoder("d2")];
    let edges = vec![edge("tp", "rx", "d1", "in"), edge("tp", "rx", "d2", "loopbackIn")];
    let plan = BytePlan::build(&nodes, &edges).expect("compiles");
    assert_eq!(plan.consumers.len(), 1);
    assert_eq!(plan.routes_for("tp"), &[route("d1", "in"), route("d2", "loopbackIn")][..]);
}

#[test]
fn byte_plan_build_upstream_visited_first() {
    let nodes = vec![decoder("a-dec"), transport("z-tp")];
    let edges = vec![edge("z-tp", "rx", "a-dec", "in")];
    let plan = BytePlan::build(&nodes, &edges).expect("compiles");
    assert_eq!(plan.order, vec!["z-tp".to_string(), "a-dec".to_string()]);
}

#[test]
fn test_port_domain_table() {
    let transport = NodeKindTag::Transport;
    assert_eq!(port_domain(transport, "rx", true), PortDomain::Bytes);
    assert_eq!(port_domain(transport, "tx", false), PortDomain::Bytes);

    let protocol = NodeKindTag::Protocol;
    assert_eq!(port_domain(protocol, "in", false), PortDomain::Bytes);
    assert_eq!(port_domain(protocol, "out", true), PortDomain::Bytes);

    let decoder = NodeKindTag::FrameDecoder;
    assert_eq!(port_domain(decoder, "in", false), PortDomain::Bytes);
    assert_eq!(port_domain(decoder, "loopbackIn", false), PortDomain::Bytes);
    assert_eq!(port_domain(decoder, "value", true), PortDomain::F32);

    let sink = NodeKindTag::Sink;
    assert_eq!(port_domain(sink, "loopbackOut", true), PortDomain::Bytes);
    assert_eq!(port_domain(sink, "value", false), PortDomain::F32);

    let source = NodeKindTag::ProtocolSource;
    assert_eq!(port_domain(source, "ch0", true), PortDomain::F32);

    let math = NodeKindTag::Math;
    assert_eq!(port_domain(math, "in0", false), PortDomain::F32);
    assert_eq!(port_domain(math, "result", true), PortDomain::F32);
}

#[test]
fn port_domain_direction_matters() {
    assert_eq!(port_domain(NodeKindTag::Transport, "rx", false), PortDomain::F32);
    assert_eq!(port_domain(NodeKindTag::Transport, "tx", true), PortDomain::F32);
    assert_eq!(port_domain(NodeKindTag::Protocol, "in", true), PortDomain::F32);
    assert_eq!(port_domain(NodeKindTag::FrameDecoder, "in", true), PortDomain::F32);
    assert_eq!(port_domain(NodeKindTag::Custom, "loopbackOut", true), PortDomain::Bytes);
    assert_eq!(port_domain(NodeKindTag::Custom, "loopbackOut", false), PortDomain::F32);
    assert_eq!(port_domain(NodeKindTag::Input, "loopbackOut", true), PortDomain::F32);
}

#[test]
fn byte_plan_order_is_depth_first_from_sorted_ids() {
    let nodes = vec![transport("z"), transport("m"), protocol("a"), transport("b"), decoder("d")];
    let edges = vec![edge("z", "rx", "a", "in"), edge("m", "rx", "a", "in"), edge("a", "out", "d", "in")];
    let plan = BytePlan::build(&nodes, &edges).expect("compiles");
    assert_eq!(plan.order, vec!["z", "m", "a", "b", "d"]);

    let unlinked = vec![transport("c"), transport("a"), transport("b")];
    let plan = BytePlan::build(&unlinked, &[]).expect("compiles");
    assert_eq!(plan.order, vec!["a", "b", "c"]);
}
