//! Byte-plane routing of the node graph: which nodes carry raw bytes, in
//! which order they are processed, and where each node's bytes go.

use vstd::prelude::*;

use crate::logic::collect_chars;
use crate::topo::{dfs_order, edges_within, has_cycle, is_topological, linked, topo_sort};

verus! {

/// Port domain: both ends of an edge must agree.
#[derive(Debug, Clone, Copy, PartialEq, Eq, Structural)]
pub enum PortDomain {
    /// Numeric plane (f32 slots).
    F32,
    /// Byte plane (`Vec<u8>`, event driven).
    Bytes,
}

/// Kind of a graph node, as far as its ports' domains depend on it.
#[derive(Debug, Clone, Copy, PartialEq, Eq, Structural)]
pub enum NodeKindTag {
    Transport,
    Protocol,
    ProtocolSource,
    Input,
    Math,
    Custom,
    Filter,
    SpectrumSink,
    Ifft,
    FrameDecoder,
    Sink,
}

/// Port domain table: a transport's output "rx" and input "tx", a protocol's
/// input "in" and output "out", a frame decoder's input "in" (or the older
/// "loopbackIn") and the "loopbackOut" output of sink and custom nodes carry
/// bytes; every other port carries f32 values.
pub open spec fn port_domain_spec(kind: NodeKindTag, handle: Seq<char>, is_output: bool) -> PortDomain {
    let bytes = match kind {
        NodeKindTag::Transport => (is_output && handle == "rx"@) || (!is_output && handle == "tx"@),
        NodeKindTag::Protocol => (is_output && handle == "out"@) || (!is_output && handle == "in"@),
        NodeKindTag::FrameDecoder => !is_output && (handle == "in"@ || handle == "loopbackIn"@),
        NodeKindTag::Sink | NodeKindTag::Custom => is_output && handle == "loopbackOut"@,
        _ => false,
    };
    if bytes {
        PortDomain::Bytes
    } else {
        PortDomain::F32
    }
}

/// Whether two string slices hold the same characters.
pub(crate) fn same_chars(a: &str, b: &str) -> (r: bool)
    ensures
        r == (a@ == b@),
{
    let x: Vec<char> = collect_chars(a);
    let y: Vec<char> = collect_chars(b);
    if x.len() != y.len() {
        return false;
    }
    let mut i: usize = 0;
    while i < x.len()
        invariant
            x.len() == y.len(),
            x@ == a@,
            y@ == b@,
            i <= x.len(),
            forall|k: int| 0 <= k < i ==> x@[k] == y@[k],
        decreases x.len() - i,
    {
        if x[i] != y[i] {
            return false;
        }
        i = i + 1;
    }
    assert(x@ =~= y@);
    true
}

/// Domain of a node's port (`is_output` tells an output from an input).
pub fn port_domain(kind: NodeKindTag, handle: &str, is_output: bool) -> (r: PortDomain)
    ensures
        r == port_domain_spec(kind, handle@, is_output),
{
    let bytes = match kind {
        NodeKindTag::Transport => (is_output && same_chars(handle, "rx")) || (!is_output && same_chars(
            handle,
            "tx",
        )),
        NodeKindTag::Protocol => (is_output && same_chars(handle, "out")) || (!is_output && same_chars(
            handle,
            "in",
        )),
        NodeKindTag::FrameDecoder => !is_output && (same_chars(handle, "in") || same_chars(
            handle,
            "loopbackIn",
        )),
        NodeKindTag::Sink | NodeKindTag::Custom => is_output && same_chars(handle, "loopbackOut"),
        _ => false,
    };
    if bytes {
        PortDomain::Bytes
    } else {
        PortDomain::F32
    }
}

/// A graph node as the byte plane sees it: its id, and whether it is a
/// transport or protocol node (those belong to the byte plane by kind).
#[derive(Debug, Clone)]
pub struct GraphNode {
    pub id: String,
    pub transport_or_protocol: bool,
}

/// An edge of the node graph, from a source handle to a target handle.
#[derive(Debug, Clone)]
pub struct Edge {
    pub id: String,
    pub source: String,
    pub source_handle: String,
    pub target: String,
    pub target_handle: String,
}

/// Why a graph cannot be compiled.
#[derive(Debug, Clone, Copy, PartialEq, Eq, Structural)]
pub enum CompileError {
    /// The byte edges form a cycle.
    ByteCycle,
}

/// Downstream end of a byte edge.
#[derive(Debug, Clone, PartialEq, Eq)]
pub struct ByteRoute {
    /// Downstream node id.
    pub target: String,
    /// Byte input handle of the downstream node ("in", "loopbackIn", "tx", ...).
    pub target_handle: String,
}

/// Byte-plane processing plan.
#[derive(Debug, Clone)]
pub struct BytePlan {
    /// Byte-plane nodes in processing order (upstream first).
    pub order: Vec<String>,
    /// Routes of each byte source node, grouped by source.
    pub consumers: Vec<(String, Vec<ByteRoute>)>,
}

impl Default for BytePlan {
    /// No byte-plane nodes and no routes.
    fn default() -> (r: Self)
        ensures
            r.order@.len() == 0,
            r.consumers@.len() == 0,
    {
        BytePlan { order: Vec::new(), consumers: Vec::new() }
    }
}

impl BytePlan {
    /// Index of the first consumer group of `source`.
    pub open spec fn group_of(&self, source: Seq<char>) -> Option<int> {
        if exists|i: int| 0 <= i < self.consumers@.len() && #[trigger] self.consumers@[i].0@ == source {
            Some(
                choose|i: int|
                    0 <= i < self.consumers@.len() && #[trigger] self.consumers@[i].0@ == source
                        && forall|j: int| 0 <= j < i ==> self.consumers@[j].0@ != source,
            )
        } else {
            None
        }
    }

    /// Routes of byte source `source` (empty when it has none).
    pub fn routes_for(&self, source: &str) -> (r: &[ByteRoute])
        ensures
            match self.group_of(source@) {
                Some(i) => r@ == self.consumers@[i].1@,
                None => r@.len() == 0,
            },
    {
        let key = source.to_owned();
        let mut i: usize = 0;
        while i < self.consumers.len()
            invariant
                i <= self.consumers@.len(),
                key@ == source@,
                forall|j: int| 0 <= j < i ==> self.consumers@[j].0@ != source@,
            decreases self.consumers.len() - i,
        {
            if self.consumers[i].0 == key {
                assert(self.consumers@[i as int].0@ == source@);
                let ghost w = choose|w: int|
                    0 <= w < self.consumers@.len() && #[trigger] self.consumers@[w].0@ == source@
                        && forall|j: int| 0 <= j < w ==> self.consumers@[j].0@ != source@;
                assert(w == i) by {
                    if w < i {
                        assert(self.consumers@[w].0@ != source@);
                    }
                    if w > i {
                        assert(self.consumers@[i as int].0@ != source@);
                    }
                }
                return self.consumers[i].1.as_slice();
            }
            i = i + 1;
        }
        &[]
    }

    /// Whether `node_id` belongs to the byte plane.
    pub fn contains(&self, node_id: &str) -> (r: bool)
        ensures
            r == exists|i: int| 0 <= i < self.order@.len() && #[trigger] self.order@[i]@ == node_id@,
    {
        let key = node_id.to_owned();
        let mut i: usize = 0;
        while i < self.order.len()
            invariant
                i <= self.order@.len(),
                key@ == node_id@,
                forall|j: int| 0 <= j < i ==> self.order@[j]@ != node_id@,
            decreases self.order.len() - i,
        {
            if self.order[i] == key {
                assert(self.order@[i as int]@ == node_id@);
                return true;
            }
            i = i + 1;
        }
        false
    }
}


/// Some node has id `s`.
pub open spec fn node_listed(nodes: Seq<GraphNode>, s: Seq<char>) -> bool {
    exists|i: int| 0 <= i < nodes.len() && #[trigger] nodes[i].id@ == s
}

/// Some transport or protocol node has id `s`.
pub open spec fn byte_kind_listed(nodes: Seq<GraphNode>, s: Seq<char>) -> bool {
    exists|i: int| 0 <= i < nodes.len() && #[trigger] nodes[i].id@ == s && nodes[i].transport_or_protocol
}

/// Some edge starts or ends at `s`.
pub open spec fn edge_touches(edges: Seq<Edge>, s: Seq<char>) -> bool {
    exists|k: int| #![trigger edges[k]] 0 <= k < edges.len() && (edges[k].source@ == s || edges[k].target@ == s)
}

/// The byte plane: transport and protocol nodes, and the nodes that a byte
/// edge touches.
pub open spec fn in_byte_plane(nodes: Seq<GraphNode>, edges: Seq<Edge>, s: Seq<char>) -> bool {
    node_listed(nodes, s) && (byte_kind_listed(nodes, s) || edge_touches(edges, s))
}

/// Some edge runs from `u` to `v`.
pub open spec fn edge_between(edges: Seq<Edge>, u: Seq<char>, v: Seq<char>) -> bool {
    exists|k: int| #![trigger edges[k]] 0 <= k < edges.len() && edges[k].source@ == u && edges[k].target@ == v
}

/// A byte edge runs from node `u` to node `v` (both in the graph).
pub open spec fn byte_link(nodes: Seq<GraphNode>, edges: Seq<Edge>, u: Seq<char>, v: Seq<char>) -> bool {
    &&& node_listed(nodes, u)
    &&& node_listed(nodes, v)
    &&& edge_between(edges, u, v)
}

/// `w` follows byte edges for at least one step and ends where it starts.
pub open spec fn is_byte_cycle(nodes: Seq<GraphNode>, edges: Seq<Edge>, w: Seq<Seq<char>>) -> bool {
    &&& w.len() >= 2
    &&& w[0] == w[w.len() - 1]
    &&& forall|i: int, j: int|
        0 <= i && j == i + 1 && j < w.len() ==> #[trigger] byte_link(nodes, edges, w[i], w[j])
}

/// The byte edges between graph nodes form a cycle.
pub open spec fn has_byte_cycle(nodes: Seq<GraphNode>, edges: Seq<Edge>) -> bool {
    exists|w: Seq<Seq<char>>| #[trigger] is_byte_cycle(nodes, edges, w)
}

/// Some element of `v` is `s`.
pub open spec fn ids_contain(v: Seq<String>, s: Seq<char>) -> bool {
    exists|p: int| 0 <= p < v.len() && #[trigger] v[p]@ == s
}

/// `order` lists each byte-plane node once, every byte edge pointing forward.
pub open spec fn is_byte_order(nodes: Seq<GraphNode>, edges: Seq<Edge>, order: Seq<String>) -> bool {
    &&& forall|p: int, q: int| 0 <= p < q < order.len() ==> order[p]@ != order[q]@
    &&& forall|s: Seq<char>|
        #![trigger in_byte_plane(nodes, edges, s)]
        #![trigger ids_contain(order, s)]
        in_byte_plane(nodes, edges, s) <==> ids_contain(order, s)
    &&& forall|p: int, q: int|
        0 <= p < order.len() && 0 <= q < order.len() && #[trigger] byte_link(
            nodes,
            edges,
            order[p]@,
            order[q]@,
        ) ==> p < q
}

/// Where an edge delivers its bytes.
pub open spec fn route_of(e: Edge) -> ByteRoute {
    ByteRoute { target: e.target, target_handle: e.target_handle }
}

/// Routes of the edges out of `s`, in edge order.
pub open spec fn routes_from(edges: Seq<Edge>, s: Seq<char>) -> Seq<ByteRoute>
    decreases edges.len(),
{
    if edges.len() == 0 {
        Seq::empty()
    } else if edges.last().source@ == s {
        routes_from(edges.drop_last(), s).push(route_of(edges.last()))
    } else {
        routes_from(edges.drop_last(), s)
    }
}

/// Some group is keyed by `s`.
pub open spec fn source_grouped(consumers: Seq<(String, Vec<ByteRoute>)>, s: Seq<char>) -> bool {
    exists|i: int| 0 <= i < consumers.len() && #[trigger] consumers[i].0@ == s
}

/// One group per edge source, holding that source's routes in edge order.
pub open spec fn groups_by_source(consumers: Seq<(String, Vec<ByteRoute>)>, edges: Seq<Edge>) -> bool {
    &&& forall|i: int, j: int| 0 <= i < j < consumers.len() ==> consumers[i].0@ != consumers[j].0@
    &&& forall|i: int|
        0 <= i < consumers.len() ==> #[trigger] consumers[i].1@ == routes_from(edges, consumers[i].0@)
            && routes_from(edges, consumers[i].0@).len() > 0
    &&& forall|k: int| 0 <= k < edges.len() ==> #[trigger] source_grouped(consumers, edges[k].source@)
}

/// Byte-wise lexicographic order, the order of `str`.
pub open spec fn bytes_lt(a: Seq<u8>, b: Seq<u8>) -> bool
    decreases a.len(),
{
    if a.len() == 0 {
        b.len() > 0
    } else if b.len() == 0 {
        false
    } else if a[0] != b[0] {
        a[0] < b[0]
    } else {
        bytes_lt(a.skip(1), b.skip(1))
    }
}

/// Order of two ids: by their UTF-8 bytes.
pub open spec fn id_lt(a: Seq<char>, b: Seq<char>) -> bool {
    bytes_lt(vstd::utf8::encode_utf8(a), vstd::utf8::encode_utf8(b))
}

proof fn lemma_bytes_lt_trans(a: Seq<u8>, b: Seq<u8>, c: Seq<u8>)
    requires
        bytes_lt(a, b),
        bytes_lt(b, c),
    ensures
        bytes_lt(a, c),
    decreases a.len(),
{
    if a.len() > 0 && a[0] == b[0] && b[0] == c[0] {
        lemma_bytes_lt_trans(a.skip(1), b.skip(1), c.skip(1));
    }
}

proof fn lemma_bytes_lt_irrefl(a: Seq<u8>)
    ensures
        !bytes_lt(a, a),
    decreases a.len(),
{
    if a.len() > 0 {
        lemma_bytes_lt_irrefl(a.skip(1));
    }
}

proof fn lemma_bytes_lt_skip(a: Seq<u8>, b: Seq<u8>, i: int)
    requires
        0 <= i <= a.len(),
        i <= b.len(),
        forall|j: int| 0 <= j < i ==> a[j] == b[j],
    ensures
        bytes_lt(a, b) == bytes_lt(a.skip(i), b.skip(i)),
    decreases i,
{
    if i == 0 {
        assert(a.skip(0) =~= a);
        assert(b.skip(0) =~= b);
    } else {
        assert(a[0] == b[0]);
        lemma_bytes_lt_skip(a.skip(1), b.skip(1), i - 1);
        assert(a.skip(1).skip(i - 1) =~= a.skip(i));
        assert(b.skip(1).skip(i - 1) =~= b.skip(i));
    }
}

proof fn lemma_bytes_lt_total(a: Seq<u8>, b: Seq<u8>)
    requires
        a != b,
    ensures
        bytes_lt(a, b) || bytes_lt(b, a),
    decreases a.len(),
{
    if a.len() > 0 && b.len() > 0 && a[0] == b[0] {
        if a.skip(1) == b.skip(1) {
            assert(a =~= seq![a[0]] + a.skip(1));
            assert(b =~= seq![b[0]] + b.skip(1));
        }
        lemma_bytes_lt_total(a.skip(1), b.skip(1));
    } else if a.len() == 0 && b.len() == 0 {
        assert(a =~= b);
    }
}

/// Byte order of ids is a strict total order.
proof fn lemma_id_lt_order(a: Seq<char>, b: Seq<char>, c: Seq<char>)
    ensures
        !id_lt(a, a),
        id_lt(a, b) && id_lt(b, c) ==> id_lt(a, c),
        a != b ==> id_lt(a, b) || id_lt(b, a),
{
    let ea = vstd::utf8::encode_utf8(a);
    let eb = vstd::utf8::encode_utf8(b);
    lemma_bytes_lt_irrefl(ea);
    if id_lt(a, b) && id_lt(b, c) {
        lemma_bytes_lt_trans(ea, eb, vstd::utf8::encode_utf8(c));
    }
    if a != b {
        vstd::utf8::encode_utf8_decode_utf8(a);
        vstd::utf8::encode_utf8_decode_utf8(b);
        lemma_bytes_lt_total(ea, eb);
    }
}

/// Char views of a list of ids.
pub open spec fn id_views(v: Seq<String>) -> Seq<Seq<char>> {
    v.map_values(|s: String| s@)
}

/// Strictly ascending in byte order (so no id occurs twice).
pub open spec fn ascending(s: Seq<Seq<char>>) -> bool {
    forall|p: int, q: int| #![trigger s[p], s[q]] 0 <= p < q < s.len() ==> id_lt(s[p], s[q])
}

/// The byte-plane node ids, in ascending byte order.
pub open spec fn byte_ids(nodes: Seq<GraphNode>, edges: Seq<Edge>) -> Seq<Seq<char>> {
    choose|s: Seq<Seq<char>>|
        ascending(s) && forall|x: Seq<char>| #[trigger] s.contains(x) <==> in_byte_plane(nodes, edges, x)
}

/// Position of `x` in `ids`.
pub open spec fn id_pos(ids: Seq<Seq<char>>, x: Seq<char>) -> int {
    choose|i: int| 0 <= i < ids.len() && ids[i] == x
}

/// The edges whose ends are both listed in `ids`, as index pairs, in edge order.
pub open spec fn index_pairs(ids: Seq<Seq<char>>, edges: Seq<Edge>) -> Seq<(usize, usize)>
    decreases edges.len(),
{
    if edges.len() == 0 {
        Seq::empty()
    } else {
        let rest = index_pairs(ids, edges.drop_last());
        let e = edges.last();
        if ids.contains(e.source@) && ids.contains(e.target@) {
            rest.push((id_pos(ids, e.source@) as usize, id_pos(ids, e.target@) as usize))
        } else {
            rest
        }
    }
}

/// The byte plane's processing order: a depth-first search over the byte
/// edges that starts from each byte-plane id in ascending byte order, visits
/// the sources of the edges into a node in edge order, and lists a node once
/// every such source is listed.
pub open spec fn plane_order(nodes: Seq<GraphNode>, edges: Seq<Edge>) -> Seq<Seq<char>> {
    let ids = byte_ids(nodes, edges);
    dfs_order(index_pairs(ids, edges), ids.len()).map_values(|i: usize| ids[i as int])
}

/// Two ascending lists with the same elements are the same list.
proof fn lemma_ascending_unique(s: Seq<Seq<char>>, t: Seq<Seq<char>>)
    requires
        ascending(s),
        ascending(t),
        forall|x: Seq<char>| #[trigger] s.contains(x) <==> t.contains(x),
    ensures
        s == t,
    decreases s.len(),
{
    if s.len() == 0 {
        if t.len() > 0 {
            assert(t.contains(t[0]));
            assert(s.contains(t[0]));
        }
        assert(s =~= t);
    } else {
        assert(s.contains(s[0]));
        assert(t.contains(s[0]));
        assert(t.len() > 0);
        assert(t.contains(t[0]));
        assert(s.contains(t[0]));
        let j = choose|j: int| 0 <= j < t.len() && t[j] == s[0];
        let i = choose|i: int| 0 <= i < s.len() && s[i] == t[0];
        if s[0] != t[0] {
            assert(i > 0 && j > 0);
            assert(id_lt(s[0], s[i]));
            assert(id_lt(t[0], t[j]));
            lemma_id_lt_order(s[0], t[0], s[0]);
        }
        let s1 = s.skip(1);
        let t1 = t.skip(1);
        assert forall|x: Seq<char>| #[trigger] s1.contains(x) implies t1.contains(x) by {
            let p = choose|p: int| 0 <= p < s1.len() && s1[p] == x;
            assert(s[p + 1] == x);
            assert(s.contains(x));
            assert(t.contains(x));
            let q = choose|q: int| 0 <= q < t.len() && t[q] == x;
            if q == 0 {
                assert(id_lt(s[0], s[p + 1]));
                lemma_id_lt_order(x, x, x);
            }
            assert(t1[q - 1] == x);
        }
        assert forall|x: Seq<char>| #[trigger] t1.contains(x) implies s1.contains(x) by {
            let p = choose|p: int| 0 <= p < t1.len() && t1[p] == x;
            assert(t[p + 1] == x);
            assert(t.contains(x));
            assert(s.contains(x));
            let q = choose|q: int| 0 <= q < s.len() && s[q] == x;
            if q == 0 {
                assert(id_lt(t[0], t[p + 1]));
                lemma_id_lt_order(x, x, x);
            }
            assert(s1[q - 1] == x);
        }
        assert(ascending(s1)) by {
            assert forall|p: int, q: int| #![trigger s1[p], s1[q]] 0 <= p < q < s1.len() implies id_lt(s1[p], s1[q]) by {
                assert(s1[p] == s[p + 1] && s1[q] == s[q + 1]);
            }
        }
        assert(ascending(t1)) by {
            assert forall|p: int, q: int| #![trigger t1[p], t1[q]] 0 <= p < q < t1.len() implies id_lt(t1[p], t1[q]) by {
                assert(t1[p] == t[p + 1] && t1[q] == t[q + 1]);
            }
        }
        lemma_ascending_unique(s1, t1);
        assert(s =~= seq![s[0]] + s1);
        assert(t =~= seq![t[0]] + t1);
    }
}

/// In a list without repeats, the position of a listed id is where it stands.
proof fn lemma_id_pos(ids: Seq<Seq<char>>, i: int)
    requires
        forall|p: int, q: int| 0 <= p < q < ids.len() ==> ids[p] != ids[q],
        0 <= i < ids.len(),
    ensures
        id_pos(ids, ids[i]) == i,
{
    let j = id_pos(ids, ids[i]);
    assert(0 <= j < ids.len() && ids[j] == ids[i]);
}

/// Whether id `a` sorts before id `b`.
fn id_less(a: &String, b: &String) -> (r: bool)
    ensures
        r == id_lt(a@, b@),
{
    let sa = a.as_str();
    let sb = b.as_str();
    let x = sa.as_bytes();
    let y = sb.as_bytes();
    assert(x@ == vstd::utf8::encode_utf8(a@));
    assert(y@ == vstd::utf8::encode_utf8(b@));
    let mut i: usize = 0;
    while i < x.len() && i < y.len()
        invariant
            i <= x@.len(),
            i <= y@.len(),
            forall|j: int| 0 <= j < i ==> x@[j] == y@[j],
            x@ == vstd::utf8::encode_utf8(a@),
            y@ == vstd::utf8::encode_utf8(b@),
        decreases x.len() - i,
    {
        if x[i] != y[i] {
            proof {
                lemma_bytes_lt_skip(x@, y@, i as int);
                let xs = x@.skip(i as int);
                let ys = y@.skip(i as int);
                assert(xs[0] == x@[i as int]);
                assert(ys[0] == y@[i as int]);
                assert(xs.len() > 0 && ys.len() > 0);
                assert(bytes_lt(xs, ys) == (xs[0] < ys[0]));
            }
            return x[i] < y[i];
        }
        i = i + 1;
    }
    proof {
        lemma_bytes_lt_skip(x@, y@, i as int);
    }
    x.len() < y.len()
}

/// Whether `v` holds an id equal to `s`.
fn index_of_id(v: &Vec<String>, s: &String) -> (r: Option<usize>)
    ensures
        match r {
            Some(i) => i < v@.len() && v@[i as int]@ == s@,
            None => forall|i: int| 0 <= i < v@.len() ==> v@[i]@ != s@,
        },
{
    let mut i: usize = 0;
    while i < v.len()
        invariant
            i <= v@.len(),
            forall|j: int| 0 <= j < i ==> v@[j]@ != s@,
        decreases v.len() - i,
    {
        if v[i] == *s {
            return Some(i);
        }
        i = i + 1;
    }
    None
}

/// Whether some node has id `s`.
fn has_node(nodes: &[GraphNode], s: &String) -> (r: bool)
    ensures
        r == node_listed(nodes@, s@),
{
    let mut i: usize = 0;
    while i < nodes.len()
        invariant
            i <= nodes@.len(),
            forall|j: int| 0 <= j < i ==> nodes@[j].id@ != s@,
        decreases nodes.len() - i,
    {
        if nodes[i].id == *s {
            return true;
        }
        i = i + 1;
    }
    false
}

/// Ids sorted by their bytes (distinct ids stay distinct).
fn sort_ids(v: Vec<String>) -> (r: Vec<String>)
    requires
        forall|p: int, q: int| 0 <= p < q < v@.len() ==> v@[p]@ != v@[q]@,
    ensures
        r@.len() == v@.len(),
        forall|p: int, q: int| 0 <= p < q < r@.len() ==> r@[p]@ != r@[q]@,
        forall|s: Seq<char>|
            #![trigger ids_contain(r@, s)]
            #![trigger ids_contain(v@, s)]
            ids_contain(r@, s) <==> ids_contain(v@, s),
        forall|p: int, q: int| 0 <= p < q < r@.len() ==> !id_lt(r@[q]@, r@[p]@),
{
    let mut out: Vec<String> = Vec::new();
    let mut k: usize = 0;
    proof {
        assert forall|s: Seq<char>| #![trigger ids_contain(out@, s)] #![trigger ids_contain(v@.take(0), s)]
            ids_contain(out@, s) <==> ids_contain(v@.take(0), s) by {
        }
    }
    while k < v.len()
        invariant
            k <= v@.len(),
            out@.len() == k,
            forall|p: int, q: int| 0 <= p < q < v@.len() ==> v@[p]@ != v@[q]@,
            forall|p: int, q: int| 0 <= p < q < out@.len() ==> out@[p]@ != out@[q]@,
            forall|s: Seq<char>|
                #![trigger ids_contain(out@, s)]
                #![trigger ids_contain(v@.take(k as int), s)]
                ids_contain(out@, s) <==> ids_contain(v@.take(k as int), s),
            forall|p: int, q: int| 0 <= p < q < out@.len() ==> !id_lt(out@[q]@, out@[p]@),
        decreases v.len() - k,
    {
        let x = v[k].clone();
        let mut j: usize = 0;
        while j < out.len() && !id_less(&x, &out[j])
            invariant
                j <= out@.len(),
                forall|m: int| 0 <= m < j ==> !id_lt(x@, out@[m]@),
            decreases out.len() - j,
        {
            j = j + 1;
        }
        let ghost o = out@;
        let ghost vk = v@.take(k as int);
        proof {
            assert forall|p: int| 0 <= p < o.len() implies o[p]@ != x@ by {
                let s = o[p]@;
                assert(ids_contain(o, s));
                assert(ids_contain(vk, s));
                let p2 = choose|p2: int| 0 <= p2 < vk.len() && #[trigger] vk[p2]@ == s;
                assert(vk[p2] == v@[p2]);
                assert(v@[k as int]@ == x@);
            }
        }
        out.insert(j, x);
        proof {
            let vk1 = v@.take(k + 1);
            assert(out@ =~= o.insert(j as int, x));
            assert forall|p: int, q: int| 0 <= p < q < out@.len() implies out@[p]@ != out@[q]@ by {
                if p < j && q < j {
                    assert(out@[p] == o[p] && out@[q] == o[q]);
                } else if p < j && q == j {
                    assert(out@[p] == o[p]);
                } else if p < j {
                    assert(out@[p] == o[p] && out@[q] == o[q - 1]);
                } else if p == j {
                    assert(out@[q] == o[q - 1]);
                } else {
                    assert(out@[p] == o[p - 1] && out@[q] == o[q - 1]);
                }
            }
            assert forall|s: Seq<char>| #![trigger ids_contain(out@, s)] #![trigger ids_contain(vk1, s)]
                ids_contain(out@, s) <==> ids_contain(vk1, s) by {
                if ids_contain(out@, s) {
                    let p = choose|p: int| 0 <= p < out@.len() && #[trigger] out@[p]@ == s;
                    if p < j {
                        assert(out@[p] == o[p]);
                        assert(ids_contain(o, s));
                        let p2 = choose|p2: int| 0 <= p2 < vk.len() && #[trigger] vk[p2]@ == s;
                        assert(vk1[p2] == vk[p2]);
                    } else if p == j {
                        assert(vk1[k as int]@ == s);
                    } else {
                        assert(out@[p] == o[p - 1]);
                        assert(ids_contain(o, s));
                        let p2 = choose|p2: int| 0 <= p2 < vk.len() && #[trigger] vk[p2]@ == s;
                        assert(vk1[p2] == vk[p2]);
                    }
                }
                if ids_contain(vk1, s) {
                    let p = choose|p: int| 0 <= p < vk1.len() && #[trigger] vk1[p]@ == s;
                    if p == k {
                        assert(out@[j as int]@ == s);
                    } else {
                        assert(vk[p] == vk1[p]);
                        assert(ids_contain(vk, s));
                        assert(ids_contain(o, s));
                        let p2 = choose|p2: int| 0 <= p2 < o.len() && #[trigger] o[p2]@ == s;
                        if p2 < j {
                            assert(out@[p2] == o[p2]);
                        } else {
                            assert(out@[p2 + 1] == o[p2]);
                        }
                    }
                }
            }
            assert forall|p: int, q: int| 0 <= p < q < out@.len() implies !id_lt(out@[q]@, out@[p]@) by {
                if p < j && q < j {
                    assert(out@[p] == o[p] && out@[q] == o[q]);
                } else if p < j && q == j {
                    assert(out@[p] == o[p]);
                } else if p < j {
                    assert(out@[p] == o[p] && out@[q] == o[q - 1]);
                } else if p == j {
                    assert(out@[q] == o[q - 1]);
                    let eq = vstd::utf8::encode_utf8(o[q - 1]@);
                    let ex = vstd::utf8::encode_utf8(x@);
                    let ej = vstd::utf8::encode_utf8(o[j as int]@);
                    if bytes_lt(eq, ex) {
                        assert(bytes_lt(ex, ej));
                        lemma_bytes_lt_trans(eq, ex, ej);
                        if q - 1 == j {
                            lemma_bytes_lt_irrefl(ej);
                        } else {
                            assert(!id_lt(o[q - 1]@, o[j as int]@));
                        }
                    }
                } else {
                    assert(out@[p] == o[p - 1] && out@[q] == o[q - 1]);
                }
            }
        }
        k = k + 1;
    }
    assert(v@.take(v@.len() as int) =~= v@);
    out
}


proof fn lemma_routes_from_source(edges: Seq<Edge>, s: Seq<char>)
    ensures
        routes_from(edges, s).len() > 0 ==> exists|k: int|
            0 <= k < edges.len() && #[trigger] edges[k].source@ == s,
    decreases edges.len(),
{
    if edges.len() > 0 {
        lemma_routes_from_source(edges.drop_last(), s);
        if routes_from(edges.drop_last(), s).len() > 0 && edges.last().source@ != s {
            let k = choose|k: int| 0 <= k < edges.drop_last().len() && #[trigger] edges.drop_last()[k].source@ == s;
            assert(edges[k] == edges.drop_last()[k]);
        }
        if edges.last().source@ == s {
            assert(edges[edges.len() - 1].source@ == s);
        }
    }
}

/// Index of the group keyed by `s`.
fn group_index(groups: &Vec<(String, Vec<ByteRoute>)>, s: &String) -> (r: Option<usize>)
    ensures
        match r {
            Some(i) => i < groups@.len() && groups@[i as int].0@ == s@,
            None => forall|j: int| 0 <= j < groups@.len() ==> groups@[j].0@ != s@,
        },
{
    let mut i: usize = 0;
    while i < groups.len()
        invariant
            i <= groups@.len(),
            forall|j: int| 0 <= j < i ==> groups@[j].0@ != s@,
        decreases groups.len() - i,
    {
        if groups[i].0 == *s {
            return Some(i);
        }
        i = i + 1;
    }
    None
}

/// Groups the routes of the edges by source, in order of first appearance.
fn group_routes(edges: &[Edge]) -> (r: Vec<(String, Vec<ByteRoute>)>)
    ensures
        groups_by_source(r@, edges@),
{
    let mut groups: Vec<(String, Vec<ByteRoute>)> = Vec::new();
    let mut k: usize = 0;
    while k < edges.len()
        invariant
            k <= edges@.len(),
            groups_by_source(groups@, edges@.take(k as int)),
        decreases edges.len() - k,
    {
        let e = &edges[k];
        let route = ByteRoute { target: e.target.clone(), target_handle: e.target_handle.clone() };
        let ghost g0 = groups@;
        let ghost es = edges@.take(k as int);
        let ghost es1 = edges@.take(k + 1);
        proof {
            assert(es1.drop_last() =~= es);
            assert(es1.last() == edges@[k as int]);
            assert(route == route_of(edges@[k as int]));
            assert forall|t: Seq<char>| #[trigger] routes_from(es1, t) == if edges@[k as int].source@ == t {
                routes_from(es, t).push(route)
            } else {
                routes_from(es, t)
            } by {
            }
        }
        let found = group_index(&groups, &e.source);
        match found {
            Some(i) => {
                let (key, mut routes) = groups.remove(i);
                routes.push(route);
                groups.insert(i, (key, routes));
                proof {
                    assert(groups@ =~= g0.update(i as int, (key, routes)));
                    assert(key@ == edges@[k as int].source@);
                    assert forall|a: int| 0 <= a < groups@.len() implies #[trigger] groups@[a].1@ == routes_from(es1, groups@[a].0@)
                        && routes_from(es1, groups@[a].0@).len() > 0 by {
                        if a != i {
                            assert(groups@[a] == g0[a]);
                            assert(g0[a].0@ != g0[i as int].0@);
                        }
                    }
                    assert forall|k2: int| 0 <= k2 < es1.len() implies #[trigger] source_grouped(groups@, es1[k2].source@) by {
                        if k2 < k {
                            assert(es1[k2] == es[k2]);
                            assert(source_grouped(g0, es[k2].source@));
                            let a = choose|a: int| 0 <= a < g0.len() && #[trigger] g0[a].0@ == es[k2].source@;
                            assert(groups@[a].0@ == g0[a].0@);
                        } else {
                            assert(groups@[i as int].0@ == es1[k2].source@);
                        }
                    }
                }
            },
            None => {
                proof {
                    lemma_routes_from_source(es, e.source@);
                    if routes_from(es, e.source@).len() > 0 {
                        let k2 = choose|k2: int| 0 <= k2 < es.len() && #[trigger] es[k2].source@ == e.source@;
                        assert(source_grouped(g0, es[k2].source@));
                        let a = choose|a: int| 0 <= a < g0.len() && #[trigger] g0[a].0@ == es[k2].source@;
                        assert(g0[a].0@ != e.source@);
                    }
                    assert(routes_from(es, e.source@) =~= Seq::<ByteRoute>::empty());
                }
                let mut routes: Vec<ByteRoute> = Vec::new();
                routes.push(route);
                groups.push((e.source.clone(), routes));
                proof {
                    let n0 = g0.len() as int;
                    assert forall|a: int| 0 <= a < groups@.len() implies #[trigger] groups@[a].1@ == routes_from(es1, groups@[a].0@)
                        && routes_from(es1, groups@[a].0@).len() > 0 by {
                        if a < n0 {
                            assert(groups@[a] == g0[a]);
                        } else {
                            assert(routes@ =~= seq![route]);
                            assert(routes_from(es1, e.source@) =~= seq![route]);
                        }
                    }
                    assert forall|a: int, b: int| 0 <= a < b < groups@.len() implies groups@[a].0@ != groups@[b].0@ by {
                        if b < n0 {
                            assert(groups@[a] == g0[a] && groups@[b] == g0[b]);
                        } else {
                            assert(groups@[a] == g0[a]);
                        }
                    }
                    assert forall|k2: int| 0 <= k2 < es1.len() implies #[trigger] source_grouped(groups@, es1[k2].source@) by {
                        if k2 < k {
                            assert(es1[k2] == es[k2]);
                            assert(source_grouped(g0, es[k2].source@));
                            let a = choose|a: int| 0 <= a < g0.len() && #[trigger] g0[a].0@ == es[k2].source@;
                            assert(groups@[a] == g0[a]);
                        } else {
                            assert(groups@[n0].0@ == es1[k2].source@);
                        }
                    }
                }
            },
        }
        k = k + 1;
    }
    assert(edges@.take(edges@.len() as int) =~= edges@);
    groups
}

/// The ids of the byte plane, each once.
fn byte_plane_ids(nodes: &[GraphNode], edges: &[Edge]) -> (r: Vec<String>)
    ensures
        forall|p: int, q: int| 0 <= p < q < r@.len() ==> r@[p]@ != r@[q]@,
        forall|s: Seq<char>|
            #![trigger ids_contain(r@, s)]
            #![trigger in_byte_plane(nodes@, edges@, s)]
            ids_contain(r@, s) <==> in_byte_plane(nodes@, edges@, s),
{
    let mut ids: Vec<String> = Vec::new();
    let mut i: usize = 0;
    while i < nodes.len()
        invariant
            i <= nodes@.len(),
            forall|p: int, q: int| 0 <= p < q < ids@.len() ==> ids@[p]@ != ids@[q]@,
            forall|s: Seq<char>|
                #![trigger ids_contain(ids@, s)]
                #![trigger byte_kind_listed(nodes@.take(i as int), s)]
                ids_contain(ids@, s) <==> byte_kind_listed(nodes@.take(i as int), s),
        decreases nodes.len() - i,
    {
        let ghost o = ids@;
        let ghost n0 = nodes@.take(i as int);
        let ghost n1 = nodes@.take(i + 1);
        if nodes[i].transport_or_protocol && index_of_id(&ids, &nodes[i].id).is_none() {
            ids.push(nodes[i].id.clone());
        }
        proof {
            assert forall|s: Seq<char>| #![trigger ids_contain(ids@, s)] #![trigger byte_kind_listed(n1, s)]
                ids_contain(ids@, s) <==> byte_kind_listed(n1, s) by {
                if ids_contain(ids@, s) {
                    let p = choose|p: int| 0 <= p < ids@.len() && #[trigger] ids@[p]@ == s;
                    if p < o.len() {
                        assert(ids@[p] == o[p]);
                        assert(ids_contain(o, s));
                        let j = choose|j: int| 0 <= j < n0.len() && #[trigger] n0[j].id@ == s && n0[j].transport_or_protocol;
                        assert(n1[j] == n0[j]);
                    } else {
                        assert(n1[i as int] == nodes@[i as int]);
                    }
                }
                if byte_kind_listed(n1, s) {
                    let j = choose|j: int| 0 <= j < n1.len() && #[trigger] n1[j].id@ == s && n1[j].transport_or_protocol;
                    if j < i {
                        assert(n0[j] == n1[j]);
                        assert(byte_kind_listed(n0, s));
                        assert(ids_contain(o, s));
                        let p = choose|p: int| 0 <= p < o.len() && #[trigger] o[p]@ == s;
                        assert(ids@[p] == o[p]);
                    } else {
                        assert(n1[j] == nodes@[i as int]);
                        if ids@.len() == o.len() {
                            assert(ids_contain(o, s));
                        } else {
                            assert(ids@[o.len() as int]@ == s);
                        }
                    }
                }
            }
            assert forall|p: int, q: int| 0 <= p < q < ids@.len() implies ids@[p]@ != ids@[q]@ by {
                if q < o.len() {
                    assert(ids@[p] == o[p] && ids@[q] == o[q]);
                } else {
                    assert(ids@[p] == o[p]);
                }
            }
        }
        i = i + 1;
    }
    assert(nodes@.take(nodes@.len() as int) =~= nodes@);
    let mut k: usize = 0;
    while k < edges.len()
        invariant
            k <= edges@.len(),
            forall|p: int, q: int| 0 <= p < q < ids@.len() ==> ids@[p]@ != ids@[q]@,
            forall|s: Seq<char>|
                #![trigger ids_contain(ids@, s)]
                #![trigger edge_touches(edges@.take(k as int), s)]
                ids_contain(ids@, s) <==> (byte_kind_listed(nodes@, s) || (node_listed(nodes@, s)
                    && edge_touches(edges@.take(k as int), s))),
        decreases edges.len() - k,
    {
        let ghost o = ids@;
        let ghost e0 = edges@.take(k as int);
        let ghost e1 = edges@.take(k + 1);
        let e = &edges[k];
        if has_node(nodes, &e.source) && index_of_id(&ids, &e.source).is_none() {
            ids.push(e.source.clone());
        }
        let ghost o2 = ids@;
        if has_node(nodes, &e.target) && index_of_id(&ids, &e.target).is_none() {
            ids.push(e.target.clone());
        }
        proof {
            assert(e1[k as int] == edges@[k as int]);
            assert forall|s: Seq<char>| #![trigger ids_contain(ids@, s)] #![trigger edge_touches(e1, s)]
                ids_contain(ids@, s) <==> (byte_kind_listed(nodes@, s) || (node_listed(nodes@, s)
                    && edge_touches(e1, s))) by {
                assert(edge_touches(e1, s) <==> (edge_touches(e0, s) || e.source@ == s || e.target@ == s)) by {
                    if edge_touches(e1, s) {
                        let j = choose|j: int| #![trigger e1[j]] 0 <= j < e1.len() && (e1[j].source@ == s || e1[j].target@ == s);
                        if j < k {
                            assert(e0[j] == e1[j]);
                        }
                    }
                    if edge_touches(e0, s) {
                        let j = choose|j: int| #![trigger e0[j]] 0 <= j < e0.len() && (e0[j].source@ == s || e0[j].target@ == s);
                        assert(e0[j] == e1[j]);
                    }
                }
                if byte_kind_listed(nodes@, s) {
                    let j = choose|j: int| 0 <= j < nodes@.len() && #[trigger] nodes@[j].id@ == s && nodes@[j].transport_or_protocol;
                    assert(node_listed(nodes@, s));
                }
                if ids_contain(o, s) {
                    let p = choose|p: int| 0 <= p < o.len() && #[trigger] o[p]@ == s;
                    assert(ids@[p] == o[p]);
                }
                if ids_contain(ids@, s) {
                    let p = choose|p: int| 0 <= p < ids@.len() && #[trigger] ids@[p]@ == s;
                    if p < o.len() {
                        assert(ids@[p] == o[p]);
                    } else if p < o2.len() {
                        assert(ids@[p] == o2[p]);
                    }
                }
                if node_listed(nodes@, s) && (e.source@ == s || e.target@ == s) && !ids_contain(o, s) {
                    if e.source@ == s {
                        if o2.len() > o.len() {
                            assert(ids@[o.len() as int] == o2[o.len() as int]);
                        } else {
                            let p = choose|p: int| 0 <= p < o2.len() && #[trigger] o2[p]@ == s;
                        }
                    } else {
                        if ids@.len() > o2.len() {
                            assert(ids@[o2.len() as int]@ == s);
                        } else {
                            let p = choose|p: int| 0 <= p < o2.len() && #[trigger] o2[p]@ == s;
                            assert(ids@[p] == o2[p]);
                        }
                    }
                }
            }
            assert forall|p: int, q: int| 0 <= p < q < ids@.len() implies ids@[p]@ != ids@[q]@ by {
                if q < o.len() {
                    assert(ids@[p] == o[p] && ids@[q] == o[q]);
                } else if q < o2.len() {
                    assert(ids@[p] == o2[p] && ids@[q] == o2[q]);
                } else if p < o2.len() {
                    assert(ids@[p] == o2[p]);
                }
            }
        }
        k = k + 1;
    }
    assert(edges@.take(edges@.len() as int) =~= edges@);
    ids
}


/// The edges between ids of `ids`, as index pairs, in edge order.
fn byte_pairs(ids: &Vec<String>, edges: &[Edge]) -> (r: Vec<(usize, usize)>)
    requires
        forall|p: int, q: int| 0 <= p < q < ids@.len() ==> ids@[p]@ != ids@[q]@,
    ensures
        edges_within(r@, ids@.len() as nat),
        forall|a: int, b: int|
            #![trigger linked(r@, a, b)]
            #![trigger edge_between(edges@, ids@[a]@, ids@[b]@)]
            0 <= a < ids@.len() && 0 <= b < ids@.len() ==> (linked(r@, a, b) <==> edge_between(
                edges@,
                ids@[a]@,
                ids@[b]@,
            )),
        forall|a: int, b: int| #[trigger] linked(r@, a, b) ==> 0 <= a < ids@.len() && 0 <= b < ids@.len(),
        r@ == index_pairs(id_views(ids@), edges@),
{
    let n = ids.len();
    let ghost views = id_views(ids@);
    let mut pairs: Vec<(usize, usize)> = Vec::new();
    let mut k: usize = 0;
    while k < edges.len()
        invariant
            k <= edges@.len(),
            n == ids@.len(),
            forall|p: int, q: int| 0 <= p < q < ids@.len() ==> ids@[p]@ != ids@[q]@,
            edges_within(pairs@, n as nat),
            forall|a: int, b: int|
                #![trigger linked(pairs@, a, b)]
                #![trigger edge_between(edges@.take(k as int), ids@[a]@, ids@[b]@)]
                0 <= a < n && 0 <= b < n ==> (linked(pairs@, a, b) <==> edge_between(
                    edges@.take(k as int),
                    ids@[a]@,
                    ids@[b]@,
                )),
            views == id_views(ids@),
            pairs@ == index_pairs(views, edges@.take(k as int)),
        decreases edges.len() - k,
    {
        let ghost p0 = pairs@;
        let ghost e0 = edges@.take(k as int);
        let ghost e1 = edges@.take(k + 1);
        let e = &edges[k];
        let si = index_of_id(ids, &e.source);
        let ti = index_of_id(ids, &e.target);
        match (si, ti) {
            (Some(a), Some(b)) => {
                pairs.push((a, b));
            },
            _ => {},
        }
        proof {
            assert(e1[k as int] == edges@[k as int]);
            assert(e1.drop_last() =~= e0);
            assert(forall|p: int, q: int| 0 <= p < q < views.len() ==> views[p] != views[q]);
            match si {
                Some(a) => {
                    assert(views[a as int] == e.source@);
                    lemma_id_pos(views, a as int);
                },
                None => {
                    assert(!views.contains(e.source@));
                },
            }
            match ti {
                Some(b) => {
                    assert(views[b as int] == e.target@);
                    lemma_id_pos(views, b as int);
                },
                None => {
                    assert(!views.contains(e.target@));
                },
            }
            assert(pairs@ == index_pairs(views, e1));
            match (si, ti) {
                (Some(a), Some(b)) => {
                    assert(pairs@ == p0.push((a, b)));
                },
                _ => {
                    assert(pairs@ == p0);
                },
            }
            assert forall|k2: int| 0 <= k2 < pairs@.len() implies #[trigger] pairs@[k2].0 < n && pairs@[k2].1 < n by {
                if k2 < p0.len() {
                    assert(pairs@[k2] == p0[k2]);
                }
            }
            assert forall|a: int, b: int|
                #![trigger linked(pairs@, a, b)]
                #![trigger edge_between(e1, ids@[a]@, ids@[b]@)]
                0 <= a < n && 0 <= b < n implies (linked(pairs@, a, b) <==> edge_between(
                    e1,
                    ids@[a]@,
                    ids@[b]@,
                )) by {
                assert(edge_between(e1, ids@[a]@, ids@[b]@) <==> (edge_between(e0, ids@[a]@, ids@[b]@)
                    || (e.source@ == ids@[a]@ && e.target@ == ids@[b]@))) by {
                    if edge_between(e1, ids@[a]@, ids@[b]@) {
                        let j = choose|j: int| #![trigger e1[j]] 0 <= j < e1.len() && e1[j].source@ == ids@[a]@ && e1[j].target@ == ids@[b]@;
                        if j < k {
                            assert(e0[j] == e1[j]);
                        }
                    }
                    if edge_between(e0, ids@[a]@, ids@[b]@) {
                        let j = choose|j: int| #![trigger e0[j]] 0 <= j < e0.len() && e0[j].source@ == ids@[a]@ && e0[j].target@ == ids@[b]@;
                        assert(e0[j] == e1[j]);
                    }
                }
                if linked(pairs@, a, b) {
                    let j = choose|j: int| 0 <= j < pairs@.len() && pairs@[j].0 == a && pairs@[j].1 == b;
                    if j < p0.len() {
                        assert(pairs@[j] == p0[j]);
                        assert(linked(p0, a, b));
                    } else {
                        assert(si == Some(a as usize) && ti == Some(b as usize));
                    }
                }
                if linked(p0, a, b) {
                    let j = choose|j: int| 0 <= j < p0.len() && p0[j].0 == a && p0[j].1 == b;
                    assert(pairs@[j] == p0[j]);
                }
                if e.source@ == ids@[a]@ && e.target@ == ids@[b]@ {
                    match si {
                        Some(a2) => {
                            if a2 != a {
                                if a2 < a {
                                    assert(ids@[a2 as int]@ != ids@[a]@);
                                } else {
                                    assert(ids@[a]@ != ids@[a2 as int]@);
                                }
                            }
                        },
                        None => {
                            assert(ids@[a]@ != e.source@);
                        },
                    }
                    match ti {
                        Some(b2) => {
                            if b2 != b {
                                if b2 < b {
                                    assert(ids@[b2 as int]@ != ids@[b]@);
                                } else {
                                    assert(ids@[b]@ != ids@[b2 as int]@);
                                }
                            }
                        },
                        None => {
                            assert(ids@[b]@ != e.target@);
                        },
                    }
                    assert(pairs@[pairs@.len() - 1] == (a as usize, b as usize));
                }
            }
        }
        k = k + 1;
    }
    assert(edges@.take(edges@.len() as int) =~= edges@);
    proof {
        assert forall|a: int, b: int| #[trigger] linked(pairs@, a, b) implies 0 <= a < ids@.len() && 0 <= b < ids@.len() by {
            let j = choose|j: int| 0 <= j < pairs@.len() && pairs@[j].0 == a && pairs@[j].1 == b;
            assert(pairs@[j].0 < n && pairs@[j].1 < n);
        }
    }
    pairs
}


/// The facts that tie an id list and its index pairs to the graph.
pub open spec fn indexes_graph(
    nodes: Seq<GraphNode>,
    edges: Seq<Edge>,
    ids: Seq<String>,
    pairs: Seq<(usize, usize)>,
) -> bool {
    &&& forall|p: int, q: int| 0 <= p < q < ids.len() ==> ids[p]@ != ids[q]@
    &&& forall|s: Seq<char>|
        #![trigger ids_contain(ids, s)]
        #![trigger in_byte_plane(nodes, edges, s)]
        ids_contain(ids, s) <==> in_byte_plane(nodes, edges, s)
    &&& forall|a: int, b: int|
        #![trigger linked(pairs, a, b)]
        #![trigger edge_between(edges, ids[a]@, ids[b]@)]
        0 <= a < ids.len() && 0 <= b < ids.len() ==> (linked(pairs, a, b) <==> edge_between(
            edges,
            ids[a]@,
            ids[b]@,
        ))
    &&& forall|a: int, b: int| #[trigger] linked(pairs, a, b) ==> 0 <= a < ids.len() && 0 <= b < ids.len()
}

proof fn lemma_id_of_link_end(nodes: Seq<GraphNode>, edges: Seq<Edge>, ids: Seq<String>, pairs: Seq<(usize, usize)>, u: Seq<char>, v: Seq<char>)
    requires
        indexes_graph(nodes, edges, ids, pairs),
        byte_link(nodes, edges, u, v),
    ensures
        ids_contain(ids, u),
        ids_contain(ids, v),
{
    let k = choose|k: int| #![trigger edges[k]] 0 <= k < edges.len() && edges[k].source@ == u && edges[k].target@ == v;
    assert(edge_touches(edges, u));
    assert(edge_touches(edges, v));
    assert(in_byte_plane(nodes, edges, u));
    assert(in_byte_plane(nodes, edges, v));
}

/// The index graph has a cycle exactly when the byte edges have one.
proof fn lemma_cycle_transfer(
    nodes: Seq<GraphNode>,
    edges: Seq<Edge>,
    ids: Seq<String>,
    pairs: Seq<(usize, usize)>,
)
    requires
        indexes_graph(nodes, edges, ids, pairs),
    ensures
        has_cycle(pairs) <==> has_byte_cycle(nodes, edges),
{
    if has_cycle(pairs) {
        let w = choose|w: Seq<int>| #[trigger] crate::topo::is_closed_walk(pairs, w);
        let ws = Seq::new(w.len(), |i: int| ids[w[i]]@);
        assert forall|i: int, j: int| 0 <= i && j == i + 1 && j < ws.len() implies #[trigger] byte_link(
            nodes,
            edges,
            ws[i],
            ws[j],
        ) by {
            assert(linked(pairs, w[i], w[j]));
            assert(edge_between(edges, ids[w[i]]@, ids[w[j]]@));
            assert(ids_contain(ids, ids[w[i]]@));
            assert(ids_contain(ids, ids[w[j]]@));
            assert(in_byte_plane(nodes, edges, ws[i]));
            assert(in_byte_plane(nodes, edges, ws[j]));
        }
        assert(is_byte_cycle(nodes, edges, ws));
    }
    if has_byte_cycle(nodes, edges) {
        let ws = choose|ws: Seq<Seq<char>>| #[trigger] is_byte_cycle(nodes, edges, ws);
        assert forall|i: int| 0 <= i < ws.len() implies #[trigger] ids_contain(ids, ws[i]) by {
            if i + 1 < ws.len() {
                assert(byte_link(nodes, edges, ws[i], ws[i + 1]));
                lemma_id_of_link_end(nodes, edges, ids, pairs, ws[i], ws[i + 1]);
            } else {
                assert(byte_link(nodes, edges, ws[0], ws[1]));
                lemma_id_of_link_end(nodes, edges, ids, pairs, ws[0], ws[1]);
            }
        }
        let w = Seq::new(ws.len(), |i: int| choose|a: int| 0 <= a < ids.len() && #[trigger] ids[a]@ == ws[i]);
        assert forall|i: int| 0 <= i < w.len() implies 0 <= w[i] < ids.len() && ids[w[i]]@ == ws[i] by {
            assert(ids_contain(ids, ws[i]));
        }
        assert forall|i: int, j: int| 0 <= i && j == i + 1 && j < w.len() implies #[trigger] linked(pairs, w[i], w[j]) by {
            assert(byte_link(nodes, edges, ws[i], ws[j]));
            assert(edge_between(edges, ids[w[i]]@, ids[w[j]]@));
        }
        assert(crate::topo::is_closed_walk(pairs, w));
    }
}

/// A topological order of the index graph, read as ids, is an order of the
/// byte plane.
proof fn lemma_order_transfer(
    nodes: Seq<GraphNode>,
    edges: Seq<Edge>,
    ids: Seq<String>,
    pairs: Seq<(usize, usize)>,
    idx: Seq<usize>,
    order: Seq<String>,
)
    requires
        indexes_graph(nodes, edges, ids, pairs),
        ids.len() <= usize::MAX,
        is_topological(pairs, ids.len(), idx),
        order.len() == idx.len(),
        forall|p: int| 0 <= p < order.len() ==> #[trigger] order[p]@ == ids[idx[p] as int]@,
    ensures
        is_byte_order(nodes, edges, order),
{
    assert forall|p: int, q: int| 0 <= p < q < order.len() implies order[p]@ != order[q]@ by {
        assert(order[p]@ == ids[idx[p] as int]@ && order[q]@ == ids[idx[q] as int]@);
        assert(idx[p] != idx[q]);
        assert(idx[p] < ids.len() && idx[q] < ids.len());
        if idx[p] < idx[q] {
            assert(ids[idx[p] as int]@ != ids[idx[q] as int]@);
        } else {
            assert(ids[idx[q] as int]@ != ids[idx[p] as int]@);
        }
    }
    assert forall|s: Seq<char>|
        #![trigger in_byte_plane(nodes, edges, s)]
        #![trigger ids_contain(order, s)]
        in_byte_plane(nodes, edges, s) <==> ids_contain(order, s) by {
        if in_byte_plane(nodes, edges, s) {
            assert(ids_contain(ids, s));
            let a = choose|a: int| 0 <= a < ids.len() && #[trigger] ids[a]@ == s;
            let au = a as usize;
            assert(au as int == a);
            assert(idx.contains(au));
            let p = choose|p: int| 0 <= p < idx.len() && idx[p] == au;
            assert(order[p]@ == ids[idx[p] as int]@);
            assert(order[p]@ == s);
        }
        if ids_contain(order, s) {
            let p = choose|p: int| 0 <= p < order.len() && #[trigger] order[p]@ == s;
            assert(order[p]@ == ids[idx[p] as int]@);
            assert(ids_contain(ids, s));
        }
    }
    assert forall|p: int, q: int|
        0 <= p < order.len() && 0 <= q < order.len() && #[trigger] byte_link(
            nodes,
            edges,
            order[p]@,
            order[q]@,
        ) implies p < q by {
        assert(order[p]@ == ids[idx[p] as int]@ && order[q]@ == ids[idx[q] as int]@);
        assert(edge_between(edges, ids[idx[p] as int]@, ids[idx[q] as int]@));
        assert(linked(pairs, idx[p] as int, idx[q] as int));
    }
}

/// Sorted byte-plane ids, each once, are the byte-plane ids in byte order.
proof fn lemma_sorted_ids_are_byte_ids(nodes: Seq<GraphNode>, edges: Seq<Edge>, ids: Seq<String>)
    requires
        forall|p: int, q: int| 0 <= p < q < ids.len() ==> ids[p]@ != ids[q]@,
        forall|p: int, q: int| 0 <= p < q < ids.len() ==> !id_lt(ids[q]@, ids[p]@),
        forall|s: Seq<char>|
            #![trigger ids_contain(ids, s)]
            #![trigger in_byte_plane(nodes, edges, s)]
            ids_contain(ids, s) <==> in_byte_plane(nodes, edges, s),
    ensures
        byte_ids(nodes, edges) == id_views(ids),
{
    let v = id_views(ids);
    assert(ascending(v)) by {
        assert forall|p: int, q: int| #![trigger v[p], v[q]] 0 <= p < q < v.len() implies id_lt(v[p], v[q]) by {
            lemma_id_lt_order(v[p], v[q], v[q]);
        }
    }
    assert forall|x: Seq<char>| #[trigger] v.contains(x) <==> in_byte_plane(nodes, edges, x) by {
        if v.contains(x) {
            let p = choose|p: int| 0 <= p < v.len() && v[p] == x;
            assert(ids[p]@ == x);
            assert(ids_contain(ids, x));
        }
        if in_byte_plane(nodes, edges, x) {
            assert(ids_contain(ids, x));
            let p = choose|p: int| 0 <= p < ids.len() && #[trigger] ids[p]@ == x;
            assert(v[p] == x);
        }
    }
    let c = byte_ids(nodes, edges);
    assert(ascending(c) && forall|x: Seq<char>| #[trigger] c.contains(x) <==> in_byte_plane(nodes, edges, x));
    assert forall|x: Seq<char>| #[trigger] c.contains(x) <==> v.contains(x) by {
        assert(c.contains(x) <==> in_byte_plane(nodes, edges, x));
        assert(v.contains(x) <==> in_byte_plane(nodes, edges, x));
    }
    lemma_ascending_unique(c, v);
}

impl BytePlan {
    /// Compiles the byte plane: groups the routes of the byte edges by source
    /// and orders the byte-plane nodes (transport and protocol nodes, and the
    /// graph nodes that byte edges touch) by a depth-first search that puts
    /// every node after the nodes with edges into it, starting from the ids in
    /// byte order (`plane_order`). A cycle of byte edges is refused.
    pub fn build(nodes: &[GraphNode], byte_edges: &[Edge]) -> (r: Result<BytePlan, CompileError>)
        ensures
            r is Err <==> has_byte_cycle(nodes@, byte_edges@),
            match r {
                Ok(plan) => {
                    &&& is_byte_order(nodes@, byte_edges@, plan.order@)
                    &&& id_views(plan.order@) == plane_order(nodes@, byte_edges@)
                    &&& groups_by_source(plan.consumers@, byte_edges@)
                },
                Err(e) => e == CompileError::ByteCycle,
            },
    {
        let consumers = group_routes(byte_edges);
        let raw = byte_plane_ids(nodes, byte_edges);
        let ids = sort_ids(raw);
        let pairs = byte_pairs(&ids, byte_edges);
        proof {
            assert forall|s: Seq<char>|
                #![trigger ids_contain(ids@, s)]
                #![trigger in_byte_plane(nodes@, byte_edges@, s)]
                ids_contain(ids@, s) <==> in_byte_plane(nodes@, byte_edges@, s) by {
                assert(ids_contain(ids@, s) <==> ids_contain(raw@, s));
            }
            assert(indexes_graph(nodes@, byte_edges@, ids@, pairs@));
            lemma_cycle_transfer(nodes@, byte_edges@, ids@, pairs@);
            lemma_sorted_ids_are_byte_ids(nodes@, byte_edges@, ids@);
        }
        match topo_sort(ids.len(), &pairs) {
            None => Err(CompileError::ByteCycle),
            Some(idx) => {
                let mut order: Vec<String> = Vec::new();
                let mut p: usize = 0;
                while p < idx.len()
                    invariant
                        p <= idx@.len(),
                        order@.len() == p,
                        is_topological(pairs@, ids@.len() as nat, idx@),
                        forall|q: int| 0 <= q < p ==> #[trigger] order@[q]@ == ids@[idx@[q] as int]@,
                    decreases idx.len() - p,
                {
                    let x = ids[idx[p]].clone();
                    order.push(x);
                    p = p + 1;
                }
                proof {
                    lemma_order_transfer(nodes@, byte_edges@, ids@, pairs@, idx@, order@);
                    let v = id_views(ids@);
                    assert(id_views(order@) =~= idx@.map_values(|i: usize| v[i as int]));
                }
                Ok(BytePlan { order, consumers })
            },
        }
    }
}


/// On a compiled plan, the routes of a source are the routes of the byte
/// edges that leave it, in edge order; a node without outgoing byte edges
/// has none.
pub proof fn lemma_routes_for_built(plan: BytePlan, edges: Seq<Edge>, s: Seq<char>)
    requires
        groups_by_source(plan.consumers@, edges),
    ensures
        match plan.group_of(s) {
            Some(i) => plan.consumers@[i].1@ == routes_from(edges, s),
            None => routes_from(edges, s).len() == 0,
        },
{
    match plan.group_of(s) {
        Some(i) => {
            assert(plan.consumers@[i].0@ == s);
        },
        None => {
            lemma_routes_from_source(edges, s);
            if routes_from(edges, s).len() > 0 {
                let k = choose|k: int| 0 <= k < edges.len() && #[trigger] edges[k].source@ == s;
                assert(source_grouped(plan.consumers@, edges[k].source@));
                let i = choose|i: int| 0 <= i < plan.consumers@.len() && #[trigger] plan.consumers@[i].0@ == s;
                assert(plan.consumers@[i].0@ == s);
            }
        },
    }
}

} // verus!
