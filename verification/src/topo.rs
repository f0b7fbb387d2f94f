//! Depth-first topological ordering of a graph whose nodes are the indices
//! `0..n`, with cycle detection (three colours: unvisited, on the stack, done).

use vstd::prelude::*;

verus! {

/// `(u, v)` is one of the edges.
pub open spec fn linked(pairs: Seq<(usize, usize)>, u: int, v: int) -> bool {
    exists|k: int| 0 <= k < pairs.len() && pairs[k].0 == u && pairs[k].1 == v
}

/// Every edge joins two of the nodes `0..n`.
pub open spec fn edges_within(pairs: Seq<(usize, usize)>, n: nat) -> bool {
    forall|k: int| 0 <= k < pairs.len() ==> #[trigger] pairs[k].0 < n && pairs[k].1 < n
}

/// `w` follows edges for at least one step and ends where it starts.
pub open spec fn is_closed_walk(pairs: Seq<(usize, usize)>, w: Seq<int>) -> bool {
    &&& w.len() >= 2
    &&& w[0] == w[w.len() - 1]
    &&& walk_linked(pairs, w)
}

/// Each element of `w` has an edge to the next one.
pub open spec fn walk_linked(pairs: Seq<(usize, usize)>, w: Seq<int>) -> bool {
    forall|i: int, j: int| 0 <= i && j == i + 1 && j < w.len() ==> #[trigger] linked(pairs, w[i], w[j])
}

/// The graph has a cycle.
pub open spec fn has_cycle(pairs: Seq<(usize, usize)>) -> bool {
    exists|w: Seq<int>| #[trigger] is_closed_walk(pairs, w)
}

/// Every node that has an edge into `order[q]` comes before it in `order`.
pub open spec fn preds_first(pairs: Seq<(usize, usize)>, order: Seq<usize>) -> bool {
    forall|q: int, u: int|
        0 <= q < order.len() && #[trigger] linked(pairs, u, order[q] as int) ==> exists|p: int|
            0 <= p < q && #[trigger] order[p] == u
}

/// The edges join nodes of `0..n`, and `order` lists each of them once with
/// every edge pointing forward.
pub open spec fn is_topological(pairs: Seq<(usize, usize)>, n: nat, order: Seq<usize>) -> bool {
    &&& edges_within(pairs, n)
    &&& order.no_duplicates()
    &&& forall|x: usize| x < n ==> #[trigger] order.contains(x)
    &&& forall|i: int| 0 <= i < order.len() ==> order[i] < n
    &&& forall|p: int, q: int|
        0 <= p < order.len() && 0 <= q < order.len() && #[trigger] linked(
            pairs,
            order[p] as int,
            order[q] as int,
        ) ==> p < q
}

/// Each stack node has an edge into the node below it.
pub open spec fn stack_linked(pairs: Seq<(usize, usize)>, stack: Seq<usize>) -> bool {
    forall|i: int, j: int|
        0 <= i && j == i + 1 && j < stack.len() ==> #[trigger] linked(
            pairs,
            stack[j] as int,
            stack[i] as int,
        )
}

/// Number of unvisited nodes.
pub open spec fn white_count(colors: Seq<u8>) -> nat
    decreases colors.len(),
{
    if colors.len() == 0 {
        0
    } else {
        white_count(colors.drop_last()) + if colors.last() == 0 {
            1nat
        } else {
            0nat
        }
    }
}

/// Colours only move forward: a visited node keeps its colour.
pub open spec fn colors_grow(a: Seq<u8>, b: Seq<u8>) -> bool {
    &&& a.len() == b.len()
    &&& forall|x: int| 0 <= x < a.len() && a[x] != 0 ==> #[trigger] b[x] == a[x]
}

/// Search state: `colors[x]` is 2 exactly for the nodes in `order`, 1 exactly
/// for the nodes on `stack`, each stack node has an edge into the one below
/// it, and `order` lists every node after the nodes with edges into it.
pub open spec fn search_state(
    pairs: Seq<(usize, usize)>,
    colors: Seq<u8>,
    order: Seq<usize>,
    stack: Seq<usize>,
) -> bool {
    let n = colors.len();
    &&& edges_within(pairs, n)
    &&& order.no_duplicates()
    &&& forall|i: int| 0 <= i < order.len() ==> order[i] < n
    &&& forall|i: int| 0 <= i < stack.len() ==> stack[i] < n
    &&& forall|x: usize| x < n ==> #[trigger] colors[x as int] <= 2
    &&& forall|x: usize| x < n ==> (colors[x as int] == 2 <==> #[trigger] order.contains(x))
    &&& forall|x: usize| x < n ==> (colors[x as int] == 1 <==> #[trigger] stack.contains(x))
    &&& stack_linked(pairs, stack)
    &&& preds_first(pairs, order)
}

proof fn lemma_white_count_le(a: Seq<u8>, b: Seq<u8>)
    requires
        a.len() == b.len(),
        forall|x: int| 0 <= x < a.len() && b[x] == 0 ==> a[x] == 0,
    ensures
        white_count(b) <= white_count(a),
        (exists|x: int| 0 <= x < a.len() && a[x] == 0 && b[x] != 0) ==> white_count(b)
            < white_count(a),
    decreases a.len(),
{
    if a.len() > 0 {
        let a2 = a.drop_last();
        let b2 = b.drop_last();
        assert forall|x: int| 0 <= x < a2.len() && b2[x] == 0 implies a2[x] == 0 by {
            assert(b2[x] == b[x] && a2[x] == a[x]);
        }
        lemma_white_count_le(a2, b2);
        if exists|x: int| 0 <= x < a.len() && a[x] == 0 && b[x] != 0 {
            let x = choose|x: int| 0 <= x < a.len() && a[x] == 0 && b[x] != 0;
            if x < a.len() - 1 {
                assert(a2[x] == a[x] && b2[x] == b[x]);
            }
        }
    }
}

/// A gray node reached again closes a cycle through the stack.
proof fn lemma_stack_cycle(pairs: Seq<(usize, usize)>, stack: Seq<usize>, j: int)
    requires
        0 <= j < stack.len(),
        stack_linked(pairs, stack),
        linked(pairs, stack[j] as int, stack[stack.len() - 1] as int),
    ensures
        has_cycle(pairs),
{
    let l = stack.len();
    let tail = Seq::new((l - j) as nat, |i: int| stack[l - 1 - i] as int);
    let w = seq![stack[j] as int] + tail;
    assert(w.len() == l - j + 1);
    assert(w[0] == stack[j] as int);
    assert(w[w.len() - 1] == tail[l - j - 1]);
    assert forall|a: int, b: int| 0 <= a && b == a + 1 && b < w.len() implies #[trigger] linked(
        pairs,
        w[a],
        w[b],
    ) by {
        if a == 0 {
            assert(w[1] == tail[0]);
        } else {
            assert(w[a] == tail[a - 1]);
            assert(w[b] == tail[a]);
            let m = l - 1 - a;
            assert(stack[m + 1] == stack[l - a]);
            assert(linked(pairs, stack[m + 1] as int, stack[m] as int));
        }
    }
    assert(is_closed_walk(pairs, w));
}

/// Along a walk of a topological order, positions strictly increase.
proof fn lemma_walk_forward(pairs: Seq<(usize, usize)>, n: nat, order: Seq<usize>, w: Seq<int>)
    requires
        is_topological(pairs, n, order),
        w.len() >= 2,
        walk_linked(pairs, w),
    ensures
        exists|p: int, q: int|
            0 <= p < q < order.len() && order[p] == w[0] && order[q] == w[w.len() - 1],
    decreases w.len(),
{
    assert(linked(pairs, w[0], w[1]));
    let k = choose|k: int| 0 <= k < pairs.len() && pairs[k].0 == w[0] && pairs[k].1 == w[1];
    assert(pairs[k].0 < n && pairs[k].1 < n);
    let x0 = pairs[k].0;
    let x1 = pairs[k].1;
    assert(order.contains(x0));
    assert(order.contains(x1));
    let p = choose|p: int| 0 <= p < order.len() && order[p] == x0;
    let q = choose|q: int| 0 <= q < order.len() && order[q] == x1;
    assert(linked(pairs, order[p] as int, order[q] as int));
    if w.len() == 2 {
        assert(p < q);
    } else {
        let w2 = w.subrange(1, w.len() as int);
        assert forall|a: int, b: int| 0 <= a && b == a + 1 && b < w2.len() implies #[trigger] linked(
            pairs,
            w2[a],
            w2[b],
        ) by {
            assert(w2[a] == w[a + 1] && w2[b] == w[b + 1]);
            assert(linked(pairs, w[a + 1], w[b + 1]));
        }
        lemma_walk_forward(pairs, n, order, w2);
        let (p2, q2) = choose|p2: int, q2: int|
            0 <= p2 < q2 < order.len() && order[p2] == w2[0] && order[q2] == w2[w2.len() - 1];
        assert(order[p2] == order[q]);
        assert(p2 == q) by {
            if p2 != q {
                assert(order.no_duplicates());
            }
        }
        assert(w2[w2.len() - 1] == w[w.len() - 1]);
    }
}

/// A graph with a topological order of all its nodes has no cycle.
pub proof fn lemma_topological_acyclic(pairs: Seq<(usize, usize)>, n: nat, order: Seq<usize>)
    requires
        is_topological(pairs, n, order),
    ensures
        !has_cycle(pairs),
{
    if has_cycle(pairs) {
        let w = choose|w: Seq<int>| #[trigger] is_closed_walk(pairs, w);
        lemma_walk_forward(pairs, n, order, w);
        let (p, q) = choose|p: int, q: int|
            0 <= p < q < order.len() && order[p] == w[0] && order[q] == w[w.len() - 1];
        assert(order[p] == order[q]);
    }
}

/// Pushing `id` keeps the stack links when `id` has an edge into the top.
proof fn lemma_stack_push(pairs: Seq<(usize, usize)>, stack: Seq<usize>, id: usize)
    requires
        stack_linked(pairs, stack),
        stack.len() > 0 ==> linked(pairs, id as int, stack[stack.len() - 1] as int),
    ensures
        stack_linked(pairs, stack.push(id)),
{
    let st = stack.push(id);
    assert forall|i: int, j: int| 0 <= i && j == i + 1 && j < st.len() implies #[trigger] linked(
        pairs,
        st[j] as int,
        st[i] as int,
    ) by {
        if j < stack.len() {
            assert(st[j] == stack[j] && st[i] == stack[i]);
        } else {
            assert(st[j] == id && st[i] == stack[stack.len() - 1]);
        }
    }
}

/// Depth-first visit of `id` with at most `fuel` nested starts: a finished
/// node is skipped, a node on the stack stops the search, an unvisited node
/// goes on the stack, the sources of the edges into it are visited in edge
/// order, and it is finished and appended to `order`. Returns the colours, the
/// order and whether the search went through.
pub open spec fn dfs_visit(
    pairs: Seq<(usize, usize)>,
    id: usize,
    colors: Seq<u8>,
    order: Seq<usize>,
    fuel: nat,
) -> (Seq<u8>, Seq<usize>, bool)
    decreases fuel, 0nat, 0nat,
{
    if colors[id as int] == 2 {
        (colors, order, true)
    } else if colors[id as int] == 1 || fuel == 0 {
        (colors, order, false)
    } else {
        let r = dfs_scan(pairs, id, 0, colors.update(id as int, 1), order, (fuel - 1) as nat);
        if r.2 {
            (r.0.update(id as int, 2), r.1.push(id), true)
        } else {
            r
        }
    }
}

/// The part of a visit of `id` that goes through the edges from index `k` on.
pub open spec fn dfs_scan(
    pairs: Seq<(usize, usize)>,
    id: usize,
    k: nat,
    colors: Seq<u8>,
    order: Seq<usize>,
    fuel: nat,
) -> (Seq<u8>, Seq<usize>, bool)
    decreases fuel, 1nat, pairs.len() - k,
{
    if k >= pairs.len() {
        (colors, order, true)
    } else {
        let r = if pairs[k as int].1 == id {
            dfs_visit(pairs, pairs[k as int].0, colors, order, fuel)
        } else {
            (colors, order, true)
        };
        if r.2 {
            dfs_scan(pairs, id, k + 1, r.0, r.1, fuel)
        } else {
            r
        }
    }
}

/// Depth-first search from every root `root..n` in index order.
pub open spec fn dfs_roots(pairs: Seq<(usize, usize)>, root: nat, n: nat, colors: Seq<u8>, order: Seq<usize>) -> (
    Seq<u8>,
    Seq<usize>,
    bool,
)
    decreases n - root,
{
    if root >= n {
        (colors, order, true)
    } else {
        let r = dfs_visit(pairs, root as usize, colors, order, white_count(colors) + 1);
        if r.2 {
            dfs_roots(pairs, root + 1, n, r.0, r.1)
        } else {
            r
        }
    }
}

/// The depth-first post-order of the nodes `0..n`, roots in index order and
/// the sources of the edges into a node in edge order.
pub open spec fn dfs_order(pairs: Seq<(usize, usize)>, n: nat) -> Seq<usize> {
    dfs_roots(pairs, 0, n, Seq::new(n, |i: int| 0u8), Seq::empty()).1
}

/// Colours of `0..colors.len()` are at most 2.
pub open spec fn colors_valid(colors: Seq<u8>) -> bool {
    forall|x: usize| x < colors.len() ==> #[trigger] colors[x as int] <= 2
}

/// What a search leaves of `colors`: the same length, valid colours and no
/// node turned unvisited again.
pub open spec fn colors_after(colors: Seq<u8>, after: Seq<u8>) -> bool {
    &&& after.len() == colors.len()
    &&& colors_valid(after)
    &&& forall|x: int| 0 <= x < colors.len() && after[x] == 0 ==> #[trigger] colors[x] == 0
}

proof fn lemma_colors_after_trans(a: Seq<u8>, b: Seq<u8>, c: Seq<u8>)
    requires
        colors_after(a, b),
        colors_after(b, c),
    ensures
        colors_after(a, c),
{
    assert forall|x: int| 0 <= x < a.len() && c[x] == 0 implies #[trigger] a[x] == 0 by {
        assert(b[x] == 0);
    }
}

/// Any fuel above the number of unvisited nodes gives the same visit.
proof fn lemma_dfs_visit_fuel(
    pairs: Seq<(usize, usize)>,
    id: usize,
    colors: Seq<u8>,
    order: Seq<usize>,
    f1: nat,
    f2: nat,
)
    requires
        edges_within(pairs, colors.len()),
        id < colors.len(),
        colors_valid(colors),
        f1 > white_count(colors),
        f2 > white_count(colors),
    ensures
        dfs_visit(pairs, id, colors, order, f1) == dfs_visit(pairs, id, colors, order, f2),
        colors_after(colors, dfs_visit(pairs, id, colors, order, f1).0),
    decreases f1, 0nat, 0nat,
{
    if colors[id as int] == 0 {
        let g = colors.update(id as int, 1);
        lemma_white_count_le(colors, g);
        assert(colors_valid(g));
        lemma_dfs_scan_fuel(pairs, id, 0, g, order, (f1 - 1) as nat, (f2 - 1) as nat);
        let r = dfs_scan(pairs, id, 0, g, order, (f1 - 1) as nat);
        assert(colors_after(colors, g)) by {
            assert forall|x: int| 0 <= x < colors.len() && g[x] == 0 implies #[trigger] colors[x] == 0 by {}
        }
        lemma_colors_after_trans(colors, g, r.0);
        if r.2 {
            let fin = r.0.update(id as int, 2);
            assert(colors_after(r.0, fin)) by {
                assert forall|x: usize| x < fin.len() implies #[trigger] fin[x as int] <= 2 by {
                    if x != id {
                        assert(fin[x as int] == r.0[x as int]);
                    }
                }
                assert forall|x: int| 0 <= x < r.0.len() && fin[x] == 0 implies #[trigger] r.0[x] == 0 by {}
            }
            lemma_colors_after_trans(colors, r.0, fin);
        }
    }
}

proof fn lemma_dfs_scan_fuel(
    pairs: Seq<(usize, usize)>,
    id: usize,
    k: nat,
    colors: Seq<u8>,
    order: Seq<usize>,
    f1: nat,
    f2: nat,
)
    requires
        edges_within(pairs, colors.len()),
        colors_valid(colors),
        f1 > white_count(colors),
        f2 > white_count(colors),
    ensures
        dfs_scan(pairs, id, k, colors, order, f1) == dfs_scan(pairs, id, k, colors, order, f2),
        colors_after(colors, dfs_scan(pairs, id, k, colors, order, f1).0),
    decreases f1, 1nat, pairs.len() - k,
{
    if k < pairs.len() {
        if pairs[k as int].1 == id {
            lemma_dfs_visit_fuel(pairs, pairs[k as int].0, colors, order, f1, f2);
            let r = dfs_visit(pairs, pairs[k as int].0, colors, order, f1);
            if r.2 {
                lemma_white_count_le(colors, r.0);
                lemma_dfs_scan_fuel(pairs, id, k + 1, r.0, r.1, f1, f2);
                lemma_colors_after_trans(colors, r.0, dfs_scan(pairs, id, k + 1, r.0, r.1, f1).0);
            }
        } else {
            lemma_dfs_scan_fuel(pairs, id, k + 1, colors, order, f1, f2);
        }
    } else {
        assert(colors_after(colors, colors));
    }
}

/// Visits `id` and, before finishing it, every node with an edge into it;
/// false when the search meets a node that is still on the stack.
fn visit(
    id: usize,
    pairs: &Vec<(usize, usize)>,
    colors: &mut Vec<u8>,
    order: &mut Vec<usize>,
    Ghost(stack): Ghost<Seq<usize>>,
) -> (ok: bool)
    requires
        id < old(colors)@.len(),
        search_state(pairs@, old(colors)@, old(order)@, stack),
        stack.len() > 0 ==> linked(pairs@, id as int, stack[stack.len() - 1] as int),
    ensures
        ok ==> search_state(pairs@, final(colors)@, final(order)@, stack),
        ok ==> final(colors)@[id as int] == 2,
        ok ==> colors_grow(old(colors)@, final(colors)@),
        ok ==> dfs_visit(pairs@, id, old(colors)@, old(order)@, white_count(old(colors)@) + 1) == (
            final(colors)@,
            final(order)@,
            true,
        ),
        !ok ==> has_cycle(pairs@),
    decreases white_count(old(colors)@),
{
    let c = colors[id];
    if c == 2 {
        return true;
    }
    if c == 1 {
        proof {
            assert(stack.contains(id));
            let j = choose|j: int| 0 <= j < stack.len() && stack[j] == id;
            lemma_stack_cycle(pairs@, stack, j);
        }
        return false;
    }
    let ghost c0 = colors@;
    let ghost o0 = order@;
    let ghost fuel: nat = white_count(c0);
    let ghost st = stack.push(id);
    colors.set(id, 1);
    proof {
        assert(!stack.contains(id));
        assert forall|x: usize| x < colors@.len() implies (colors@[x as int] == 1 <==> #[trigger] st.contains(x)) by {
            if x == id {
                assert(st[st.len() - 1] == id);
            } else {
                assert(colors@[x as int] == c0[x as int]);
                if stack.contains(x) {
                    let j = choose|j: int| 0 <= j < stack.len() && stack[j] == x;
                    assert(st[j] == x);
                }
                if st.contains(x) {
                    let j = choose|j: int| 0 <= j < st.len() && st[j] == x;
                    assert(stack[j] == x);
                }
            }
        }
        assert forall|x: usize| x < colors@.len() implies (colors@[x as int] == 2 <==> #[trigger] order@.contains(x)) by {
            if x != id {
                assert(colors@[x as int] == c0[x as int]);
            }
        }
        assert forall|x: usize| x < colors@.len() implies #[trigger] colors@[x as int] <= 2 by {
            if x != id {
                assert(colors@[x as int] == c0[x as int]);
            }
        }
        lemma_stack_push(pairs@, stack, id);
        assert forall|i: int| 0 <= i < st.len() implies st[i] < colors@.len() by {
            if i < stack.len() {
                assert(st[i] == stack[i]);
            }
        }
        lemma_white_count_le(c0, colors@);
    }
    let mut k: usize = 0;
    while k < pairs.len()
        invariant
            k <= pairs@.len(),
            id < colors@.len(),
            st == stack.push(id),
            colors@[id as int] == 1,
            search_state(pairs@, colors@, order@, st),
            colors_grow(c0, colors@),
            c0 == old(colors)@,
            c0[id as int] == 0,
            white_count(colors@) < white_count(old(colors)@),
            forall|k2: int|
                0 <= k2 < k && #[trigger] pairs@[k2].1 == id ==> colors@[pairs@[k2].0 as int] == 2,
            fuel == white_count(c0),
            o0 == old(order)@,
            dfs_scan(pairs@, id, k as nat, colors@, order@, fuel) == dfs_scan(
                pairs@,
                id,
                0,
                c0.update(id as int, 1),
                o0,
                fuel,
            ),
        decreases pairs.len() - k,
    {
        let (src, tgt) = pairs[k];
        let ghost before = colors@;
        let ghost ob = order@;
        if tgt == id {
            proof {
                assert(linked(pairs@, src as int, id as int));
                assert(pairs@[k as int].0 < colors@.len());
                assert(st[st.len() - 1] == id);
            }
            let ok = visit(src, pairs, colors, order, Ghost(st));
            if !ok {
                return false;
            }
            proof {
                lemma_dfs_visit_fuel(pairs@, src, before, ob, white_count(before) + 1, fuel);
                lemma_white_count_le(before, colors@);
                assert forall|k2: int|
                    0 <= k2 < k + 1 && #[trigger] pairs@[k2].1 == id implies colors@[pairs@[k2].0 as int] == 2 by {
                    if k2 < k {
                        assert(pairs@[k2].0 < before.len());
                        assert(before[pairs@[k2].0 as int] == 2);
                    }
                }
                assert forall|x: int| 0 <= x < c0.len() && c0[x] != 0 implies #[trigger] colors@[x] == c0[x] by {
                    assert(before[x] == c0[x]);
                }
            }
        }
        assert(dfs_scan(pairs@, id, k as nat, before, ob, fuel) == dfs_scan(
            pairs@,
            id,
            (k + 1) as nat,
            colors@,
            order@,
            fuel,
        ));
        k = k + 1;
    }
    let ghost c1 = colors@;
    let ghost o1 = order@;
    assert(dfs_scan(pairs@, id, k as nat, c1, o1, fuel) == (c1, o1, true));
    colors.set(id, 2);
    order.push(id);
    assert(dfs_visit(pairs@, id, c0, o0, fuel + 1) == (colors@, order@, true));
    proof {
        assert(!o1.contains(id));
        assert forall|x: usize| x < colors@.len() implies (colors@[x as int] == 2 <==> #[trigger] order@.contains(x)) by {
            if x != id {
                assert(colors@[x as int] == c1[x as int]);
                if order@.contains(x) {
                    let j = choose|j: int| 0 <= j < order@.len() && order@[j] == x;
                    assert(o1[j] == x);
                }
                if o1.contains(x) {
                    let j = choose|j: int| 0 <= j < o1.len() && o1[j] == x;
                    assert(order@[j] == x);
                }
            } else {
                assert(order@[order@.len() - 1] == id);
            }
        }
        assert forall|x: usize| x < colors@.len() implies (colors@[x as int] == 1 <==> #[trigger] stack.contains(x)) by {
            if x != id {
                assert(colors@[x as int] == c1[x as int]);
                if stack.contains(x) {
                    let j = choose|j: int| 0 <= j < stack.len() && stack[j] == x;
                    assert(st[j] == x);
                }
                if st.contains(x) {
                    let j = choose|j: int| 0 <= j < st.len() && st[j] == x;
                    if j < stack.len() {
                        assert(stack[j] == x);
                    }
                }
            } else {
                if stack.contains(id) {
                    let j = choose|j: int| 0 <= j < stack.len() && stack[j] == id;
                    assert(st.contains(id));
                }
            }
        }
        assert forall|x: usize| x < colors@.len() implies #[trigger] colors@[x as int] <= 2 by {
            if x != id {
                assert(colors@[x as int] == c1[x as int]);
            }
        }
        assert forall|i: int, j: int| 0 <= i && j == i + 1 && j < stack.len() implies #[trigger] linked(
            pairs@,
            stack[j] as int,
            stack[i] as int,
        ) by {
            assert(st[j] == stack[j] && st[i] == stack[i]);
            assert(linked(pairs@, st[j] as int, st[i] as int));
        }
        assert forall|i: int| 0 <= i < stack.len() implies stack[i] < colors@.len() by {
            assert(st[i] == stack[i]);
        }
        assert forall|q: int, u: int|
            0 <= q < order@.len() && #[trigger] linked(pairs@, u, order@[q] as int) implies exists|p: int|
                0 <= p < q && #[trigger] order@[p] == u by {
            if q < o1.len() {
                assert(order@[q] == o1[q]);
                assert(linked(pairs@, u, o1[q] as int));
                let p = choose|p: int| 0 <= p < q && #[trigger] o1[p] == u;
                assert(order@[p] == o1[p]);
            } else {
                let k2 = choose|k2: int|
                    0 <= k2 < pairs@.len() && pairs@[k2].0 == u && pairs@[k2].1 == order@[q] as int;
                assert(pairs@[k2].1 == id);
                assert(c1[pairs@[k2].0 as int] == 2);
                let y = pairs@[k2].0;
                assert(o1.contains(y));
                let p = choose|p: int| 0 <= p < o1.len() && o1[p] == y;
                assert(order@[p] == o1[p]);
            }
        }
        assert forall|a: int, b: int| 0 <= a < order@.len() && 0 <= b < order@.len() && a != b implies order@[a] != order@[b] by {
            if a < o1.len() && b < o1.len() {
                assert(order@[a] == o1[a] && order@[b] == o1[b]);
            } else if a < o1.len() {
                assert(order@[a] == o1[a]);
                assert(o1.contains(order@[a]));
            } else if b < o1.len() {
                assert(order@[b] == o1[b]);
                assert(o1.contains(order@[b]));
            }
        }
        assert forall|i: int| 0 <= i < order@.len() implies order@[i] < colors@.len() by {
            if i < o1.len() {
                assert(order@[i] == o1[i]);
            }
        }
    }
    true
}

/// A topological order of the nodes `0..n` (roots taken in index order, each
/// node after the nodes with edges into it), or `None` when the graph has a
/// cycle. The order is the depth-first post-order `dfs_order`.
pub fn topo_sort(n: usize, pairs: &Vec<(usize, usize)>) -> (r: Option<Vec<usize>>)
    requires
        edges_within(pairs@, n as nat),
    ensures
        r is None <==> has_cycle(pairs@),
        r matches Some(order) ==> is_topological(pairs@, n as nat, order@),
        r matches Some(order) ==> order@ == dfs_order(pairs@, n as nat),
{
    let mut colors: Vec<u8> = Vec::new();
    let mut i: usize = 0;
    while i < n
        invariant
            i <= n,
            colors@.len() == i,
            forall|x: int| 0 <= x < i ==> colors@[x] == 0,
        decreases n - i,
    {
        colors.push(0);
        i = i + 1;
    }
    let mut order: Vec<usize> = Vec::new();
    let ghost empty = Seq::<usize>::empty();
    proof {
        assert forall|x: usize| x < n implies (colors@[x as int] == 2 <==> #[trigger] order@.contains(x)) by {
        }
        assert forall|x: usize| x < n implies (colors@[x as int] == 1 <==> #[trigger] empty.contains(x)) by {
        }
    }
    let mut root: usize = 0;
    assert(colors@ =~= Seq::new(n as nat, |i: int| 0u8));
    assert(order@ =~= Seq::<usize>::empty());
    while root < n
        invariant
            root <= n,
            colors@.len() == n,
            search_state(pairs@, colors@, order@, empty),
            empty == Seq::<usize>::empty(),
            forall|x: int| 0 <= x < root ==> colors@[x] == 2,
            dfs_roots(pairs@, root as nat, n as nat, colors@, order@) == dfs_roots(
                pairs@,
                0,
                n as nat,
                Seq::new(n as nat, |i: int| 0u8),
                Seq::empty(),
            ),
        decreases n - root,
    {
        let ghost before = colors@;
        let ghost ob = order@;
        let ok = visit(root, pairs, &mut colors, &mut order, Ghost(empty));
        if !ok {
            return None;
        }
        assert(dfs_roots(pairs@, root as nat, n as nat, before, ob) == dfs_roots(
            pairs@,
            (root + 1) as nat,
            n as nat,
            colors@,
            order@,
        ));
        proof {
            assert forall|x: int| 0 <= x < root + 1 implies colors@[x] == 2 by {
                if x < root {
                    assert(before[x] == 2);
                }
            }
        }
        root = root + 1;
    }
    assert(dfs_roots(pairs@, root as nat, n as nat, colors@, order@) == (colors@, order@, true));
    proof {
        assert forall|x: usize| x < n implies #[trigger] order@.contains(x) by {
            assert(colors@[x as int] == 2);
        }
        assert forall|p: int, q: int|
            0 <= p < order@.len() && 0 <= q < order@.len() && #[trigger] linked(
                pairs@,
                order@[p] as int,
                order@[q] as int,
            ) implies p < q by {
            let p2 = choose|p2: int| 0 <= p2 < q && #[trigger] order@[p2] == order@[p] as int;
            assert(p2 == p) by {
                if p2 != p {
                    assert(order@.no_duplicates());
                }
            }
        }
        lemma_topological_acyclic(pairs@, n as nat, order@);
    }
    Some(order)
}

} // verus!
