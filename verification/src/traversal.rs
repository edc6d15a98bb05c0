//! Breadth-first discovery over adjacency lists, as a mathematical function.
//!
//! `frontier(adj, root, n)` is the list of nodes discovered once `n` nodes
//! have been taken from the queue: the first `n` entries have been expanded,
//! the rest is the queue.

use vstd::prelude::*;

verus! {

/// The entries of `list` that are not in `seen`, each once, in the order in
/// which they first occur.
pub open spec fn discover(list: Seq<u32>, seen: Set<u32>) -> Seq<u32>
    decreases list.len(),
{
    if list.len() == 0 {
        Seq::empty()
    } else {
        let rest = discover(list.drop_last(), seen);
        if seen.contains(list.last()) || rest.contains(list.last()) {
            rest
        } else {
            rest.push(list.last())
        }
    }
}

/// The adjacency list of `k`, empty where none is given.
pub open spec fn links_of(adj: Map<u32, Seq<u32>>, k: u32) -> Seq<u32> {
    if adj.contains_key(k) {
        adj[k]
    } else {
        Seq::empty()
    }
}

/// The nodes discovered from `root` once `n` of them have been expanded, in
/// the order of their discovery.
pub open spec fn frontier(adj: Map<u32, Seq<u32>>, root: u32, n: nat) -> Seq<u32>
    decreases n,
{
    if n == 0 {
        seq![root]
    } else {
        let prev = frontier(adj, root, (n - 1) as nat);
        if prev.len() < n {
            prev
        } else {
            prev + discover(links_of(adj, prev[n - 1]), prev.to_set())
        }
    }
}

/// The nodes that `k` was the first to reach, given the discovery order.
pub open spec fn found_by(adj: Map<u32, Seq<u32>>, root: u32, n: nat) -> Seq<u32> {
    let prev = frontier(adj, root, n);
    if prev.len() <= n {
        Seq::empty()
    } else {
        discover(links_of(adj, prev[n as int]), prev.to_set())
    }
}

/// What `discover` returns: new nodes only, none twice, all from the list,
/// and with them every entry of the list is seen.
pub proof fn lemma_discover(list: Seq<u32>, seen: Set<u32>)
    ensures
        discover(list, seen).no_duplicates(),
        discover(list, seen).len() <= list.len(),
        forall|v: u32| #[trigger]
            discover(list, seen).contains(v) <==> list.contains(v) && !seen.contains(v),
    decreases list.len(),
{
    if list.len() > 0 {
        let rest = discover(list.drop_last(), seen);
        let last = list.last();
        lemma_discover(list.drop_last(), seen);
        let out = discover(list, seen);
        assert forall|v: u32| #[trigger] out.contains(v) <==> list.contains(v) && !seen.contains(v) by {
            if out.contains(v) {
                if rest.contains(v) {
                    let i = choose|i: int| 0 <= i < list.drop_last().len() && list.drop_last()[i] == v;
                    assert(list[i] == v);
                } else {
                    assert(out == rest.push(last));
                    let i = choose|i: int| 0 <= i < out.len() && out[i] == v;
                    assert(v == last);
                    assert(list[list.len() - 1] == v);
                }
            }
            if list.contains(v) && !seen.contains(v) {
                let i = choose|i: int| 0 <= i < list.len() && list[i] == v;
                if i < list.len() - 1 {
                    assert(list.drop_last()[i] == v);
                    assert(rest.contains(v));
                    let j = choose|j: int| 0 <= j < rest.len() && rest[j] == v;
                    assert(out[j] == v);
                } else {
                    assert(v == last);
                    if !rest.contains(v) {
                        assert(out[out.len() - 1] == v);
                    }
                }
            }
        }
    }
}

/// Scanning one entry more extends what was discovered by at most that
/// entry.
pub proof fn lemma_discover_push(list: Seq<u32>, v: u32, seen: Set<u32>)
    ensures
        discover(list.push(v), seen) == if seen.contains(v) || discover(list, seen).contains(v) {
            discover(list, seen)
        } else {
            discover(list, seen).push(v)
        },
{
    assert(list.push(v).drop_last() =~= list);
}

/// The discovery order never lists a node twice, starts at the root, and
/// only grows as more nodes are expanded.
pub proof fn lemma_frontier(adj: Map<u32, Seq<u32>>, root: u32, n: nat)
    ensures
        frontier(adj, root, n).no_duplicates(),
        frontier(adj, root, n).len() >= 1,
        frontier(adj, root, n)[0] == root,
        forall|m: nat|
            m <= n ==> (#[trigger] frontier(adj, root, m)).is_prefix_of(frontier(adj, root, n)),
    decreases n,
{
    if n == 0 {
        assert(frontier(adj, root, 0) =~= seq![root]);
    } else {
        let prev = frontier(adj, root, (n - 1) as nat);
        lemma_frontier(adj, root, (n - 1) as nat);
        let cur = frontier(adj, root, n);
        if prev.len() >= n {
            let fresh = discover(links_of(adj, prev[n - 1]), prev.to_set());
            lemma_discover(links_of(adj, prev[n - 1]), prev.to_set());
            assert(cur == prev + fresh);
            assert forall|i: int, j: int| 0 <= i < j < cur.len() implies cur[i] != cur[j] by {
                if j >= prev.len() {
                    let v = fresh[j - prev.len()];
                    assert(fresh.contains(v));
                    if i < prev.len() {
                        assert(prev.contains(cur[i]));
                    }
                }
            }
        }
        assert(prev.is_prefix_of(cur));
        assert forall|m: nat| m <= n implies (#[trigger] frontier(adj, root, m)).is_prefix_of(cur) by {
            if m < n {
                assert(frontier(adj, root, m).is_prefix_of(prev));
            }
        }
    }
}

/// Once every discovered node has been expanded, expanding further changes
/// nothing.
pub proof fn lemma_frontier_settled(adj: Map<u32, Seq<u32>>, root: u32, n: nat, m: nat)
    requires
        frontier(adj, root, n).len() <= n,
        n <= m,
    ensures
        frontier(adj, root, m) == frontier(adj, root, n),
    decreases m,
{
    if m > n {
        lemma_frontier_settled(adj, root, n, (m - 1) as nat);
    }
}

/// A list of distinct numbers below `bound` has at most `bound` entries.
pub proof fn lemma_bounded_distinct(s: Seq<u32>, bound: nat)
    requires
        s.no_duplicates(),
        forall|i: int| 0 <= i < s.len() ==> s[i] < bound,
    ensures
        s.len() <= bound,
    decreases bound,
{
    if bound == 0 {
        if s.len() > 0 {
            assert(s[0] < bound);
        }
    } else {
        let top = (bound - 1) as u32;
        if s.contains(top) && bound - 1 <= u32::MAX {
            let i = s.index_of(top);
            let t = s.remove(i);
            assert forall|a: int, b: int| 0 <= a < b < t.len() implies t[a] != t[b] by {
                let a0 = if a < i { a } else { a + 1 };
                let b0 = if b < i { b } else { b + 1 };
                assert(s[a0] != s[b0]);
            }
            assert forall|a: int| 0 <= a < t.len() implies t[a] < bound - 1 by {
                let a0 = if a < i { a } else { a + 1 };
                assert(s[a0] != s[i]);
            }
            lemma_bounded_distinct(t, (bound - 1) as nat);
        } else {
            assert forall|a: int| 0 <= a < s.len() implies s[a] < bound - 1 by {
                if s[a] == bound - 1 {
                    assert(s.contains(top));
                }
            }
            lemma_bounded_distinct(s, (bound - 1) as nat);
        }
    }
}

/// A walk along edges: every node but the first is at the end of an edge
/// that leaves the node before it.
pub open spec fn is_path(adj: Map<u32, Seq<u32>>, path: Seq<u32>) -> bool {
    path.len() >= 1 && forall|i: int|
        0 <= i < path.len() - 1 ==> links_of(adj, path[i]).contains(#[trigger] path[i + 1])
}

/// Whether edges lead from `root` to `v`.
pub open spec fn reachable(adj: Map<u32, Seq<u32>>, root: u32, v: u32) -> bool {
    exists|path: Seq<u32>| is_path(adj, path) && path[0] == root && #[trigger] path.last() == v
}

/// Every node that is discovered can be reached from the root.
pub proof fn lemma_frontier_sound(adj: Map<u32, Seq<u32>>, root: u32, n: nat, v: u32)
    requires
        frontier(adj, root, n).contains(v),
    ensures
        reachable(adj, root, v),
    decreases n,
{
    if n == 0 {
        let path = seq![root];
        assert(is_path(adj, path) && path[0] == root && path.last() == v);
    } else {
        let prev = frontier(adj, root, (n - 1) as nat);
        if prev.contains(v) {
            lemma_frontier_sound(adj, root, (n - 1) as nat, v);
        } else {
            let u = prev[n - 1];
            let fresh = discover(links_of(adj, u), prev.to_set());
            let x = choose|x: int| 0 <= x < (prev + fresh).len() && (prev + fresh)[x] == v;
            if x < prev.len() {
                assert(prev[x] == v);
            }
            assert(fresh[x - prev.len()] == v);
            assert(fresh.contains(v));
            lemma_discover(links_of(adj, u), prev.to_set());
            assert(prev.contains(u));
            lemma_frontier_sound(adj, root, (n - 1) as nat, u);
            let path = choose|path: Seq<u32>| is_path(adj, path) && path[0] == root && #[trigger] path.last() == u;
            let longer = path.push(v);
            assert forall|i: int| 0 <= i < longer.len() - 1 implies links_of(adj, longer[i]).contains(
                #[trigger] longer[i + 1],
            ) by {
                if i < path.len() - 1 {
                    assert(links_of(adj, path[i]).contains(path[i + 1]));
                }
            }
            assert(is_path(adj, longer) && longer[0] == root && longer.last() == v);
        }
    }
}

/// Once every node discovered has been expanded, the nodes that the edges
/// of a discovered node lead to are discovered.
pub proof fn lemma_frontier_closed(adj: Map<u32, Seq<u32>>, root: u32, n: nat, u: u32, v: u32)
    requires
        frontier(adj, root, n).len() <= n,
        frontier(adj, root, n).contains(u),
        links_of(adj, u).contains(v),
    ensures
        frontier(adj, root, n).contains(v),
{
    let all = frontier(adj, root, n);
    let k = choose|k: int| 0 <= k < all.len() && all[k] == u;
    let before = frontier(adj, root, k as nat);
    let after = frontier(adj, root, (k + 1) as nat);
    lemma_frontier(adj, root, n);
    assert(before.is_prefix_of(all));
    assert(after.is_prefix_of(all));
    if before.len() <= k {
        lemma_frontier_settled(adj, root, k as nat, n);
    }
    assert(before[k] == u);
    lemma_discover(links_of(adj, u), before.to_set());
    let fresh = discover(links_of(adj, u), before.to_set());
    if before.to_set().contains(v) {
        let x = choose|x: int| 0 <= x < before.len() && before[x] == v;
        assert(all[x] == v);
    } else {
        assert(fresh.contains(v));
        let x = choose|x: int| 0 <= x < fresh.len() && fresh[x] == v;
        assert(after[before.len() + x] == v);
        assert(all[before.len() + x] == v);
    }
}

/// Once every node discovered has been expanded, every node that can be
/// reached from the root is discovered.
pub proof fn lemma_frontier_complete(adj: Map<u32, Seq<u32>>, root: u32, n: nat, v: u32)
    requires
        frontier(adj, root, n).len() <= n,
        reachable(adj, root, v),
    ensures
        frontier(adj, root, n).contains(v),
{
    let path = choose|path: Seq<u32>| is_path(adj, path) && path[0] == root && #[trigger] path.last() == v;
    lemma_path_inside(adj, root, n, path, path.len() - 1);
}

/// Every node of a walk from the root is discovered.
proof fn lemma_path_inside(adj: Map<u32, Seq<u32>>, root: u32, n: nat, path: Seq<u32>, i: int)
    requires
        frontier(adj, root, n).len() <= n,
        is_path(adj, path),
        path[0] == root,
        0 <= i < path.len(),
    ensures
        frontier(adj, root, n).contains(path[i]),
    decreases i,
{
    lemma_frontier(adj, root, n);
    if i == 0 {
        assert(frontier(adj, root, n)[0] == root);
    } else {
        lemma_path_inside(adj, root, n, path, i - 1);
        assert(links_of(adj, path[i - 1]).contains(path[i - 1 + 1]));
        lemma_frontier_closed(adj, root, n, path[i - 1], path[i]);
    }
}

} // verus!
