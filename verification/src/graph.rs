//! The dependency orderer: a depth-first traversal of the file dependency
//! graph that emits every file reachable from the given roots exactly once,
//! with each file's dependencies emitted before the file itself wherever the
//! graph permits it (a cycle is tolerated: its members are emitted once, in
//! first-visit order).
use vstd::prelude::*;
use vstd::set_lib::lemma_len_subset;

verus! {

broadcast use vstd::seq_lib::group_seq_properties, vstd::seq_lib::seq_to_set_is_finite;

/// One row of the dependency graph: a file and the files it depends on.
pub struct DepEntry {
    pub id: u64,
    pub deps: Vec<u64>,
}

/// The dependency graph: one entry per file, keyed by file identifier.
pub struct DepMap {
    pub entries: Vec<DepEntry>,
}

/// A sequence of identifiers that is strictly increasing (sorted, no repeats).
pub open spec fn sorted_strict(s: Seq<u64>) -> bool {
    forall|i: int, j: int| 0 <= i < j < s.len() ==> s[i] < s[j]
}

/// No identifier occurs twice in `s`.
pub open spec fn no_dups(s: Seq<u64>) -> bool {
    forall|i: int, j: int| 0 <= i < s.len() && 0 <= j < s.len() && i != j ==> s[i] != s[j]
}

impl DepMap {
    /// Entries are sorted strictly by id (so ids are unique), and each
    /// dependency list is itself sorted and duplicate-free.
    pub open spec fn wf(self) -> bool {
        &&& forall|i: int, j: int|
            0 <= i < j < self.entries@.len() ==> self.entries@[i].id < self.entries@[j].id
        &&& forall|i: int| 0 <= i < self.entries@.len() ==> sorted_strict(#[trigger] self.entries@[i].deps@)
    }
}

/// The graph has a row for file `a`.
pub open spec fn has_entry(es: Seq<DepEntry>, a: u64) -> bool {
    exists|i: int| 0 <= i < es.len() && es[i].id == a
}

/// File `a` depends directly on file `b`.
pub open spec fn edge(es: Seq<DepEntry>, a: u64, b: u64) -> bool {
    exists|i: int| 0 <= i < es.len() && es[i].id == a && es[i].deps@.contains(b)
}

/// `p` is a non-empty walk along dependency edges.
pub open spec fn is_path(es: Seq<DepEntry>, p: Seq<u64>) -> bool {
    p.len() >= 1 && forall|i: int, j: int|
        0 <= i && j == i + 1 && j < p.len() ==> #[trigger] edge(es, p[i], p[j])
}

/// File `b` is `a` itself or transitively depended on by `a`.
pub open spec fn reaches(es: Seq<DepEntry>, a: u64, b: u64) -> bool {
    exists|p: Seq<u64>| is_path(es, p) && p.first() == a && p.last() == b
}

/// Some root reaches `b`.
pub open spec fn reaches_any(es: Seq<DepEntry>, roots: Seq<u64>, b: u64) -> bool {
    exists|i: int| 0 <= i < roots.len() && reaches(es, roots[i], b)
}

/// No non-trivial walk returns to its starting file.
pub open spec fn acyclic(es: Seq<DepEntry>) -> bool {
    forall|p: Seq<u64>| !(is_path(es, p) && p.len() >= 2 && p.first() == p.last())
}

pub proof fn lemma_reaches_self(es: Seq<DepEntry>, a: u64)
    ensures
        reaches(es, a, a),
{
    let p = seq![a];
    assert(is_path(es, p) && p.first() == a && p.last() == a);
}

pub proof fn lemma_edge_then_reaches(es: Seq<DepEntry>, a: u64, b: u64, c: u64)
    requires
        edge(es, a, b),
        reaches(es, b, c),
    ensures
        reaches(es, a, c),
{
    let p = choose|p: Seq<u64>| is_path(es, p) && p.first() == b && p.last() == c;
    let q = seq![a] + p;
    assert(q.len() == 1 + p.len());
    assert(q[0] == a && q[1] == p[0]);
    assert forall|i: int, j: int| 0 <= i && j == i + 1 && j < q.len() implies #[trigger] edge(
        es,
        q[i],
        q[j],
    ) by {
        if i == 0 {
            assert(q[0] == a && q[1] == p.first());
            assert(edge(es, a, b));
        } else {
            let i0 = i - 1;
            assert(q[i] == p[i0] && q[j] == p[i0 + 1]);
            assert(edge(es, p[i0], p[i0 + 1]));
        }
    }
    assert(q.last() == p.last());
    assert(is_path(es, q) && q.first() == a && q.last() == c);
}

pub proof fn lemma_reaches_then_edge(es: Seq<DepEntry>, a: u64, b: u64, c: u64)
    requires
        reaches(es, a, b),
        edge(es, b, c),
    ensures
        reaches(es, a, c),
{
    let p = choose|p: Seq<u64>| is_path(es, p) && p.first() == a && p.last() == b;
    let q = p + seq![c];
    assert(q.len() == p.len() + 1);
    assert forall|i: int, j: int| 0 <= i && j == i + 1 && j < q.len() implies #[trigger] edge(
        es,
        q[i],
        q[j],
    ) by {
        if i < p.len() - 1 {
            assert(q[i] == p[i] && q[j] == p[i + 1]);
            assert(edge(es, p[i], p[i + 1]));
        } else {
            assert(i == p.len() - 1);
            assert(q[i] == p.last() && q[j] == c);
            assert(edge(es, b, c));
        }
    }
    assert(q.first() == p.first());
    assert(q.last() == c);
    assert(is_path(es, q) && q.first() == a && q.last() == c);
}

/// In an acyclic graph no dependency of `a` can reach `a` back.
pub proof fn lemma_acyclic_no_back_edge(es: Seq<DepEntry>, a: u64, b: u64)
    requires
        acyclic(es),
        edge(es, a, b),
    ensures
        !reaches(es, b, a),
{
    if reaches(es, b, a) {
        let p = choose|p: Seq<u64>| is_path(es, p) && p.first() == b && p.last() == a;
        let q = seq![a] + p;
        assert(q[0] == a && q[1] == p[0]);
        assert forall|i: int, j: int| 0 <= i && j == i + 1 && j < q.len() implies #[trigger] edge(
            es,
            q[i],
            q[j],
        ) by {
            if i == 0 {
                assert(q[0] == a && q[1] == p.first());
                assert(edge(es, a, b));
            } else {
                let i0 = i - 1;
                assert(q[i] == p[i0] && q[j] == p[i0 + 1]);
                assert(edge(es, p[i0], p[i0 + 1]));
            }
        }
        assert(q.last() == p.last());
        assert(is_path(es, q) && q.len() >= 2 && q.first() == q.last());
    }
}

/// Every file on a path starting inside an edge-closed set stays inside it.
pub proof fn lemma_path_stays_in_closed(es: Seq<DepEntry>, q: Seq<u64>, p: Seq<u64>)
    requires
        is_path(es, p),
        q.contains(p.first()),
        forall|x: u64, b: u64| q.contains(x) && edge(es, x, b) ==> q.contains(b),
    ensures
        q.contains(p.last()),
    decreases p.len(),
{
    if p.len() == 1 {
        assert(p.last() == p.first());
    } else {
        let z: int = 0;
        assert(edge(es, p[z], p[z + 1]));
        let p2 = p.drop_first();
        assert forall|i: int, j: int| 0 <= i && j == i + 1 && j < p2.len() implies #[trigger] edge(
            es,
            p2[i],
            p2[j],
        ) by {
            let i1 = i + 1;
            assert(p2[i] == p[i1] && p2[j] == p[i1 + 1]);
            assert(edge(es, p[i1], p[i1 + 1]));
        }
        assert(is_path(es, p2));
        assert(p2.first() == p[1]);
        assert(q.contains(p2.first()));
        lemma_path_stays_in_closed(es, q, p2);
        assert(p2.last() == p.last());
    }
}

/// The set of every identifier that occurs in the graph, as a row key or as
/// a dependency.
pub open spec fn node_set(es: Seq<DepEntry>) -> Set<u64>
    decreases es.len(),
{
    if es.len() == 0 {
        Set::empty()
    } else {
        node_set(es.drop_last()).union(es.last().deps@.to_set().insert(es.last().id))
    }
}

pub proof fn lemma_node_set(es: Seq<DepEntry>)
    ensures
        node_set(es).finite(),
        forall|i: int| 0 <= i < es.len() ==> node_set(es).contains(#[trigger] es[i].id),
        forall|i: int, b: u64|
            0 <= i < es.len() && #[trigger] es[i].deps@.contains(b) ==> node_set(es).contains(b),
    decreases es.len(),
{
    broadcast use vstd::seq_lib::seq_to_set_is_finite;

    if es.len() == 0 {
    } else {
        let es2 = es.drop_last();
        lemma_node_set(es2);
        assert forall|i: int| 0 <= i < es.len() implies node_set(es).contains(#[trigger] es[i].id) by {
            if i < es.len() - 1 {
                assert(es2[i] == es[i]);
                assert(node_set(es2).contains(es[i].id));
            }
        }
        assert forall|i: int, b: u64|
            0 <= i < es.len() && #[trigger] es[i].deps@.contains(b) implies node_set(es).contains(b) by {
            if i < es.len() - 1 {
                assert(es2[i] == es[i]);
                assert(node_set(es2).contains(b));
            } else {
                assert(es.last().deps@.to_set().contains(b));
            }
        }
    }
}

/// The dependency list of `node`, empty when the graph has no row for it.
pub open spec fn deps_seq(es: Seq<DepEntry>, node: u64) -> Seq<u64> {
    if has_entry(es, node) {
        es[choose|i: int| 0 <= i < es.len() && es[i].id == node].deps@
    } else {
        Seq::empty()
    }
}

/// One visit of the traversal, as a mathematical function: an unseen file
/// is marked, its dependencies are visited, then it is emitted. The fuel
/// bounds the recursion depth; any fuel beyond the number of unseen files
/// gives the same result.
pub open spec fn dfs_node(
    es: Seq<DepEntry>,
    node: u64,
    seen: Set<u64>,
    out: Seq<u64>,
    fuel: nat,
) -> (Set<u64>, Seq<u64>)
    decreases fuel, 0int, 0int,
{
    if seen.contains(node) {
        (seen, out)
    } else if fuel == 0 {
        (seen, out)
    } else {
        let r = dfs_list(es, deps_seq(es, node), seen.insert(node), out, (fuel - 1) as nat);
        (r.0, r.1.push(node))
    }
}

/// Visit a dependency list left to right.
pub open spec fn dfs_list(
    es: Seq<DepEntry>,
    ds: Seq<u64>,
    seen: Set<u64>,
    out: Seq<u64>,
    fuel: nat,
) -> (Set<u64>, Seq<u64>)
    decreases fuel, ds.len(), 1int,
{
    if ds.len() == 0 {
        (seen, out)
    } else {
        let r = dfs_node(es, ds[0], seen, out, fuel);
        dfs_list(es, ds.drop_first(), r.0, r.1, fuel)
    }
}

/// Visit the roots left to right, sharing one marker set.
pub open spec fn dfs_roots(
    es: Seq<DepEntry>,
    roots: Seq<u64>,
    seen: Set<u64>,
    out: Seq<u64>,
    fuel: nat,
) -> (Set<u64>, Seq<u64>)
    decreases roots.len(),
{
    if roots.len() == 0 {
        (seen, out)
    } else {
        let r = dfs_node(es, roots[0], seen, out, fuel);
        dfs_roots(es, roots.drop_first(), r.0, r.1, fuel)
    }
}

/// The order the traversal owes for a map and a root list: a function of
/// the two alone, so repeated runs agree.
pub open spec fn order_spec(m: DepMap, roots: Seq<u64>) -> Seq<u64> {
    let uni = node_set(m.entries@).union(roots.to_set());
    dfs_roots(m.entries@, roots, Set::empty(), Seq::empty(), (uni.len() + 1) as nat).1
}

/// Linear membership scan over a vector of file identifiers.
pub fn contains_id(v: &Vec<u64>, x: u64) -> (r: bool)
    ensures
        r == v@.contains(x),
{
    let mut i: usize = 0;
    while i < v.len()
        invariant
            0 <= i <= v.len(),
            forall|k: int| 0 <= k < i ==> v@[k] != x,
        decreases v.len() - i,
    {
        if v[i] == x {
            assert(v@.contains(x));
            return true;
        }
        i = i + 1;
    }
    assert(forall|k: int| 0 <= k < v@.len() ==> v@[k] != x);
    false
}

/// One depth-first visit. `seen` marks every file ever visited; `out`
/// receives a file after all of its dependencies have been visited. The
/// ghost set `uni` is a finite, edge-closed universe that bounds the
/// recursion. Files marked but not yet emitted are exactly the visits still
/// in progress, and each of them reaches `node`.
#[verifier::loop_isolation(false)]
fn go(m: &DepMap, node: u64, seen: Vec<u64>, out: Vec<u64>, uni: Ghost<Set<u64>>) -> (r: (
    Vec<u64>,
    Vec<u64>,
))
    requires
        m.wf(),
        uni@.finite(),
        uni@.contains(node),
        seen@.to_set().subset_of(uni@),
        forall|a: u64, b: u64| uni@.contains(a) && edge(m.entries@, a, b) ==> uni@.contains(b),
        forall|x: u64| out@.contains(x) ==> seen@.contains(x),
        no_dups(out@),
        forall|x: u64| seen@.contains(x) && !out@.contains(x) ==> reaches(m.entries@, x, node),
    ensures
        ({
            let (seen2, out2) = r;
            &&& forall|x: u64| seen@.contains(x) ==> seen2@.contains(x)
            &&& seen2@.contains(node)
            &&& seen2@.to_set().subset_of(uni@)
            &&& out2@.len() >= out@.len()
            &&& forall|j: int| 0 <= j < out@.len() ==> out2@[j] == out@[j]
            &&& forall|x: u64|
                out2@.contains(x) <==> out@.contains(x) || (seen2@.contains(x)
                    && !seen@.contains(x))
            &&& no_dups(out2@)
            &&& forall|x: u64| out2@.contains(x) ==> seen2@.contains(x)
            &&& forall|x: u64|
                (seen2@.contains(x) && !out2@.contains(x)) <==> (seen@.contains(x)
                    && !out@.contains(x))
            &&& forall|x: u64|
                seen2@.contains(x) ==> seen@.contains(x) || reaches(m.entries@, node, x)
            &&& forall|x: u64, b: u64|
                seen2@.contains(x) && !seen@.contains(x) && edge(m.entries@, x, b)
                    ==> seen2@.contains(b)
            &&& forall|k: int, b: u64|
                out@.len() <= k < out2@.len() && #[trigger] edge(m.entries@, out2@[k], b) ==> (
                exists|j: int| 0 <= j < k && out2@[j] == b) || reaches(m.entries@, b, out2@[k])
            &&& forall|fuel: nat|
                fuel >= uni@.difference(seen@.to_set()).len() + 1 ==> #[trigger] dfs_node(
                    m.entries@,
                    node,
                    seen@.to_set(),
                    out@,
                    fuel,
                ) == (seen2@.to_set(), out2@)
        }),
    decreases uni@.difference(seen@.to_set()).len(),
{
    let ghost es = m.entries@;
    let ghost s_in = seen@;
    let ghost out_in = out@;
    if contains_id(&seen, node) {
        proof {
            assert(seen@.to_set().contains(node));
        }
        return (seen, out);
    }
    let mut seen = seen;
    let mut out = out;
    seen.push(node);
    proof {
        assert(seen@ == s_in.push(node));
        assert forall|x: u64| seen@.contains(x) implies s_in.contains(x) || x == node by {
            let j = choose|j: int| 0 <= j < seen@.len() && seen@[j] == x;
            if j < s_in.len() {
                assert(s_in[j] == x);
            }
        }
        assert(seen@.contains(node));
        assert(seen@.to_set().subset_of(uni@));
        lemma_reaches_self(es, node);
    }
    let ghost s_in_set = s_in.to_set();
    let ghost s_marked = s_in_set.insert(node);
    proof {
        assert(!s_in_set.contains(node));
        assert(seen@.to_set() =~= s_marked);
    }
    match find_entry(m, node) {
        Some(idx) => {
            let ghost deps = m.entries@[idx as int].deps@;
            proof {
                // the row found is the only row for `node`, so the edges out
                // of `node` are exactly its dependency list
                assert forall|b: u64| edge(es, node, b) implies deps.contains(b) by {
                    let i = choose|i: int|
                        0 <= i < es.len() && es[i].id == node && es[i].deps@.contains(b);
                    if i < idx as int {
                        assert(es[i].id < es[idx as int].id);
                    } else if i > idx as int {
                        assert(es[idx as int].id < es[i].id);
                    }
                }
                assert(forall|b: u64| deps.contains(b) ==> edge(es, node, b));
                assert(deps_seq(es, node) == deps) by {
                    assert(es[idx as int].id == node);
                    assert(has_entry(es, node));
                    let c = choose|i: int| 0 <= i < es.len() && es[i].id == node;
                    if c < idx as int {
                        assert(es[c].id < es[idx as int].id);
                    } else if c > idx as int {
                        assert(es[idx as int].id < es[c].id);
                    }
                }
            }
            let dn: usize = m.entries[idx].deps.len();
            proof {
                assert(deps.skip(0) == deps);
            }
            let mut j: usize = 0;
            while j < dn
                invariant
                    m.wf(),
                    uni@.finite(),
                    uni@.contains(node),
                    forall|a: u64, b: u64|
                        uni@.contains(a) && edge(m.entries@, a, b) ==> uni@.contains(b),
                    es == m.entries@,
                    idx < es.len(),
                    es[idx as int].id == node,
                    deps == es[idx as int].deps@,
                    dn == deps.len(),
                    0 <= j <= dn,
                    forall|b: u64| edge(es, node, b) <==> deps.contains(b),
                    !s_in.contains(node),
                    forall|x: u64| out_in.contains(x) ==> s_in.contains(x),
                    forall|x: u64| s_in.contains(x) && !out_in.contains(x) ==> reaches(es, x, node),
                    // progress on this row's dependencies
                    forall|k: int| 0 <= k < j ==> seen@.contains(#[trigger] deps[k]),
                    // seen only grows, and stays in the universe
                    forall|x: u64| s_in.contains(x) ==> seen@.contains(x),
                    seen@.contains(node),
                    seen@.to_set().subset_of(uni@),
                    // out grows by exactly the files newly seen, `node` excepted
                    out@.len() >= out_in.len(),
                    forall|k: int| 0 <= k < out_in.len() ==> out@[k] == out_in[k],
                    forall|x: u64|
                        out@.contains(x) <==> out_in.contains(x) || (seen@.contains(x)
                            && !s_in.contains(x) && x != node),
                    no_dups(out@),
                    forall|x: u64| out@.contains(x) ==> seen@.contains(x),
                    // in-progress visits are unchanged but for `node`
                    forall|x: u64|
                        (seen@.contains(x) && !out@.contains(x)) <==> ((s_in.contains(x)
                            && !out_in.contains(x)) || x == node),
                    // everything newly seen is reached from `node`
                    forall|x: u64|
                        seen@.contains(x) ==> s_in.contains(x) || reaches(es, node, x),
                    // files newly seen and fully visited have all edges seen
                    forall|x: u64, b: u64|
                        seen@.contains(x) && !s_in.contains(x) && x != node && edge(es, x, b)
                            ==> seen@.contains(b),
                    // emission order: a dependency of an emitted file was
                    // emitted earlier or reaches it
                    forall|k: int, b: u64|
                        out_in.len() <= k < out@.len() && #[trigger] edge(es, out@[k], b) ==> (
                        exists|jj: int| 0 <= jj < k && out@[jj] == b) || reaches(es, b, out@[k]),
                    // the traversal so far agrees with its mathematical form
                    s_marked == s_in_set.insert(node),
                    s_marked.subset_of(seen@.to_set()),
                    deps_seq(es, node) == deps,
                    forall|fuel: nat|
                        fuel >= uni@.difference(s_marked).len() + 1 ==> #[trigger] dfs_list(
                            es,
                            deps,
                            s_marked,
                            out_in,
                            fuel,
                        ) == dfs_list(es, deps.skip(j as int), seen@.to_set(), out@, fuel),
                decreases dn - j,
            {
                let d: u64 = m.entries[idx].deps[j];
                proof {
                    assert(deps.contains(d));
                    assert(edge(es, node, d));
                    assert(uni@.contains(d));
                    // every in-progress visit reaches d, through node
                    assert forall|x: u64| seen@.contains(x) && !out@.contains(x) implies reaches(
                        es,
                        x,
                        d,
                    ) by {
                        if x == node {
                            lemma_reaches_self(es, node);
                            lemma_reaches_then_edge(es, node, node, d);
                        } else {
                            assert(seen@.contains(x) && !out@.contains(x));
                            assert(s_in.contains(x) && !out_in.contains(x));
                            assert(reaches(es, x, node));
                            lemma_reaches_then_edge(es, x, node, d);
                        }
                    }
                    // the recursion shrinks the unseen part of the universe
                    let unseen_in = uni@.difference(s_in.to_set());
                    let unseen_now = uni@.difference(seen@.to_set());
                    assert(!s_in.to_set().contains(node));
                    assert(unseen_in.contains(node));
                    assert(unseen_now.subset_of(unseen_in.remove(node)));
                    lemma_len_subset(unseen_now, unseen_in.remove(node));
                    lemma_len_subset(unseen_in, uni@);
                    assert(unseen_in.remove(node).len() == unseen_in.len() - 1);
                    assert(unseen_now.len() < unseen_in.len());
                    assert(uni@.difference(seen@.to_set()).len() < uni@.difference(
                        s_in.to_set(),
                    ).len());
                }
                let ghost s_before = seen@;
                let ghost out_before = out@;
                let r = go(m, d, seen, out, uni);
                seen = r.0;
                out = r.1;
                proof {
                    assert(seen@.contains(d));
                    assert forall|x: u64|
                        out@.contains(x) implies out_in.contains(x) || (seen@.contains(x)
                        && !s_in.contains(x) && x != node) by {
                        if out_before.contains(x) {
                        } else {
                            assert(seen@.contains(x) && !s_before.contains(x));
                        }
                    }
                    assert forall|x: u64|
                        out_in.contains(x) || (seen@.contains(x) && !s_in.contains(x) && x
                            != node) implies out@.contains(x) by {
                        if out_in.contains(x) {
                            assert(out_before.contains(x));
                        } else {
                            if s_before.contains(x) {
                                assert(out_before.contains(x));
                            }
                        }
                    }
                    assert forall|x: u64|
                        seen@.contains(x) implies s_in.contains(x) || reaches(es, node, x) by {
                        if !s_before.contains(x) {
                            assert(reaches(es, d, x));
                            lemma_edge_then_reaches(es, node, d, x);
                        }
                    }
                    assert forall|k: int, b: u64|
                        out_in.len() <= k < out@.len() && #[trigger] edge(es, out@[k], b) implies (
                    exists|jj: int| 0 <= jj < k && out@[jj] == b) || reaches(es, b, out@[k]) by {
                        if k < out_before.len() {
                            assert(out@[k] == out_before[k]);
                            assert(edge(es, out_before[k], b));
                            if exists|jj: int| 0 <= jj < k && out_before[jj] == b {
                                let jj = choose|jj: int| 0 <= jj < k && out_before[jj] == b;
                                assert(out@[jj] == b);
                            }
                        }
                    }
                    assert forall|x: u64| s_before.to_set().contains(x) implies seen@.to_set().contains(
                        x,
                    ) by {
                        assert(s_before.contains(x));
                        assert(seen@.contains(x));
                    }
                    assert forall|fuel: nat|
                        fuel >= uni@.difference(s_marked).len() + 1 implies #[trigger] dfs_list(
                            es,
                            deps,
                            s_marked,
                            out_in,
                            fuel,
                        ) == dfs_list(es, deps.skip(j as int + 1), seen@.to_set(), out@, fuel) by {
                        assert(dfs_list(es, deps, s_marked, out_in, fuel) == dfs_list(
                            es,
                            deps.skip(j as int),
                            s_before.to_set(),
                            out_before,
                            fuel,
                        ));
                        let dsj = deps.skip(j as int);
                        assert(dsj.len() > 0);
                        assert(dsj[0] == deps[j as int]);
                        assert(dsj.drop_first() == deps.skip(j as int + 1));
                        let diff_before = uni@.difference(s_before.to_set());
                        let diff_marked = uni@.difference(s_marked);
                        assert(diff_before.subset_of(diff_marked));
                        lemma_len_subset(diff_marked, uni@);
                        lemma_len_subset(diff_before, diff_marked);
                        assert(fuel >= diff_before.len() + 1);
                        assert(dfs_node(es, deps[j as int], s_before.to_set(), out_before, fuel)
                            == (seen@.to_set(), out@));
                    }
                }
                j = j + 1;
            }
            // all dependencies of `node` are now seen; emit it
            proof {
                assert(forall|b: u64| edge(es, node, b) ==> seen@.contains(b));
            }
            let ghost out_before = out@;
            out.push(node);
            proof {
                assert(out@ == out_before.push(node));
                assert(out@[out@.len() - 1] == node);
                assert forall|x: u64| out@.contains(x) implies out_before.contains(x) || x
                    == node by {
                    let j2 = choose|j2: int| 0 <= j2 < out@.len() && out@[j2] == x;
                    if j2 < out_before.len() {
                        assert(out_before[j2] == x);
                    }
                }
                assert(!out_before.contains(node));
                assert(no_dups(out@)) by {
                    assert forall|i: int, j2: int|
                        0 <= i < out@.len() && 0 <= j2 < out@.len() && i != j2 implies out@[i]
                        != out@[j2] by {
                        if i < out_before.len() && j2 < out_before.len() {
                            assert(out@[i] == out_before[i] && out@[j2] == out_before[j2]);
                        } else if i == out_before.len() {
                            assert(out@[i] == node && out@[j2] == out_before[j2]);
                            assert(out_before.contains(out_before[j2]));
                        } else {
                            assert(out@[j2] == node && out@[i] == out_before[i]);
                            assert(out_before.contains(out_before[i]));
                        }
                    }
                }
                // order clause at the new last position
                assert forall|k: int, b: u64|
                    out_in.len() <= k < out@.len() && #[trigger] edge(es, out@[k], b) implies (
                exists|jj: int| 0 <= jj < k && out@[jj] == b) || reaches(es, b, out@[k]) by {
                    if k < out_before.len() {
                        assert(out@[k] == out_before[k]);
                        assert(edge(es, out_before[k], b));
                        if exists|jj: int| 0 <= jj < k && out_before[jj] == b {
                            let jj = choose|jj: int| 0 <= jj < k && out_before[jj] == b;
                            assert(out@[jj] == b);
                        }
                    } else {
                        assert(out@[k] == node);
                        assert(seen@.contains(b));
                        if out_before.contains(b) {
                            let jj = choose|jj: int| 0 <= jj < out_before.len() && out_before[jj] == b;
                            assert(out@[jj] == b);
                        } else {
                            // b is marked but not emitted: an in-progress
                            // visit, so it reaches node
                            assert(s_in.contains(b) && !out_in.contains(b) || b == node);
                            if b == node {
                                lemma_reaches_self(es, node);
                            } else {
                                assert(reaches(es, b, node));
                            }
                        }
                    }
                }
                // the emitted state is what the mathematical traversal owes
                assert(deps.skip(dn as int).len() == 0);
                assert forall|fuel: nat|
                    fuel >= uni@.difference(s_in_set).len() + 1 implies #[trigger] dfs_node(
                        es,
                        node,
                        s_in_set,
                        out_in,
                        fuel,
                    ) == (seen@.to_set(), out@) by {
                    assert(!s_in_set.contains(node));
                    let diff_in = uni@.difference(s_in_set);
                    let diff_marked = uni@.difference(s_marked);
                    lemma_len_subset(diff_in, uni@);
                    assert(diff_in.contains(node));
                    assert(diff_marked =~= diff_in.remove(node));
                    assert(diff_marked.len() == diff_in.len() - 1);
                    let f1 = (fuel - 1) as nat;
                    assert(f1 >= diff_marked.len() + 1);
                    assert(dfs_list(es, deps, s_marked, out_in, f1) == dfs_list(
                        es,
                        deps.skip(dn as int),
                        seen@.to_set(),
                        out_before,
                        f1,
                    ));
                    assert(dfs_list(es, deps.skip(dn as int), seen@.to_set(), out_before, f1)
                        == (seen@.to_set(), out_before));
                    assert(dfs_node(es, node, s_in_set, out_in, fuel) == (
                        seen@.to_set(),
                        out_before.push(node),
                    ));
                }
            }
            (seen, out)
        },
        None => {
            proof {
                assert forall|b: u64| !edge(es, node, b) by {
                    if edge(es, node, b) {
                        assert(has_entry(es, node));
                    }
                }
            }
            let ghost out_before = out@;
            out.push(node);
            proof {
                assert(out@ == out_before.push(node));
                assert(out@[out@.len() - 1] == node);
                assert forall|x: u64| out@.contains(x) implies out_before.contains(x) || x
                    == node by {
                    let j2 = choose|j2: int| 0 <= j2 < out@.len() && out@[j2] == x;
                    if j2 < out_before.len() {
                        assert(out_before[j2] == x);
                    }
                }
                assert(!out_before.contains(node));
                assert forall|i: int, j2: int|
                    0 <= i < out@.len() && 0 <= j2 < out@.len() && i != j2 implies out@[i]
                    != out@[j2] by {
                    if i < out_before.len() && j2 < out_before.len() {
                        assert(out@[i] == out_before[i] && out@[j2] == out_before[j2]);
                    } else if i == out_before.len() {
                        assert(out@[i] == node && out@[j2] == out_before[j2]);
                        assert(out_before.contains(out_before[j2]));
                    } else {
                        assert(out@[j2] == node && out@[i] == out_before[i]);
                        assert(out_before.contains(out_before[i]));
                    }
                }
                lemma_reaches_self(es, node);
                assert forall|k: int, b: u64|
                    out_in.len() <= k < out@.len() && #[trigger] edge(es, out@[k], b) implies (
                exists|jj: int| 0 <= jj < k && out@[jj] == b) || reaches(es, b, out@[k]) by {
                    assert(k == out@.len() - 1 && out@[k] == node);
                }
                // a file with no row is marked and emitted as a leaf
                assert(!has_entry(es, node));
                assert(deps_seq(es, node).len() == 0);
                assert forall|fuel: nat|
                    fuel >= uni@.difference(s_in_set).len() + 1 implies #[trigger] dfs_node(
                        es,
                        node,
                        s_in_set,
                        out_in,
                        fuel,
                    ) == (seen@.to_set(), out@) by {
                    assert(!s_in_set.contains(node));
                    let f1 = (fuel - 1) as nat;
                    assert(dfs_list(es, deps_seq(es, node), s_marked, out_in, f1) == (
                        s_marked,
                        out_in,
                    ));
                    assert(dfs_node(es, node, s_in_set, out_in, fuel) == (
                        s_marked,
                        out_in.push(node),
                    ));
                    assert(seen@.to_set() =~= s_marked);
                    assert(out@ == out_in.push(node));
                }
            }
            (seen, out)
        },
    }
}

/// Compute a link order: every root and every file transitively reachable
/// from a root, each exactly once, a file's dependencies placed before the
/// file itself wherever the graph is acyclic; inside a cycle the members
/// appear once, in first-visit order, and a dependency that comes later is
/// always one that reaches its dependent back.
pub fn needed_libraries(map: &DepMap, roots: &Vec<u64>) -> (order: Vec<u64>)
    requires
        map.wf(),
    ensures
        no_dups(order@),
        forall|x: u64| order@.contains(x) <==> reaches_any(map.entries@, roots@, x),
        forall|k: int, b: u64|
            0 <= k < order@.len() && #[trigger] edge(map.entries@, order@[k], b) ==> (exists|j: int|
                0 <= j < k && order@[j] == b) || reaches(map.entries@, b, order@[k]),
        acyclic(map.entries@) ==> forall|k: int, b: u64|
            0 <= k < order@.len() && #[trigger] edge(map.entries@, order@[k], b) ==> exists|j: int|
                0 <= j < k && order@[j] == b,
        order@ == order_spec(*map, roots@),
{
    let ghost es = map.entries@;
    let ghost uni_set = node_set(es).union(roots@.to_set());
    proof {
        broadcast use vstd::seq_lib::seq_to_set_is_finite;

        lemma_node_set(es);
        assert(uni_set.finite());
        assert forall|a: u64, b: u64| uni_set.contains(a) && edge(es, a, b) implies uni_set.contains(
            b,
        ) by {
            let i = choose|i: int| 0 <= i < es.len() && es[i].id == a && es[i].deps@.contains(b);
            assert(node_set(es).contains(b));
        }
    }
    let mut seen: Vec<u64> = Vec::new();
    let mut out: Vec<u64> = Vec::new();
    proof {
        assert(seen@.to_set() =~= Set::<u64>::empty());
        assert(roots@.skip(0) == roots@);
    }
    let mut i: usize = 0;
    while i < roots.len()
        invariant
            map.wf(),
            es == map.entries@,
            uni_set.finite(),
            uni_set == node_set(es).union(roots@.to_set()),
            forall|a: u64, b: u64| uni_set.contains(a) && edge(es, a, b) ==> uni_set.contains(b),
            0 <= i <= roots@.len(),
            seen@.to_set().subset_of(uni_set),
            // every marked file has been emitted: no visit is in progress
            forall|x: u64| seen@.contains(x) <==> out@.contains(x),
            no_dups(out@),
            // roots handled so far are all marked
            forall|k: int| 0 <= k < i ==> seen@.contains(#[trigger] roots@[k]),
            // everything marked is reached from some root
            forall|x: u64| seen@.contains(x) ==> reaches_any(es, roots@, x),
            // the marked set is closed under edges
            forall|x: u64, b: u64| seen@.contains(x) && edge(es, x, b) ==> seen@.contains(b),
            // emission order
            forall|k: int, b: u64|
                0 <= k < out@.len() && #[trigger] edge(es, out@[k], b) ==> (exists|j: int|
                    0 <= j < k && out@[j] == b) || reaches(es, b, out@[k]),
            // agreement with the mathematical traversal
            forall|fuel: nat|
                fuel >= uni_set.len() + 1 ==> #[trigger] dfs_roots(
                    es,
                    roots@.skip(i as int),
                    seen@.to_set(),
                    out@,
                    fuel,
                ) == dfs_roots(es, roots@, Set::empty(), Seq::empty(), fuel),
        decreases roots@.len() - i,
    {
        let r0: u64 = roots[i];
        let ghost s_before = seen@;
        let ghost out_before = out@;
        proof {
            assert(roots@.to_set().contains(r0));
            assert(uni_set.contains(r0));
        }
        let r = go(map, r0, seen, out, Ghost(uni_set));
        seen = r.0;
        out = r.1;
        proof {
            assert forall|x: u64| seen@.contains(x) implies reaches_any(es, roots@, x) by {
                if !s_before.contains(x) {
                    assert(reaches(es, r0, x));
                    assert(roots@[i as int] == r0);
                }
            }
            assert forall|x: u64, b: u64|
                seen@.contains(x) && edge(es, x, b) implies seen@.contains(b) by {
                if s_before.contains(x) {
                    assert(s_before.contains(b));
                }
            }
            assert forall|k: int, b: u64|
                0 <= k < out@.len() && #[trigger] edge(es, out@[k], b) implies (exists|j: int|
                    0 <= j < k && out@[j] == b) || reaches(es, b, out@[k]) by {
                if k < out_before.len() {
                    assert(out@[k] == out_before[k]);
                    assert(edge(es, out_before[k], b));
                    if exists|j: int| 0 <= j < k && out_before[j] == b {
                        let j = choose|j: int| 0 <= j < k && out_before[j] == b;
                        assert(out@[j] == b);
                    }
                }
            }
            assert forall|fuel: nat|
                fuel >= uni_set.len() + 1 implies #[trigger] dfs_roots(
                    es,
                    roots@.skip(i as int + 1),
                    seen@.to_set(),
                    out@,
                    fuel,
                ) == dfs_roots(es, roots@, Set::empty(), Seq::empty(), fuel) by {
                let rsk = roots@.skip(i as int);
                assert(rsk.len() > 0);
                assert(rsk[0] == roots@[i as int]);
                assert(rsk.drop_first() == roots@.skip(i as int + 1));
                let diff_b = uni_set.difference(s_before.to_set());
                lemma_len_subset(diff_b, uni_set);
                assert(fuel >= diff_b.len() + 1);
                assert(dfs_node(es, r0, s_before.to_set(), out_before, fuel) == (
                    seen@.to_set(),
                    out@,
                ));
                assert(dfs_roots(es, rsk, s_before.to_set(), out_before, fuel) == dfs_roots(
                    es,
                    roots@,
                    Set::empty(),
                    Seq::empty(),
                    fuel,
                ));
            }
        }
        i = i + 1;
    }
    proof {
        // a file reached from a root is marked: the marked set contains the
        // roots and is closed under edges, so it swallows every path
        assert forall|x: u64| out@.contains(x) <==> reaches_any(es, roots@, x) by {
            if reaches_any(es, roots@, x) {
                let ri = choose|ri: int| 0 <= ri < roots@.len() && reaches(es, roots@[ri], x);
                let p = choose|p: Seq<u64>|
                    is_path(es, p) && p.first() == roots@[ri] && p.last() == x;
                assert(seen@.contains(roots@[ri]));
                lemma_path_stays_in_closed(es, seen@, p);
            }
        }
        // the output is the mathematical traversal at its canonical fuel
        assert(roots@.skip(roots@.len() as int).len() == 0);
        let fuel0 = (uni_set.len() + 1) as nat;
        assert(dfs_roots(es, roots@.skip(roots@.len() as int), seen@.to_set(), out@, fuel0) == (
            seen@.to_set(),
            out@,
        ));
        assert(order_spec(*map, roots@) == dfs_roots(
            es,
            roots@,
            Set::empty(),
            Seq::empty(),
            fuel0,
        ).1);
        assert(out@ == order_spec(*map, roots@));
        // under acyclicity the late-dependency disjunct is impossible
        if acyclic(es) {
            assert forall|k: int, b: u64|
                0 <= k < out@.len() && #[trigger] edge(es, out@[k], b) implies exists|j: int|
                0 <= j < k && out@[j] == b by {
                if !(exists|j: int| 0 <= j < k && out@[j] == b) {
                    assert(reaches(es, b, out@[k]));
                    lemma_acyclic_no_back_edge(es, out@[k], b);
                }
            }
        }
    }
    out
}

/// Find the row for `id`, if the graph has one.
fn find_entry(m: &DepMap, id: u64) -> (r: Option<usize>)
    ensures
        match r {
            Some(i) => i < m.entries@.len() && m.entries@[i as int].id == id,
            None => !has_entry(m.entries@, id),
        },
{
    let mut i: usize = 0;
    while i < m.entries.len()
        invariant
            0 <= i <= m.entries@.len(),
            forall|k: int| 0 <= k < i ==> m.entries@[k].id != id,
        decreases m.entries@.len() - i,
    {
        if m.entries[i].id == id {
            return Some(i);
        }
        i = i + 1;
    }
    None
}

} // verus!
