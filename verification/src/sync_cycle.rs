//! Cycle search in the sync-call subgraph.
//!
//! Nodes are components (each id stands for the first component that has it);
//! a sync-call edge whose two references resolve links the component of its
//! source to the component of its target. The search is a depth-first search
//! from each unvisited component in order, following links in edge order; the
//! first link that reaches a component on the current search path closes a
//! cycle, which is reported with the link's edge id and the path of port
//! references along the cycle.
use vstd::prelude::*;
use crate::model::{Arch, Keyed, comp_index, find_key, key_index, lemma_key_index, resolve};
use crate::text::split_at_dot;
use crate::text::str_eq;

verus! {

/// The (source component, target component) of the `k`-th edge, when it is a
/// sync-call edge whose references both resolve.
pub open spec fn sync_link(a: Arch, k: int) -> Option<(int, int)> {
    let e = a.edges@[k];
    if e.etype@ != "sync-call"@ {
        None
    } else {
        match (resolve(a, e.from@), resolve(a, e.to@)) {
            (Some((fc, _)), Some((tc, _))) => Some((fc, tc)),
            _ => None,
        }
    }
}

/// The search path: each component on it, with the reference it was entered by.
pub type PathStack = Seq<(int, Seq<char>)>;

/// A cycle: the id of the closing edge and the references along the cycle.
pub type Found = Option<(Seq<char>, Seq<Seq<char>>)>;

/// The state after a search step: what was found, node colours
/// (0 unvisited, 1 on the path, 2 finished) and the search path.
pub type SearchState = (Found, Seq<u8>, PathStack);

/// The first position at or after `i` of component `v` on the path; -1 when none.
pub open spec fn path_start(stack: PathStack, v: int, i: int) -> int
    decreases stack.len() - i,
{
    if i < 0 || i >= stack.len() {
        -1
    } else if stack[i].0 == v {
        i
    } else {
        path_start(stack, v, i + 1)
    }
}

/// The entry references of the path from position `i` on: for each component
/// there, the source reference of the edge by which the search reached it.
pub open spec fn refs_from(stack: PathStack, i: int) -> Seq<Seq<char>> {
    Seq::new((stack.len() - i) as nat, |j: int| stack[i + j].1)
}

/// The cycle closed by an edge `fref -> tref` that reaches `v` on the path:
/// the source reference of each edge along the path from `v` on, then the
/// closing edge's source and target references.
pub open spec fn cycle_path(stack: PathStack, v: int, fref: Seq<char>, tref: Seq<char>) -> Seq<Seq<char>> {
    let s = path_start(stack, v, 0);
    (if s >= 0 {
        refs_from(stack, s + 1)
    } else {
        seq![]
    }) + seq![fref, tref]
}

/// Search from component `u`, entered by reference `enter`.
pub open spec fn dfs_node(a: Arch, u: int, enter: Seq<char>, color: Seq<u8>, stack: PathStack, fuel: nat) -> SearchState
    decreases fuel, 1int, 0int,
{
    dfs_edges(a, u, 0, color.update(u, 1), stack.push((u, enter)), fuel)
}

/// Search the links of component `u` from the `k`-th edge on.
pub open spec fn dfs_edges(a: Arch, u: int, k: int, color: Seq<u8>, stack: PathStack, fuel: nat) -> SearchState
    decreases fuel, 0int, a.edges@.len() - k,
{
    if k < 0 || k >= a.edges@.len() {
        (None, color.update(u, 2), stack.drop_last())
    } else {
        let e = a.edges@[k];
        match sync_link(a, k) {
            Some((fc, v)) => {
                if fc != u {
                    dfs_edges(a, u, k + 1, color, stack, fuel)
                } else if color[v] == 1 {
                    (Some((e.id@, cycle_path(stack, v, e.from@, e.to@))), color, stack)
                } else if color[v] == 0 {
                    if fuel == 0 {
                        (None, color.update(u, 2), stack.drop_last())
                    } else {
                        let r = dfs_node(a, v, e.from@, color, stack, (fuel - 1) as nat);
                        if r.0 is Some {
                            r
                        } else {
                            dfs_edges(a, u, k + 1, r.1, r.2, fuel)
                        }
                    }
                } else {
                    dfs_edges(a, u, k + 1, color, stack, fuel)
                }
            },
            None => dfs_edges(a, u, k + 1, color, stack, fuel),
        }
    }
}

/// Start searches at the components from the `k`-th on.
pub open spec fn cycle_scan(a: Arch, k: int, color: Seq<u8>, stack: PathStack, fuel: nat) -> Found
    decreases a.components@.len() - k,
{
    if k < 0 || k >= a.components@.len() {
        None
    } else {
        let c = a.components@[k];
        let u = comp_index(a, c.id@);
        if color[u] == 0 {
            let r = dfs_node(a, u, Seq::<char>::empty(), color, stack, fuel);
            if r.0 is Some {
                r.0
            } else {
                cycle_scan(a, k + 1, r.1, r.2, fuel)
            }
        } else {
            cycle_scan(a, k + 1, color, stack, fuel)
        }
    }
}

/// The first sync-call cycle that the search finds.
pub open spec fn spec_find_sync_cycle(a: Arch) -> Found {
    cycle_scan(a, 0, Seq::new(a.components@.len(), |i: int| 0u8), seq![], a.components@.len() as nat)
}

/// The edge ids of an architecture include `id`.
pub open spec fn is_edge_id(a: Arch, id: Seq<char>) -> bool {
    exists|k: int| 0 <= k < a.edges@.len() && (#[trigger] a.edges@[k]).id@ == id
}

proof fn lemma_dfs_node_found(a: Arch, u: int, enter: Seq<char>, color: Seq<u8>, stack: PathStack, fuel: nat)
    ensures
        dfs_node(a, u, enter, color, stack, fuel).0 matches Some((id, _)) ==> is_edge_id(a, id),
    decreases fuel, 1int, 0int,
{
    lemma_dfs_edges_found(a, u, 0, color.update(u, 1), stack.push((u, enter)), fuel);
}

proof fn lemma_dfs_edges_found(a: Arch, u: int, k: int, color: Seq<u8>, stack: PathStack, fuel: nat)
    ensures
        dfs_edges(a, u, k, color, stack, fuel).0 matches Some((id, _)) ==> is_edge_id(a, id),
    decreases fuel, 0int, a.edges@.len() - k,
{
    if k < 0 || k >= a.edges@.len() {
    } else {
        let e = a.edges@[k];
        match sync_link(a, k) {
            Some((fc, v)) => {
                if fc != u {
                    lemma_dfs_edges_found(a, u, k + 1, color, stack, fuel);
                } else if color[v] == 1 {
                    assert(a.edges@[k].id@ == e.id@);
                } else if color[v] == 0 {
                    if fuel != 0 {
                        let r = dfs_node(a, v, e.from@, color, stack, (fuel - 1) as nat);
                        lemma_dfs_node_found(a, v, e.from@, color, stack, (fuel - 1) as nat);
                        if r.0 is None {
                            lemma_dfs_edges_found(a, u, k + 1, r.1, r.2, fuel);
                        }
                    }
                } else {
                    lemma_dfs_edges_found(a, u, k + 1, color, stack, fuel);
                }
            },
            None => {
                lemma_dfs_edges_found(a, u, k + 1, color, stack, fuel);
            },
        }
    }
}

proof fn lemma_cycle_scan_found(a: Arch, k: int, color: Seq<u8>, stack: PathStack, fuel: nat)
    ensures
        cycle_scan(a, k, color, stack, fuel) matches Some((id, _)) ==> is_edge_id(a, id),
    decreases a.components@.len() - k,
{
    if 0 <= k < a.components@.len() {
        let c = a.components@[k];
        let u = comp_index(a, c.id@);
        if color[u] == 0 {
            let r = dfs_node(a, u, Seq::<char>::empty(), color, stack, fuel);
            lemma_dfs_node_found(a, u, Seq::<char>::empty(), color, stack, fuel);
            if r.0 is None {
                lemma_cycle_scan_found(a, k + 1, r.1, r.2, fuel);
            }
        } else {
            lemma_cycle_scan_found(a, k + 1, color, stack, fuel);
        }
    }
}

/// A reported cycle is named by the id of one of the edges.
pub proof fn law_cycle_names_edge(a: Arch)
    ensures
        spec_find_sync_cycle(a) matches Some((id, _)) ==> is_edge_id(a, id),
{
    lemma_cycle_scan_found(a, 0, Seq::new(a.components@.len(), |i: int| 0u8), seq![], a.components@.len() as nat);
}

/// Some sync-call edge links component `u` to component `v`.
pub open spec fn linked(a: Arch, u: int, v: int) -> bool {
    exists|k: int| 0 <= k < a.edges@.len() && #[trigger] sync_link(a, k) == Some((u, v))
}

/// `ns` is a closed walk along sync-call links.
pub open spec fn is_cycle(a: Arch, ns: Seq<int>) -> bool {
    &&& ns.len() >= 2
    &&& ns[0] == ns.last()
    &&& forall|i: int| 0 <= i < ns.len() - 1 ==> linked(a, #[trigger] ns[i], ns[i + 1])
}

/// `ns` and `ks` describe the cycle reported as (`id`, `path`): the walk
/// visits components `ns` (closing on its first), following in turn the
/// edges `ks`, each of type sync-call; `path` is the source reference of each of those
/// edges, then the target reference of the last one, which carries `id`.
pub open spec fn cycle_walk(a: Arch, ns: Seq<int>, ks: Seq<int>, id: Seq<char>, path: Seq<Seq<char>>) -> bool {
    &&& ks.len() >= 1
    &&& ns.len() == ks.len() + 1
    &&& path.len() == ks.len() + 1
    &&& ns[0] == ns.last()
    &&& forall|i: int| 0 <= i < ks.len() ==> {
        &&& 0 <= #[trigger] ks[i] < a.edges@.len()
        &&& a.edges@[ks[i]].etype@ == "sync-call"@
        &&& sync_link(a, ks[i]) == Some((ns[i], ns[i + 1]))
        &&& path[i] == a.edges@[ks[i]].from@
    }
    &&& path.last() == a.edges@[ks.last()].to@
    &&& id == a.edges@[ks.last()].id@
}

/// The `k`-th edge links `u` to `v` and leaves by reference `r`.
spec fn entered_by(a: Arch, k: int, u: int, v: int, r: Seq<char>) -> bool {
    &&& 0 <= k < a.edges@.len()
    &&& sync_link(a, k) == Some((u, v))
    &&& a.edges@[k].from@ == r
}

/// Position `i + 1` of the path was entered from position `i` by an edge that
/// leaves by the reference recorded there.
spec fn step_entered(a: Arch, s: PathStack, i: int) -> bool {
    exists|k: int| #[trigger] entered_by(a, k, s[i].0, s[i + 1].0, s[i + 1].1)
}

/// What a search reports is a real cycle, with its walk.
spec fn found_ok(a: Arch, f: Found) -> bool {
    f is Some ==> {
        &&& exists|ns: Seq<int>| is_cycle(a, ns)
        &&& exists|ns: Seq<int>, ks: Seq<int>| cycle_walk(a, ns, ks, f.unwrap().0, f.unwrap().1)
    }
}

spec fn chain(a: Arch, s: PathStack) -> bool {
    &&& forall|i: int| 0 <= i < s.len() ==> 0 <= (#[trigger] s[i]).0 < a.components@.len()
    &&& forall|i: int| 0 <= i < s.len() - 1 ==> linked(a, (#[trigger] s[i]).0, s[i + 1].0)
    &&& forall|i: int| 0 <= i < s.len() - 1 ==> #[trigger] step_entered(a, s, i)
}

spec fn on_stack(s: PathStack, x: int) -> bool {
    exists|i: int| 0 <= i < s.len() && (#[trigger] s[i]).0 == x
}

spec fn gray_on_stack(c: Seq<u8>, s: PathStack) -> bool {
    forall|x: int| 0 <= x < c.len() && #[trigger] c[x] == 1 ==> on_stack(s, x)
}

spec fn same_gray(c1: Seq<u8>, c2: Seq<u8>) -> bool {
    &&& c1.len() == c2.len()
    &&& forall|x: int| 0 <= x < c1.len() ==> (#[trigger] c1[x] == 1 <==> c2[x] == 1)
}

spec fn node_pre(a: Arch, v: int, enter: Seq<char>, c: Seq<u8>, s: PathStack) -> bool {
    &&& c.len() == a.components@.len()
    &&& 0 <= v < c.len()
    &&& c[v] == 0
    &&& chain(a, s)
    &&& gray_on_stack(c, s)
    &&& s.len() > 0 ==> linked(a, s.last().0, v)
    &&& s.len() > 0 ==> exists|k: int| #[trigger] entered_by(a, k, s.last().0, v, enter)
}

spec fn edges_pre(a: Arch, u: int, c: Seq<u8>, s: PathStack) -> bool {
    &&& c.len() == a.components@.len()
    &&& 0 <= u < c.len()
    &&& s.len() >= 1
    &&& s.last().0 == u
    &&& chain(a, s)
    &&& gray_on_stack(c, s)
}

proof fn lemma_path_start(s: PathStack, v: int, i: int)
    requires
        0 <= i,
        exists|j: int| i <= j < s.len() && (#[trigger] s[j]).0 == v,
    ensures
        i <= path_start(s, v, i) < s.len(),
        s[path_start(s, v, i)].0 == v,
    decreases s.len() - i,
{
    if s[i].0 != v {
        assert(exists|j: int| i + 1 <= j < s.len() && (#[trigger] s[j]).0 == v);
        lemma_path_start(s, v, i + 1);
    }
}

proof fn lemma_cycle_node(a: Arch, v: int, enter: Seq<char>, c: Seq<u8>, s: PathStack, fuel: nat)
    requires
        node_pre(a, v, enter, c, s),
    ensures
        ({
            let r = dfs_node(a, v, enter, c, s, fuel);
            match r.0 {
                Some(_) => found_ok(a, r.0),
                None => r.2 == s && same_gray(r.1, c),
            }
        }),
    decreases fuel, 1int, 0int,
{
    let c1 = c.update(v, 1);
    let s1 = s.push((v, enter));
    assert(chain(a, s1)) by {
        assert forall|i: int| 0 <= i < s1.len() - 1 implies linked(a, (#[trigger] s1[i]).0, s1[i + 1].0) by {
            if i < s.len() - 1 {
                assert(s1[i] == s[i] && s1[i + 1] == s[i + 1]);
            } else {
                assert(s1[i] == s.last());
            }
        }
        assert forall|i: int| 0 <= i < s1.len() - 1 implies #[trigger] step_entered(a, s1, i) by {
            if i < s.len() - 1 {
                assert(s1[i] == s[i] && s1[i + 1] == s[i + 1]);
                assert(step_entered(a, s, i));
                let kk = choose|kk: int| #[trigger] entered_by(a, kk, s[i].0, s[i + 1].0, s[i + 1].1);
                assert(entered_by(a, kk, s1[i].0, s1[i + 1].0, s1[i + 1].1));
            } else {
                assert(s1[i] == s.last() && s1[i + 1] == (v, enter));
                let kk = choose|kk: int| #[trigger] entered_by(a, kk, s.last().0, v, enter);
                assert(entered_by(a, kk, s1[i].0, s1[i + 1].0, s1[i + 1].1));
            }
        }
        assert forall|i: int| 0 <= i < s1.len() implies 0 <= (#[trigger] s1[i]).0 < a.components@.len() by {
            if i < s.len() {
                assert(s1[i] == s[i]);
            }
        }
    }
    assert(gray_on_stack(c1, s1)) by {
        assert forall|x: int| 0 <= x < c1.len() && #[trigger] c1[x] == 1 implies on_stack(s1, x) by {
            if x == v {
                assert(s1[s.len() as int].0 == x);
            } else {
                let i = choose|i: int| 0 <= i < s.len() && (#[trigger] s[i]).0 == x;
                assert(s1[i] == s[i]);
            }
        }
    }
    lemma_cycle_edges(a, v, 0, c1, s1, fuel);
    let r = dfs_edges(a, v, 0, c1, s1, fuel);
    if r.0 is None {
        assert(s1.drop_last() =~= s);
    }
}

proof fn lemma_cycle_closed(a: Arch, u: int, k: int, v: int, s: PathStack)
    requires
        0 <= k < a.edges@.len(),
        sync_link(a, k) == Some((u, v)),
        s.len() >= 1,
        s.last().0 == u,
        chain(a, s),
        on_stack(s, v),
    ensures
        found_ok(a, Some((a.edges@[k].id@, cycle_path(s, v, a.edges@[k].from@, a.edges@[k].to@)))),
{
    let e = a.edges@[k];
    assert(linked(a, u, v));
    lemma_path_start(s, v, 0);
    let st = path_start(s, v, 0);
    let ns = Seq::new((s.len() - st) as nat, |j: int| s[st + j].0).push(v);
    assert(is_cycle(a, ns)) by {
        assert forall|i: int| 0 <= i < ns.len() - 1 implies linked(a, #[trigger] ns[i], ns[i + 1]) by {
            if i < s.len() - st - 1 {
                assert(ns[i] == s[st + i].0 && ns[i + 1] == s[st + i + 1].0);
            } else {
                assert(ns[i] == s.last().0);
            }
        }
    }
    let m = s.len() - st - 1;
    let ks = Seq::new((m + 1) as nat, |j: int|
        if j < m {
            choose|kk: int| #[trigger] entered_by(a, kk, s[st + j].0, s[st + j + 1].0, s[st + j + 1].1)
        } else {
            k
        });
    let path = cycle_path(s, v, e.from@, e.to@);
    assert(path.len() == m + 2);
    assert forall|j: int| 0 <= j < ks.len() implies {
        &&& 0 <= #[trigger] ks[j] < a.edges@.len()
        &&& a.edges@[ks[j]].etype@ == "sync-call"@
        &&& sync_link(a, ks[j]) == Some((ns[j], ns[j + 1]))
        &&& path[j] == a.edges@[ks[j]].from@
    } by {
        if j < m {
            assert(step_entered(a, s, st + j));
            assert(ns[j] == s[st + j].0 && ns[j + 1] == s[st + j + 1].0);
            assert(path[j] == s[st + 1 + j].1);
        } else {
            assert(ns[j] == s.last().0);
            assert(path[j] == e.from@);
        }
    }
    let f: Found = Some((e.id@, path));
    assert(f.unwrap().0 == e.id@);
    assert(f.unwrap().1 == path);
    assert(cycle_walk(a, ns, ks, f.unwrap().0, f.unwrap().1));
    assert(found_ok(a, f));
}

proof fn lemma_cycle_edges(a: Arch, u: int, k: int, c: Seq<u8>, s: PathStack, fuel: nat)
    requires
        edges_pre(a, u, c, s),
    ensures
        ({
            let r = dfs_edges(a, u, k, c, s, fuel);
            match r.0 {
                Some(_) => found_ok(a, r.0),
                None => r.2 == s.drop_last() && r.1.len() == c.len() && forall|x: int|
                    0 <= x < c.len() ==> (#[trigger] r.1[x] == 1 <==> (c[x] == 1 && x != u)),
            }
        }),
    decreases fuel, 0int, a.edges@.len() - k,
{
    if k < 0 || k >= a.edges@.len() {
    } else {
        let e = a.edges@[k];
        match sync_link(a, k) {
            Some((fc, v)) => {
                if fc != u {
                    lemma_cycle_edges(a, u, k + 1, c, s, fuel);
                } else {
                    assert(linked(a, u, v));
                    lemma_sync_link_range(a, k);
                    if c[v] == 1 {
                        assert(on_stack(s, v));
                        lemma_cycle_closed(a, u, k, v, s);
                    } else if c[v] == 0 {
                        if fuel != 0 {
                            let r = dfs_node(a, v, e.from@, c, s, (fuel - 1) as nat);
                            assert(entered_by(a, k, s.last().0, v, e.from@));
                            lemma_cycle_node(a, v, e.from@, c, s, (fuel - 1) as nat);
                            if r.0 is None {
                                assert(gray_on_stack(r.1, s)) by {
                                    assert forall|x: int| 0 <= x < r.1.len() && #[trigger] r.1[x] == 1 implies on_stack(s, x) by {
                                        assert(c[x] == 1);
                                    }
                                }
                                lemma_cycle_edges(a, u, k + 1, r.1, r.2, fuel);
                            }
                        }
                    } else {
                        lemma_cycle_edges(a, u, k + 1, c, s, fuel);
                    }
                }
            },
            None => {
                lemma_cycle_edges(a, u, k + 1, c, s, fuel);
            },
        }
    }
}

proof fn lemma_sync_link_range(a: Arch, k: int)
    requires
        0 <= k < a.edges@.len(),
    ensures
        sync_link(a, k) matches Some((f, t)) ==> 0 <= f < a.components@.len() && 0 <= t < a.components@.len(),
{
    let e = a.edges@[k];
    match (split_at_dot(e.from@), split_at_dot(e.to@)) {
        (Some((f, _)), Some((t, _))) => {
            lemma_key_index(a.components@, f);
            lemma_key_index(a.components@, t);
        },
        _ => {},
    }
}

proof fn lemma_cycle_scan(a: Arch, k: int, c: Seq<u8>, s: PathStack, fuel: nat)
    requires
        c.len() == a.components@.len(),
        s.len() == 0,
        forall|x: int| 0 <= x < c.len() ==> #[trigger] c[x] != 1,
    ensures
        cycle_scan(a, k, c, s, fuel) is Some ==> exists|ns: Seq<int>| is_cycle(a, ns),
        cycle_scan(a, k, c, s, fuel) matches Some((id, path)) ==> exists|ns: Seq<int>, ks: Seq<int>|
            cycle_walk(a, ns, ks, id, path),
    decreases a.components@.len() - k,
{
    if 0 <= k < a.components@.len() {
        let comp = a.components@[k];
        let u = comp_index(a, comp.id@);
        lemma_key_index(a.components@, comp.id@);
        assert(a.components@[k].key() == comp.id@);
        if c[u] == 0 {
            let r = dfs_node(a, u, Seq::<char>::empty(), c, s, fuel);
            assert(chain(a, s));
            lemma_cycle_node(a, u, Seq::<char>::empty(), c, s, fuel);
            if r.0 is None {
                lemma_cycle_scan(a, k + 1, r.1, r.2, fuel);
            }
        } else {
            lemma_cycle_scan(a, k + 1, c, s, fuel);
        }
    }
}

/// A reported sync-call cycle is a real one: the sync-call links form a
/// closed walk, and the reported path runs along it, listing the source
/// reference of each edge of the walk in order and then the target reference
/// of the closing edge, whose id is the one reported; so the path starts and
/// ends at references to one component.
pub proof fn law_cycle_sound(a: Arch)
    ensures
        spec_find_sync_cycle(a) is Some ==> exists|ns: Seq<int>| is_cycle(a, ns),
        spec_find_sync_cycle(a) matches Some((id, path)) ==> exists|ns: Seq<int>, ks: Seq<int>|
            cycle_walk(a, ns, ks, id, path),
        spec_find_sync_cycle(a) matches Some((id, path)) ==> {
            &&& path.len() >= 2
            &&& resolve(a, path[0]) is Some
            &&& resolve(a, path.last()) is Some
            &&& resolve(a, path[0]).unwrap().0 == resolve(a, path.last()).unwrap().0
        },
{
    lemma_cycle_scan(a, 0, Seq::new(a.components@.len(), |i: int| 0u8), seq![], a.components@.len() as nat);
    match spec_find_sync_cycle(a) {
        Some((id, path)) => {
            let (ns, ks) = choose|ns: Seq<int>, ks: Seq<int>| cycle_walk(a, ns, ks, id, path);
            let m = ks.len() - 1;
            assert(0 <= ks[0] < a.edges@.len() && sync_link(a, ks[0]) == Some((ns[0], ns[1])));
            assert(0 <= ks[m] < a.edges@.len() && sync_link(a, ks[m]) == Some((ns[m], ns[m + 1])));
            assert(path[0] == a.edges@[ks[0]].from@);
        },
        None => {},
    }
}

/// The number of unvisited components.
pub open spec fn white(c: Seq<u8>) -> nat
    decreases c.len(),
{
    if c.len() == 0 {
        0
    } else {
        white(c.drop_last()) + if c.last() == 0 {
            1nat
        } else {
            0nat
        }
    }
}

/// No component becomes unvisited again between `c1` and `c2`.
spec fn no_rewhite(c1: Seq<u8>, c2: Seq<u8>) -> bool {
    &&& c1.len() == c2.len()
    &&& forall|x: int| 0 <= x < c2.len() && #[trigger] c2[x] == 0 ==> c1[x] == 0
}

proof fn lemma_white_le(c1: Seq<u8>, c2: Seq<u8>)
    requires
        no_rewhite(c1, c2),
    ensures
        white(c2) <= white(c1),
    decreases c1.len(),
{
    if c1.len() > 0 {
        assert(no_rewhite(c1.drop_last(), c2.drop_last())) by {
            assert forall|x: int| 0 <= x < c2.drop_last().len() && #[trigger] c2.drop_last()[x] == 0 implies c1.drop_last()[x] == 0 by {
                assert(c2[x] == 0);
            }
        }
        lemma_white_le(c1.drop_last(), c2.drop_last());
        assert(c2.last() == c2[c2.len() - 1]);
    }
}

proof fn lemma_white_update(c: Seq<u8>, x: int, v: u8)
    requires
        0 <= x < c.len(),
        c[x] == 0,
        v != 0,
    ensures
        white(c.update(x, v)) + 1 == white(c),
    decreases c.len(),
{
    let d = c.update(x, v);
    if x == c.len() - 1 {
        assert(d.drop_last() =~= c.drop_last());
    } else {
        assert(d.drop_last() =~= c.drop_last().update(x, v));
        lemma_white_update(c.drop_last(), x, v);
        assert(d.last() == c.last());
    }
}

proof fn lemma_no_rewhite_trans(c1: Seq<u8>, c2: Seq<u8>, c3: Seq<u8>)
    requires
        no_rewhite(c1, c2),
        no_rewhite(c2, c3),
    ensures
        no_rewhite(c1, c3),
{
    assert forall|x: int| 0 <= x < c3.len() && #[trigger] c3[x] == 0 implies c1[x] == 0 by {
        assert(c2[x] == 0);
    }
}

proof fn lemma_no_rewhite_update(c: Seq<u8>, x: int, v: u8)
    requires
        0 <= x < c.len(),
        v != 0,
    ensures
        no_rewhite(c, c.update(x, v)),
{
    assert forall|y: int| 0 <= y < c.len() && #[trigger] c.update(x, v)[y] == 0 implies c[y] == 0 by {
        if y != x {
            assert(c.update(x, v)[y] == c[y]);
        }
    }
}

proof fn lemma_mono_node(a: Arch, u: int, enter: Seq<char>, c: Seq<u8>, s: PathStack, fuel: nat)
    requires
        0 <= u < c.len(),
        c.len() == a.components@.len(),
    ensures
        no_rewhite(c, dfs_node(a, u, enter, c, s, fuel).1),
    decreases fuel, 1int, 0int,
{
    let c1 = c.update(u, 1);
    lemma_no_rewhite_update(c, u, 1);
    lemma_mono_edges(a, u, 0, c1, s.push((u, enter)), fuel);
    lemma_no_rewhite_trans(c, c1, dfs_edges(a, u, 0, c1, s.push((u, enter)), fuel).1);
}

proof fn lemma_mono_edges(a: Arch, u: int, k: int, c: Seq<u8>, s: PathStack, fuel: nat)
    requires
        0 <= u < c.len(),
        c.len() == a.components@.len(),
    ensures
        no_rewhite(c, dfs_edges(a, u, k, c, s, fuel).1),
    decreases fuel, 0int, a.edges@.len() - k,
{
    if k < 0 || k >= a.edges@.len() {
        lemma_no_rewhite_update(c, u, 2);
    } else {
        let e = a.edges@[k];
        lemma_sync_link_range(a, k);
        match sync_link(a, k) {
            Some((fc, v)) => {
                if fc != u {
                    lemma_mono_edges(a, u, k + 1, c, s, fuel);
                } else if c[v] == 1 {
                } else if c[v] == 0 {
                    if fuel == 0 {
                        lemma_no_rewhite_update(c, u, 2);
                    } else {
                        let r = dfs_node(a, v, e.from@, c, s, (fuel - 1) as nat);
                        lemma_mono_node(a, v, e.from@, c, s, (fuel - 1) as nat);
                        if r.0 is None {
                            lemma_mono_edges(a, u, k + 1, r.1, r.2, fuel);
                            lemma_no_rewhite_trans(c, r.1, dfs_edges(a, u, k + 1, r.1, r.2, fuel).1);
                        }
                    }
                } else {
                    lemma_mono_edges(a, u, k + 1, c, s, fuel);
                }
            },
            None => {
                lemma_mono_edges(a, u, k + 1, c, s, fuel);
            },
        }
    }
}

proof fn lemma_white_pos(c: Seq<u8>, x: int)
    requires
        0 <= x < c.len(),
        c[x] == 0,
    ensures
        white(c) >= 1,
{
    lemma_white_update(c, x, 1);
}

proof fn lemma_fuel_node(a: Arch, u: int, enter: Seq<char>, c: Seq<u8>, s: PathStack, f1: nat, f2: nat)
    requires
        0 <= u < c.len(),
        c.len() == a.components@.len(),
        c[u] == 0,
        white(c) <= f1,
        white(c) <= f2,
    ensures
        dfs_node(a, u, enter, c, s, f1) == dfs_node(a, u, enter, c, s, f2),
    decreases f1, 1int, 0int,
{
    lemma_white_update(c, u, 1);
    lemma_fuel_edges(a, u, 0, c.update(u, 1), s.push((u, enter)), f1, f2);
}

proof fn lemma_fuel_edges(a: Arch, u: int, k: int, c: Seq<u8>, s: PathStack, f1: nat, f2: nat)
    requires
        0 <= u < c.len(),
        c.len() == a.components@.len(),
        white(c) < f1,
        white(c) < f2,
    ensures
        dfs_edges(a, u, k, c, s, f1) == dfs_edges(a, u, k, c, s, f2),
    decreases f1, 0int, a.edges@.len() - k,
{
    if k < 0 || k >= a.edges@.len() {
    } else {
        let e = a.edges@[k];
        lemma_sync_link_range(a, k);
        match sync_link(a, k) {
            Some((fc, v)) => {
                if fc != u {
                    lemma_fuel_edges(a, u, k + 1, c, s, f1, f2);
                } else if c[v] == 1 {
                } else if c[v] == 0 {
                    lemma_white_pos(c, v);
                    let r = dfs_node(a, v, e.from@, c, s, (f1 - 1) as nat);
                    lemma_fuel_node(a, v, e.from@, c, s, (f1 - 1) as nat, (f2 - 1) as nat);
                    if r.0 is None {
                        lemma_mono_node(a, v, e.from@, c, s, (f1 - 1) as nat);
                        lemma_white_le(c, r.1);
                        lemma_fuel_edges(a, u, k + 1, r.1, r.2, f1, f2);
                    }
                } else {
                    lemma_fuel_edges(a, u, k + 1, c, s, f1, f2);
                }
            },
            None => {
                lemma_fuel_edges(a, u, k + 1, c, s, f1, f2);
            },
        }
    }
}

proof fn lemma_fuel_scan(a: Arch, k: int, c: Seq<u8>, s: PathStack, f1: nat, f2: nat)
    requires
        c.len() == a.components@.len(),
        white(c) <= f1,
        white(c) <= f2,
    ensures
        cycle_scan(a, k, c, s, f1) == cycle_scan(a, k, c, s, f2),
    decreases a.components@.len() - k,
{
    if 0 <= k < a.components@.len() {
        let comp = a.components@[k];
        let u = comp_index(a, comp.id@);
        lemma_key_index(a.components@, comp.id@);
        assert(a.components@[k].key() == comp.id@);
        if c[u] == 0 {
            let r = dfs_node(a, u, Seq::<char>::empty(), c, s, f1);
            lemma_fuel_node(a, u, Seq::<char>::empty(), c, s, f1, f2);
            if r.0 is None {
                lemma_mono_node(a, u, Seq::<char>::empty(), c, s, f1);
                lemma_white_le(c, r.1);
                lemma_fuel_scan(a, k + 1, r.1, r.2, f1, f2);
            }
        } else {
            lemma_fuel_scan(a, k + 1, c, s, f1, f2);
        }
    }
}

proof fn lemma_white_bound(c: Seq<u8>)
    ensures
        white(c) <= c.len(),
    decreases c.len(),
{
    if c.len() > 0 {
        lemma_white_bound(c.drop_last());
    }
}

/// The search never runs short of depth: with any larger depth budget than
/// the number of components it finds the same cycle, or none.
pub proof fn law_cycle_search_depth_sufficient(a: Arch, fuel: nat)
    requires
        fuel >= a.components@.len(),
    ensures
        cycle_scan(a, 0, Seq::new(a.components@.len(), |i: int| 0u8), seq![], fuel) == spec_find_sync_cycle(a),
{
    let c = Seq::new(a.components@.len(), |i: int| 0u8);
    lemma_white_bound(c);
    lemma_fuel_scan(a, 0, c, seq![], fuel, a.components@.len() as nat);
}

/// Every link out of a finished component leads to a finished component.
spec fn succ_black(a: Arch, c: Seq<u8>) -> bool {
    forall|k: int|
        0 <= k < a.edges@.len() ==> (#[trigger] sync_link(a, k) matches Some((f, t)) ==> (c[f] == 2 ==> c[t] == 2))
}

/// The finished components hold no cycle.
spec fn black_acyclic(a: Arch, c: Seq<u8>) -> bool {
    forall|ns: Seq<int>| #[trigger] is_cycle(a, ns) ==> exists|i: int| 0 <= i < ns.len() && c[ns[i]] != 2
}

/// The links of `u` among the first `k` edges lead to finished components.
spec fn done_links(a: Arch, u: int, k: int, c: Seq<u8>) -> bool {
    forall|j: int| 0 <= j < k && j < a.edges@.len() ==> (#[trigger] sync_link(a, j) matches Some((f, t)) ==> (f == u ==> c[t] == 2))
}

spec fn colors_valid(c: Seq<u8>) -> bool {
    forall|x: int| 0 <= x < c.len() ==> #[trigger] c[x] <= 2
}

spec fn blacks_kept(c1: Seq<u8>, c2: Seq<u8>) -> bool {
    forall|x: int| 0 <= x < c1.len() && #[trigger] c1[x] == 2 ==> c2[x] == 2
}

spec fn grays_kept_except(c1: Seq<u8>, c2: Seq<u8>, v: int) -> bool {
    forall|x: int| 0 <= x < c1.len() && x != v && #[trigger] c1[x] == 1 ==> c2[x] == 1
}

proof fn lemma_cycle_nodes_in_range(a: Arch, ns: Seq<int>)
    requires
        is_cycle(a, ns),
    ensures
        forall|i: int| 0 <= i < ns.len() ==> 0 <= #[trigger] ns[i] < a.components@.len(),
{
    assert forall|i: int| 0 <= i < ns.len() implies 0 <= #[trigger] ns[i] < a.components@.len() by {
        let j = if i < ns.len() - 1 {
            i
        } else {
            0
        };
        assert(linked(a, ns[j], ns[j + 1]));
        let k = choose|k: int| 0 <= k < a.edges@.len() && #[trigger] sync_link(a, k) == Some((ns[j], ns[j + 1]));
        lemma_sync_link_range(a, k);
    }
}

proof fn lemma_blacken(a: Arch, u: int, c: Seq<u8>)
    requires
        0 <= u < c.len(),
        c.len() == a.components@.len(),
        c[u] == 1,
        succ_black(a, c),
        black_acyclic(a, c),
        done_links(a, u, a.edges@.len() as int, c),
    ensures
        succ_black(a, c.update(u, 2)),
        black_acyclic(a, c.update(u, 2)),
{
    let c2 = c.update(u, 2);
    assert forall|k: int| 0 <= k < a.edges@.len() implies (#[trigger] sync_link(a, k) matches Some((f, t)) ==> (c2[f] == 2 ==> c2[t] == 2)) by {
        lemma_sync_link_range(a, k);
        match sync_link(a, k) {
            Some((f, t)) => {
                if c2[f] == 2 {
                    if f == u {
                        assert(c[t] == 2);
                    } else {
                        assert(c[f] == 2);
                    }
                }
            },
            None => {},
        }
    }
    assert forall|ns: Seq<int>| #[trigger] is_cycle(a, ns) implies exists|i: int| 0 <= i < ns.len() && c2[ns[i]] != 2 by {
        lemma_cycle_nodes_in_range(a, ns);
        if forall|i: int| 0 <= i < ns.len() ==> c2[ns[i]] == 2 {
            if exists|i: int| 0 <= i < ns.len() && ns[i] == u {
                let i = choose|i: int| 0 <= i < ns.len() && ns[i] == u;
                let j = if i >= 1 {
                    i - 1
                } else {
                    ns.len() - 2
                };
                assert(ns[j + 1] == u);
                assert(linked(a, ns[j], ns[j + 1]));
                let k = choose|k: int| 0 <= k < a.edges@.len() && #[trigger] sync_link(a, k) == Some((ns[j], ns[j + 1]));
                assert(c2[ns[j]] == 2);
                if ns[j] == u {
                    assert(c[u] == 2);
                } else {
                    assert(c[ns[j]] == 2);
                    assert(c[u] == 2);
                }
            } else {
                assert forall|i: int| 0 <= i < ns.len() implies c[ns[i]] == 2 by {
                    assert(c2[ns[i]] == 2);
                }
                let i = choose|i: int| 0 <= i < ns.len() && c[ns[i]] != 2;
                assert(c2[ns[i]] == 2);
            }
        }
    }
}

proof fn lemma_gray(a: Arch, v: int, c: Seq<u8>)
    requires
        0 <= v < c.len(),
        c.len() == a.components@.len(),
        c[v] == 0,
        succ_black(a, c),
        black_acyclic(a, c),
    ensures
        succ_black(a, c.update(v, 1)),
        black_acyclic(a, c.update(v, 1)),
{
    let c2 = c.update(v, 1);
    assert forall|k: int| 0 <= k < a.edges@.len() implies (#[trigger] sync_link(a, k) matches Some((f, t)) ==> (c2[f] == 2 ==> c2[t] == 2)) by {
        lemma_sync_link_range(a, k);
        match sync_link(a, k) {
            Some((f, t)) => {
                if c2[f] == 2 {
                    assert(c[f] == 2);
                }
            },
            None => {},
        }
    }
    assert forall|ns: Seq<int>| #[trigger] is_cycle(a, ns) implies exists|i: int| 0 <= i < ns.len() && c2[ns[i]] != 2 by {
        lemma_cycle_nodes_in_range(a, ns);
        let i = choose|i: int| 0 <= i < ns.len() && c[ns[i]] != 2;
        assert(c2[ns[i]] != 2);
    }
}

proof fn lemma_complete_node(a: Arch, v: int, enter: Seq<char>, c: Seq<u8>, s: PathStack, fuel: nat)
    requires
        0 <= v < c.len(),
        c.len() == a.components@.len(),
        c[v] == 0,
        white(c) <= fuel,
        colors_valid(c),
        succ_black(a, c),
        black_acyclic(a, c),
    ensures
        ({
            let r = dfs_node(a, v, enter, c, s, fuel);
            r.0 is None ==> {
                &&& r.1.len() == c.len()
                &&& colors_valid(r.1)
                &&& succ_black(a, r.1)
                &&& black_acyclic(a, r.1)
                &&& r.1[v] == 2
                &&& blacks_kept(c, r.1)
                &&& grays_kept_except(c, r.1, v)
            }
        }),
    decreases fuel, 1int, 0int,
{
    let c1 = c.update(v, 1);
    lemma_white_update(c, v, 1);
    lemma_gray(a, v, c);
    assert forall|x: int| 0 <= x < c1.len() implies #[trigger] c1[x] <= 2 by {
        if x != v {
            assert(c1[x] == c[x]);
        }
    }
    lemma_complete_edges(a, v, 0, c1, s.push((v, enter)), fuel);
    let r = dfs_node(a, v, enter, c, s, fuel);
    if r.0 is None {
        assert forall|x: int| 0 <= x < c.len() && #[trigger] c[x] == 2 implies r.1[x] == 2 by {
            assert(c1[x] == 2);
        }
        assert forall|x: int| 0 <= x < c.len() && x != v && #[trigger] c[x] == 1 implies r.1[x] == 1 by {
            assert(c1[x] == 1);
        }
    }
}

proof fn lemma_complete_edges(a: Arch, u: int, k: int, c: Seq<u8>, s: PathStack, fuel: nat)
    requires
        0 <= u < c.len(),
        c.len() == a.components@.len(),
        0 <= k,
        c[u] == 1,
        white(c) < fuel,
        colors_valid(c),
        succ_black(a, c),
        black_acyclic(a, c),
        done_links(a, u, k, c),
    ensures
        ({
            let r = dfs_edges(a, u, k, c, s, fuel);
            r.0 is None ==> {
                &&& r.1.len() == c.len()
                &&& colors_valid(r.1)
                &&& succ_black(a, r.1)
                &&& black_acyclic(a, r.1)
                &&& r.1[u] == 2
                &&& blacks_kept(c, r.1)
                &&& grays_kept_except(c, r.1, u)
            }
        }),
    decreases fuel, 0int, a.edges@.len() - k,
{
    if k >= a.edges@.len() {
        lemma_blacken(a, u, c);
        let c2 = c.update(u, 2);
        assert forall|x: int| 0 <= x < c2.len() implies #[trigger] c2[x] <= 2 by {
            if x != u {
                assert(c2[x] == c[x]);
            }
        }
    } else {
        let e = a.edges@[k];
        lemma_sync_link_range(a, k);
        match sync_link(a, k) {
            Some((fc, v)) => {
                if fc != u {
                    lemma_complete_edges(a, u, k + 1, c, s, fuel);
                } else if c[v] == 1 {
                } else if c[v] == 0 {
                    lemma_white_pos(c, v);
                    let r = dfs_node(a, v, e.from@, c, s, (fuel - 1) as nat);
                    lemma_complete_node(a, v, e.from@, c, s, (fuel - 1) as nat);
                    if r.0 is None {
                        lemma_mono_node(a, v, e.from@, c, s, (fuel - 1) as nat);
                        lemma_white_le(c, r.1);
                        assert(r.1[u] == 1);
                        assert(done_links(a, u, k + 1, r.1)) by {
                            assert forall|j: int| 0 <= j < k + 1 && j < a.edges@.len() implies (#[trigger] sync_link(a, j) matches Some((f, t)) ==> (f == u ==> r.1[t] == 2)) by {
                                lemma_sync_link_range(a, j);
                                if j < k {
                                    match sync_link(a, j) {
                                        Some((f, t)) => {
                                            if f == u {
                                                assert(c[t] == 2);
                                            }
                                        },
                                        None => {},
                                    }
                                }
                            }
                        }
                        lemma_complete_edges(a, u, k + 1, r.1, r.2, fuel);
                        let r2 = dfs_edges(a, u, k + 1, r.1, r.2, fuel);
                        if r2.0 is None {
                            assert forall|x: int| 0 <= x < c.len() && #[trigger] c[x] == 2 implies r2.1[x] == 2 by {
                                assert(r.1[x] == 2);
                            }
                            assert forall|x: int| 0 <= x < c.len() && x != u && #[trigger] c[x] == 1 implies r2.1[x]
                                == 1 by {
                                assert(x != v);
                                assert(r.1[x] == 1);
                            }
                        }
                    }
                } else {
                    assert(c[v] == 2);
                    assert(done_links(a, u, k + 1, c)) by {
                        assert forall|j: int| 0 <= j < k + 1 && j < a.edges@.len() implies (#[trigger] sync_link(a, j) matches Some((f, t)) ==> (f == u ==> c[t] == 2)) by {
                        }
                    }
                    lemma_complete_edges(a, u, k + 1, c, s, fuel);
                }
            },
            None => {
                lemma_complete_edges(a, u, k + 1, c, s, fuel);
            },
        }
    }
}

proof fn lemma_link_canonical(a: Arch, k: int)
    requires
        0 <= k < a.edges@.len(),
    ensures
        sync_link(a, k) matches Some((f, t)) ==> comp_index(a, a.components@[f].id@) == f && comp_index(
            a,
            a.components@[t].id@,
        ) == t,
{
    let e = a.edges@[k];
    match (split_at_dot(e.from@), split_at_dot(e.to@)) {
        (Some((f, _)), Some((t, _))) => {
            lemma_key_index(a.components@, f);
            lemma_key_index(a.components@, t);
            let fi = key_index(a.components@, f);
            let ti = key_index(a.components@, t);
            if fi >= 0 {
                lemma_key_index(a.components@, a.components@[fi].id@);
                assert(a.components@[fi].key() == f);
            }
            if ti >= 0 {
                lemma_key_index(a.components@, a.components@[ti].id@);
                assert(a.components@[ti].key() == t);
            }
        },
        _ => {},
    }
}

proof fn lemma_complete_scan(a: Arch, k: int, c: Seq<u8>, s: PathStack, fuel: nat)
    requires
        c.len() == a.components@.len(),
        0 <= k <= a.components@.len(),
        s.len() == 0,
        white(c) <= fuel,
        forall|x: int| 0 <= x < c.len() ==> #[trigger] c[x] != 1,
        colors_valid(c),
        succ_black(a, c),
        black_acyclic(a, c),
        forall|j: int| 0 <= j < k ==> c[comp_index(a, (#[trigger] a.components@[j]).id@)] == 2,
    ensures
        cycle_scan(a, k, c, s, fuel) is None ==> forall|ns: Seq<int>| !is_cycle(a, ns),
    decreases a.components@.len() - k,
{
    if k < a.components@.len() {
        let comp = a.components@[k];
        let u = comp_index(a, comp.id@);
        lemma_key_index(a.components@, comp.id@);
        assert(a.components@[k].key() == comp.id@);
        if c[u] == 0 {
            let r = dfs_node(a, u, Seq::<char>::empty(), c, s, fuel);
            lemma_complete_node(a, u, Seq::<char>::empty(), c, s, fuel);
            assert(chain(a, s));
            lemma_cycle_node(a, u, Seq::<char>::empty(), c, s, fuel);
            if r.0 is None {
                lemma_mono_node(a, u, Seq::<char>::empty(), c, s, fuel);
                lemma_white_le(c, r.1);
                assert forall|x: int| 0 <= x < r.1.len() implies #[trigger] r.1[x] != 1 by {
                    assert(c[x] != 1);
                }
                assert forall|j: int| 0 <= j < k + 1 implies r.1[comp_index(a, (#[trigger] a.components@[j]).id@)] == 2 by {
                    if j < k {
                        let x = comp_index(a, a.components@[j].id@);
                        lemma_key_index(a.components@, a.components@[j].id@);
                        assert(a.components@[j].key() == a.components@[j].id@);
                        assert(c[x] == 2);
                    }
                }
                lemma_complete_scan(a, k + 1, r.1, r.2, fuel);
            }
        } else {
            assert forall|j: int| 0 <= j < k + 1 implies c[comp_index(a, (#[trigger] a.components@[j]).id@)] == 2 by {
                if j == k {
                    assert(c[u] != 1);
                    assert(c[u] <= 2);
                }
            }
            lemma_complete_scan(a, k + 1, c, s, fuel);
        }
    } else {
        assert forall|ns: Seq<int>| !is_cycle(a, ns) by {
            if is_cycle(a, ns) {
                lemma_cycle_nodes_in_range(a, ns);
                assert forall|i: int| 0 <= i < ns.len() implies c[ns[i]] == 2 by {
                    let j = if i < ns.len() - 1 {
                        i
                    } else {
                        0
                    };
                    assert(linked(a, ns[j], ns[j + 1]));
                    let kk = choose|kk: int| 0 <= kk < a.edges@.len() && #[trigger] sync_link(a, kk) == Some((ns[j], ns[j + 1]));
                    lemma_link_canonical(a, kk);
                    let x = ns[i];
                    assert(comp_index(a, a.components@[x].id@) == x);
                    assert(c[comp_index(a, a.components@[x].id@)] == 2);
                }
                let i = choose|i: int| 0 <= i < ns.len() && c[ns[i]] != 2;
            }
        }
    }
}

/// The sync-call cycle check is exact: it reports a cycle exactly when the
/// sync-call links form one.
pub proof fn law_cycle_complete(a: Arch)
    ensures
        spec_find_sync_cycle(a) is None <==> forall|ns: Seq<int>| !is_cycle(a, ns),
{
    let c = Seq::new(a.components@.len(), |i: int| 0u8);
    lemma_white_bound(c);
    assert(colors_valid(c));
    assert(succ_black(a, c)) by {
        assert forall|k: int| 0 <= k < a.edges@.len() implies (#[trigger] sync_link(a, k) matches Some((f, t)) ==> (c[f] == 2 ==> c[t] == 2)) by {
            lemma_sync_link_range(a, k);
        }
    }
    assert(black_acyclic(a, c)) by {
        assert forall|ns: Seq<int>| #[trigger] is_cycle(a, ns) implies exists|i: int| 0 <= i < ns.len() && c[ns[i]] != 2 by {
            lemma_cycle_nodes_in_range(a, ns);
            assert(c[ns[0]] != 2);
        }
    }
    lemma_complete_scan(a, 0, c, seq![], a.components@.len() as nat);
    law_cycle_sound(a);
}

// ----- views of the executable state -----

pub open spec fn stack_view(s: Seq<(usize, String)>) -> PathStack {
    Seq::new(s.len(), |i: int| (s[i].0 as int, s[i].1@))
}

pub open spec fn strings_view(v: Seq<String>) -> Seq<Seq<char>> {
    v.map_values(|s: String| s@)
}

pub open spec fn found_view(r: Option<(String, Vec<String>)>) -> Found {
    match r {
        Some((e, p)) => Some((e@, strings_view(p@))),
        None => None,
    }
}

pub open spec fn links_ok(a: Arch, links: Seq<Option<(usize, usize)>>) -> bool {
    &&& links.len() == a.edges@.len()
    &&& forall|k: int| 0 <= k < links.len() ==> match #[trigger] links[k] {
        Some((f, t)) => sync_link(a, k) == Some((f as int, t as int)) && f < a.components@.len() && t
            < a.components@.len(),
        None => sync_link(a, k) is None,
    }
}

// ----- executable search -----

fn sync_links(a: &Arch) -> (r: Vec<Option<(usize, usize)>>)
    ensures
        links_ok(*a, r@),
{
    let mut r: Vec<Option<(usize, usize)>> = Vec::new();
    let n = a.edges.len();
    let mut k: usize = 0;
    while k < n
        invariant
            n == a.edges@.len(),
            k <= n,
            r@.len() == k,
            forall|j: int| 0 <= j < k ==> match #[trigger] r@[j] {
                Some((f, t)) => sync_link(*a, j) == Some((f as int, t as int)) && f < a.components@.len() && t
                    < a.components@.len(),
                None => sync_link(*a, j) is None,
            },
        decreases n - k,
    {
        let e = &a.edges[k];
        let mut l: Option<(usize, usize)> = None;
        if str_eq(e.etype.as_str(), "sync-call") {
            match (a.resolve_port_index(e.from.as_str()), a.resolve_port_index(e.to.as_str())) {
                (Some((fc, _)), Some((tc, _))) => {
                    l = Some((fc, tc));
                },
                _ => {},
            }
        }
        r.push(l);
        k = k + 1;
    }
    r
}

/// The entry references of the path from the first position of `v`, then `fref` and `tref`.
fn cycle_path_exec(stack: &Vec<(usize, String)>, v: usize, fref: &String, tref: &String) -> (r: Vec<String>)
    ensures
        strings_view(r@) == cycle_path(stack_view(stack@), v as int, fref@, tref@),
{
    let ghost sv = stack_view(stack@);
    let n = stack.len();
    let mut i: usize = 0;
    while i < n && stack[i].0 != v
        invariant
            n == stack@.len(),
            sv == stack_view(stack@),
            i <= n,
            path_start(sv, v as int, 0) == path_start(sv, v as int, i as int),
        decreases n - i,
    {
        i = i + 1;
    }
    let mut out: Vec<String> = Vec::new();
    let s = if i < n {
        i + 1
    } else {
        n
    };
    let mut i = s;
    while i < n
        invariant
            n == stack@.len(),
            sv == stack_view(stack@),
            s <= i <= n,
            s < n ==> path_start(sv, v as int, 0) == s - 1,
            s <= n,
            path_start(sv, v as int, 0) == -1 ==> s == n,
            path_start(sv, v as int, 0) >= 0 ==> s == path_start(sv, v as int, 0) + 1,
            out@.len() == i - s,
            forall|j: int| 0 <= j < i - s ==> (#[trigger] out@[j])@ == sv[s + j].1,
        decreases n - i,
    {
        out.push(stack[i].1.clone());
        i = i + 1;
    }
    out.push(fref.clone());
    out.push(tref.clone());
    proof {
        let ps = path_start(sv, v as int, 0);
        let pre = if ps >= 0 {
            refs_from(sv, ps + 1)
        } else {
            seq![]
        };
        assert(pre =~= Seq::new((n - s) as nat, |j: int| sv[s + j].1));
        assert(strings_view(out@) =~= pre + seq![fref@, tref@]);
    }
    out
}

fn dfs_node_exec(
    a: &Arch,
    links: &Vec<Option<(usize, usize)>>,
    u: usize,
    enter: String,
    color: &mut Vec<u8>,
    stack: &mut Vec<(usize, String)>,
    fuel: usize,
) -> (r: Option<(String, Vec<String>)>)
    requires
        links_ok(*a, links@),
        u < a.components@.len(),
        old(color)@.len() == a.components@.len(),
    ensures
        (found_view(r), final(color)@, stack_view(final(stack)@)) == dfs_node(
            *a,
            u as int,
            enter@,
            old(color)@,
            stack_view(old(stack)@),
            fuel as nat,
        ),
        final(color)@.len() == old(color)@.len(),
        r is None ==> final(stack)@ == old(stack)@,
    decreases fuel,
{
    let ghost c1 = old(color)@.update(u as int, 1);
    let ghost s0 = stack@;
    let ghost s1 = stack_view(old(stack)@).push((u as int, enter@));
    let ghost whole = dfs_node(*a, u as int, enter@, old(color)@, stack_view(old(stack)@), fuel as nat);
    assert(whole == dfs_edges(*a, u as int, 0, c1, s1, fuel as nat));
    color.set(u, 1);
    stack.push((u, enter));
    assert(stack_view(stack@) =~= s1);
    let n = a.edges.len();
    let mut k: usize = 0;
    while k < n
        invariant
            links_ok(*a, links@),
            n == a.edges@.len(),
            k <= n,
            u < a.components@.len(),
            color@.len() == a.components@.len(),
            stack@ == s0.push((u, enter)),
            old(color)@.len() == a.components@.len(),
            s0 == old(stack)@,
            whole == dfs_edges(*a, u as int, 0, c1, s1, fuel as nat),
            whole == dfs_node(*a, u as int, enter@, old(color)@, stack_view(old(stack)@), fuel as nat),
            dfs_edges(*a, u as int, 0, c1, s1, fuel as nat) == dfs_edges(
                *a,
                u as int,
                k as int,
                color@,
                stack_view(stack@),
                fuel as nat,
            ),
        decreases n - k,
    {
        let e = &a.edges[k];
        match links[k] {
            Some((fc, v)) => {
                if fc == u {
                    assert(sync_link(*a, k as int) == Some((fc as int, v as int)));
                    let cv = color[v];
                    if cv == 1 {
                        let path = cycle_path_exec(stack, v, &e.from, &e.to);
                        let id = e.id.clone();
                        assert(dfs_edges(*a, u as int, k as int, color@, stack_view(stack@), fuel as nat) == (
                        Some((id@, strings_view(path@))), color@, stack_view(stack@)));
                        let res = Some((id, path));
                        assert(found_view(res) == Some((id@, strings_view(path@))));
                        assert(whole == (found_view(res), color@, stack_view(stack@)));
                        return res;
                        
                    } else if cv == 0 {
                        if fuel == 0 {
                            color.set(u, 2);
                            stack.pop();
                            assert(stack_view(stack@) =~= stack_view(s0.push((u, enter))).drop_last());
                            assert(stack@ =~= s0);
                            return None;
                        }
                        let r = dfs_node_exec(a, links, v, e.from.clone(), color, stack, fuel - 1);
                        if r.is_some() {
                            
                            return r;
                        }
                    }
                }
            },
            None => {},
        }
        k = k + 1;
    }
    color.set(u, 2);
    stack.pop();
    assert(stack_view(stack@) =~= stack_view(s0.push((u, enter))).drop_last());
    assert(stack@ =~= s0);
    None
}

/// The first sync-call cycle, with the id of its closing edge and its path of references.
pub fn find_sync_cycle(a: &Arch) -> (r: Option<(String, Vec<String>)>)
    ensures
        found_view(r) == spec_find_sync_cycle(*a),
{
    let links = sync_links(a);
    let nc = a.components.len();
    let mut color: Vec<u8> = Vec::new();
    let mut i: usize = 0;
    while i < nc
        invariant
            nc == a.components@.len(),
            i <= nc,
            color@ =~= Seq::new(i as nat, |j: int| 0u8),
        decreases nc - i,
    {
        color.push(0);
        i = i + 1;
    }
    let mut stack: Vec<(usize, String)> = Vec::new();
    assert(stack_view(stack@) =~= seq![]);
    let mut k: usize = 0;
    while k < nc
        invariant
            links_ok(*a, links@),
            nc == a.components@.len(),
            k <= nc,
            color@.len() == nc,
            stack@ == Seq::<(usize, String)>::empty(),
            spec_find_sync_cycle(*a) == cycle_scan(*a, k as int, color@, stack_view(stack@), nc as nat),
        decreases nc - k,
    {
        let c = &a.components[k];
        proof {
            lemma_key_index(a.components@, c.id@);
        }
        match find_key(&a.components, c.id.as_str()) {
            None => {
                assert(a.components@[k as int].key() == c.id@);
                assert(false);
            },
            Some(u) => {
                if color[u] == 0 {
                    let enter = String::new();
                    let r = dfs_node_exec(a, &links, u, enter, &mut color, &mut stack, nc);
                    if r.is_some() {
                        return r;
                    }
                }
            },
        }
        k = k + 1;
    }
    None
}

} // verus!
