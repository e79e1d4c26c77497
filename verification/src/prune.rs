use vstd::prelude::*;
use crate::arena::{
    arena_entries, arena_get, arena_get_mut, arena_remove, arena_retired, is_key, NodeArena,
};
use crate::depgraph::{graph_edges, graph_nodes, graph_remove_node, Depgraph, Edge, ParamKey};
use crate::network::{tree_ok, GenericNodeId, NodeHierarchy};
use crate::param::Param;
use crate::payload::{payload_entries, store_take, PayloadStore};

verus! {

/// The node `n` is `anc` or lies below it.
pub open spec fn is_under(nodes: Map<u64, NodeHierarchy>, n: u64, anc: u64) -> bool
    decreases nodes[n].depth@,
{
    n == anc || (nodes.dom().contains(n) && nodes[n].parent is Some && nodes.dom().contains(
        nodes[n].parent->0.raw,
    ) && nodes[nodes[n].parent->0.raw].depth@ < nodes[n].depth@ && is_under(
        nodes,
        nodes[n].parent->0.raw,
        anc,
    ))
}

/// The node `id` and all nodes below it.
pub open spec fn subtree(nodes: Map<u64, NodeHierarchy>, id: u64) -> Set<u64> {
    Set::new(|n: u64| nodes.dom().contains(n) && is_under(nodes, n, id))
}

/// `s` holds the children of each of its members, as far as they are not on
/// the stack `pile`.
pub open spec fn children_seen(nodes: Map<u64, NodeHierarchy>, s: Set<u64>, pile: Seq<u64>) -> bool {
    forall|x: u64, i: int|
        s.contains(x) && 0 <= i < nodes[x].children@.len() ==> s.contains(
            (#[trigger] nodes[x].children@[i]).raw,
        ) || pile.contains(nodes[x].children@[i].raw)
}

/// A set that holds `id` and the children of each of its members holds
/// every node below `id`.
pub proof fn lemma_closed_holds_subtree(
    nodes: Map<u64, NodeHierarchy>,
    root: u64,
    s: Set<u64>,
    id: u64,
    n: u64,
)
    requires
        tree_ok(nodes, root),
        s.contains(id),
        children_seen(nodes, s, Seq::<u64>::empty()),
        nodes.dom().contains(n),
        is_under(nodes, n, id),
    ensures
        s.contains(n),
    decreases nodes[n].depth@,
{
    if n != id {
        let up = nodes[n].parent->0.raw;
        lemma_closed_holds_subtree(nodes, root, s, id, up);
        assert(nodes[up].children@.contains(GenericNodeId { raw: n }));
        let i = choose|i: int|
            0 <= i < nodes[up].children@.len() && nodes[up].children@[i] == (GenericNodeId {
            raw: n,
        });
        assert(s.contains(nodes[up].children@[i].raw) || Seq::<u64>::empty().contains(
            nodes[up].children@[i].raw,
        ));
    }
}

/// `gone` lists the members of `s` with their records in `nodes`, each once.
pub open spec fn lists_records(nodes: Map<u64, NodeHierarchy>, s: Set<u64>, gone: Seq<(u64, NodeHierarchy)>) -> bool {
    &&& forall|j: int| 0 <= j < gone.len() ==> s.contains((#[trigger] gone[j]).0) && gone[j].1 == nodes[gone[j].0]
    &&& forall|k: u64| s.contains(k) ==> exists|j: int| 0 <= j < gone.len() && (#[trigger] gone[j]).0 == k
    &&& forall|i: int, j: int| 0 <= i < j < gone.len() ==> (#[trigger] gone[i]).0 != (#[trigger] gone[j]).0
}

/// Takes the node `id` and all nodes below it out of the arena, and returns
/// them with their keys.
pub(crate) fn cut_subtree(arena: &mut NodeArena, id: u64, Ghost(root): Ghost<u64>) -> (gone: Vec<(u64, NodeHierarchy)>)
    requires
        tree_ok(arena_entries(*old(arena)), root),
        arena_entries(*old(arena)).dom().contains(id),
    ensures
        arena_entries(*final(arena)) == arena_entries(*old(arena)).remove_keys(
            subtree(arena_entries(*old(arena)), id),
        ),
        lists_records(arena_entries(*old(arena)), subtree(arena_entries(*old(arena)), id), gone@),
        arena_retired(*final(arena)) == arena_retired(*old(arena)).union(
            subtree(arena_entries(*old(arena)), id),
        ),
{
    let ghost n0 = arena_entries(*arena);
    let ghost r0 = arena_retired(*arena);
    let ghost mut removed: Set<u64> = Set::empty();
    let mut gone: Vec<(u64, NodeHierarchy)> = Vec::new();
    let mut pile: Vec<u64> = Vec::new();
    pile.push(id);
    assert(pile@[0] == id);
    assert(n0.remove_keys(removed) =~= n0);
    while pile.len() > 0
        invariant
            tree_ok(n0, root),
            n0.dom().contains(id),
            removed.finite(),
            removed.subset_of(n0.dom()),
            arena_entries(*arena) == n0.remove_keys(removed),
            arena_retired(*arena) =~= r0.union(removed),
            lists_records(n0, removed, gone@),
            forall|i: int|
                0 <= i < pile@.len() ==> n0.dom().contains(#[trigger] pile@[i]) && is_under(n0, pile@[i], id),
            children_seen(n0, removed, pile@),
            removed.contains(id) || pile@.contains(id),
            forall|x: u64| removed.contains(x) ==> is_under(n0, x, id),
        decreases n0.dom().len() - removed.len(), pile@.len(),
    {
        let ghost before = pile@;
        let ghost seen = removed;
        let ghost listed = gone@;
        let x = pile.pop().unwrap();
        assert(before[before.len() - 1] == x);
        assert(n0.dom().contains(x));
        assert(forall|v: u64| pile@.contains(v) ==> before.contains(v)) by {
            assert forall|v: u64| pile@.contains(v) implies before.contains(v) by {
                let j = choose|j: int| 0 <= j < pile@.len() && pile@[j] == v;
                assert(before[j] == v);
            }
        }
        assert(forall|v: u64| before.contains(v) ==> v == x || pile@.contains(v)) by {
            assert forall|v: u64| before.contains(v) implies v == x || pile@.contains(v) by {
                let j = choose|j: int| 0 <= j < before.len() && before[j] == v;
                if j < pile@.len() {
                    assert(pile@[j] == v);
                }
            }
        }
        match arena_remove(arena, x) {
            Some(rec) => {
                proof {
                    assert(!seen.contains(x));
                    removed = seen.insert(x);
                    assert(arena_entries(*arena) =~= n0.remove_keys(removed));
                    vstd::set_lib::lemma_len_subset(removed, n0.dom());
                }
                let ghost base = pile@;
                let mut c: usize = 0;
                while c < rec.children.len()
                    invariant
                        c <= rec.children.len(),
                        rec == n0[x],
                        n0.dom().contains(x),
                        is_under(n0, x, id),
                        tree_ok(n0, root),
                        pile@.len() == base.len() + c,
                        forall|i: int| 0 <= i < base.len() ==> pile@[i] == base[i],
                        forall|i: int| 0 <= i < c ==> pile@[base.len() + i] == rec.children@[i].raw,
                        forall|i: int|
                            0 <= i < pile@.len() ==> n0.dom().contains(#[trigger] pile@[i]) && is_under(n0, pile@[i], id),
                    decreases rec.children.len() - c,
                {
                    let kid = rec.children[c];
                    proof {
                        let k = n0[x].children@[c as int];
                        assert(n0.dom().contains(k.raw));
                        assert(n0[k.raw].parent == Some(GenericNodeId { raw: x }));
                        assert(k.raw != root);
                        assert(n0[k.raw].depth@ == n0[x].depth@ + 1);
                        assert(is_under(n0, k.raw, id));
                    }
                    pile.push(kid.raw);
                    c += 1;
                }
                gone.push((x, rec));
                proof {
                    assert forall|v: u64| base.contains(v) implies pile@.contains(v) by {
                        let j = choose|j: int| 0 <= j < base.len() && base[j] == v;
                        assert(pile@[j] == v);
                    }
                    assert(children_seen(n0, removed, pile@)) by {
                        assert forall|y: u64, i: int|
                            removed.contains(y) && 0 <= i < n0[y].children@.len() implies removed.contains(
                            (#[trigger] n0[y].children@[i]).raw,
                        ) || pile@.contains(n0[y].children@[i].raw) by {
                            let kid = n0[y].children@[i].raw;
                            if y == x {
                                assert(pile@[base.len() + i] == kid);
                            } else {
                                assert(seen.contains(kid) || before.contains(kid));
                            }
                        }
                    }
                    assert(lists_records(n0, removed, gone@)) by {
                        assert(gone@ == listed.push((x, rec)));
                        assert forall|j: int| 0 <= j < gone@.len() implies removed.contains((#[trigger] gone@[j]).0)
                            && gone@[j].1 == n0[gone@[j].0] by {
                            if j < listed.len() {
                                assert(gone@[j] == listed[j]);
                            }
                        }
                        assert forall|k: u64| removed.contains(k) implies exists|j: int|
                            0 <= j < gone@.len() && (#[trigger] gone@[j]).0 == k by {
                            if k == x {
                                assert(gone@[listed.len() as int].0 == x);
                            } else {
                                let j = choose|j: int|
                                    0 <= j < listed.len() && (#[trigger] listed[j]).0 == k;
                                assert(gone@[j].0 == k);
                            }
                        }
                        assert forall|i: int, j: int|
                            0 <= i < j < gone@.len()
                            implies (#[trigger] gone@[i]).0 != (#[trigger] gone@[j]).0 by {
                            assert(gone@[i] == listed[i]);
                            if j < listed.len() {
                                assert(gone@[j] == listed[j]);
                            } else {
                                assert(seen.contains(listed[i].0));
                            }
                        }
                    }
                }
            },
            None => {
                proof {
                    assert(seen.contains(x));
                    assert(arena_entries(*arena) =~= n0.remove_keys(removed));
                    assert(children_seen(n0, removed, pile@)) by {
                        assert forall|y: u64, i: int|
                            removed.contains(y) && 0 <= i < n0[y].children@.len() implies removed.contains(
                            (#[trigger] n0[y].children@[i]).raw,
                        ) || pile@.contains(n0[y].children@[i].raw) by {
                            let kid = n0[y].children@[i].raw;
                            assert(seen.contains(kid) || before.contains(kid));
                        }
                    }
                }
            },
        }
    }
    proof {
        assert(pile@ =~= Seq::<u64>::empty());
        assert(removed =~= subtree(n0, id)) by {
            assert forall|n: u64| subtree(n0, id).contains(n) implies removed.contains(n) by {
                lemma_closed_holds_subtree(n0, root, removed, id, n);
            }
        }
    }
    gone
}

/// `key` names a parameter of one of the records in `gone`.
pub open spec fn is_doomed(gone: Seq<(u64, NodeHierarchy)>, key: ParamKey) -> bool {
    exists|j: int| 0 <= j < gone.len() && (#[trigger] gone[j]).0 == key.0 && key.1 < gone[j].1.params@.len()
}

/// Lists the keys of all parameters of the records in `gone`.
pub(crate) fn doomed_keys(gone: &Vec<(u64, NodeHierarchy)>) -> (out: Vec<ParamKey>)
    ensures
        forall|key: ParamKey| #[trigger] out@.contains(key) <==> is_doomed(gone@, key),
{
    let mut out: Vec<ParamKey> = Vec::new();
    let mut j: usize = 0;
    while j < gone.len()
        invariant
            j <= gone.len(),
            forall|key: ParamKey|
                #[trigger] out@.contains(key) <==> is_doomed(gone@.subrange(0, j as int), key),
        decreases gone.len() - j,
    {
        let ghost done = gone@.subrange(0, j as int);
        let ghost base = out@;
        let count = gone[j].1.params.len();
        let k = gone[j].0;
        let mut i: usize = 0;
        while i < count
            invariant
                i <= count,
                j < gone.len(),
                count == gone@[j as int].1.params@.len(),
                k == gone@[j as int].0,
                forall|key: ParamKey|
                    #[trigger] out@.contains(key) <==> base.contains(key) || (key.0 == k && key.1 < i),
            decreases count - i,
        {
            let ghost prev = out@;
            out.push((k, i));
            proof {
                assert(out@ == prev.push((k, i)));
                assert forall|key: ParamKey|
                    out@.contains(key)
                    implies base.contains(key) || (key.0 == k && key.1 < i + 1) by {
                    let m = choose|m: int| 0 <= m < out@.len() && out@[m] == key;
                    if m < prev.len() {
                        assert(prev[m] == key);
                        assert(prev.contains(key));
                    } else {
                        assert(key == (k, i));
                    }
                }
                assert forall|key: ParamKey|
                    base.contains(key) || (key.0 == k && key.1 < i + 1)
                    implies #[trigger] out@.contains(key) by {
                    if key.0 == k && key.1 == i {
                        assert(key == (k, i));
                        assert(out@[prev.len() as int] == key);
                    } else {
                        assert(prev.contains(key));
                        let m = choose|m: int| 0 <= m < prev.len() && prev[m] == key;
                        assert(out@[m] == key);
                    }
                }
            }
            i += 1;
        }
        proof {
            let next = gone@.subrange(0, j + 1);
            assert forall|key: ParamKey| out@.contains(key) <==> is_doomed(next, key) by {
                if is_doomed(done, key) {
                    let m = choose|m: int|
                        0 <= m < done.len() && (#[trigger] done[m]).0 == key.0 && key.1 < done[m].1.params@.len();
                    assert(next[m] == done[m]);
                }
                if key.0 == k && key.1 < count {
                    assert(next[j as int] == gone@[j as int]);
                }
                if is_doomed(next, key) {
                    let m = choose|m: int|
                        0 <= m < next.len() && (#[trigger] next[m]).0 == key.0 && key.1 < next[m].1.params@.len();
                    if m < j {
                        assert(done[m] == next[m]);
                    } else {
                        assert(next[m] == gone@[j as int]);
                    }
                }
            }
        }
        j += 1;
    }
    assert(gone@.subrange(0, gone.len() as int) == gone@);
    out
}

/// Takes each of `doomed` out of the graph, with every edge that starts or
/// ends at one of them.
pub(crate) fn drop_vertices(g: &mut Depgraph, doomed: &Vec<ParamKey>)
    ensures
        graph_nodes(*final(g)) == graph_nodes(*old(g)).difference(doomed@.to_set()),
        graph_edges(*final(g)) == graph_edges(*old(g)).filter(
            |e: Edge| !doomed@.contains(e.0) && !doomed@.contains(e.1),
        ),
{
    let ghost n0 = graph_nodes(*g);
    let ghost e0 = graph_edges(*g);
    let mut i: usize = 0;
    assert(graph_nodes(*g) =~= n0.difference(doomed@.subrange(0, 0).to_set()));
    assert(graph_edges(*g) =~= e0.filter(
        |e: Edge| !doomed@.subrange(0, 0).contains(e.0) && !doomed@.subrange(0, 0).contains(e.1),
    ));
    while i < doomed.len()
        invariant
            i <= doomed.len(),
            graph_nodes(*g) == n0.difference(doomed@.subrange(0, i as int).to_set()),
            graph_edges(*g) == e0.filter(
                |e: Edge|
                    !doomed@.subrange(0, i as int).contains(e.0) && !doomed@.subrange(
                        0,
                        i as int,
                    ).contains(e.1),
            ),
        decreases doomed.len() - i,
    {
        let ghost a = doomed@.subrange(0, i as int);
        let ghost b = doomed@.subrange(0, i + 1);
        let ghost n1 = graph_nodes(*g);
        let ghost e1 = graph_edges(*g);
        let d = doomed[i];
        graph_remove_node(g, d);
        proof {
            assert(b == a.push(d));
            assert forall|x: ParamKey| b.contains(x) <==> a.contains(x) || x == d by {
                if b.contains(x) {
                    let m = choose|m: int| 0 <= m < b.len() && b[m] == x;
                    if m < a.len() {
                        assert(a[m] == x);
                    }
                }
                if a.contains(x) {
                    let m = choose|m: int| 0 <= m < a.len() && a[m] == x;
                    assert(b[m] == x);
                }
                if x == d {
                    assert(b[a.len() as int] == d);
                }
            }
            assert(graph_nodes(*g) =~= n0.difference(b.to_set()));
            assert(graph_edges(*g) =~= e0.filter(|e: Edge| !b.contains(e.0) && !b.contains(e.1)));
        }
        i += 1;
    }
    assert(doomed@.subrange(0, doomed.len() as int) == doomed@);
}

/// The records of `after` are those of `before`, but that the parameters
/// named by `keys` are dirty.
pub open spec fn tainted(before: Map<u64, NodeHierarchy>, after: Map<u64, NodeHierarchy>, keys: Seq<ParamKey>) -> bool {
    &&& after.dom() =~= before.dom()
    &&& forall|k: u64| #[trigger]
        before.dom().contains(k) ==> {
            &&& after[k].name == before[k].name
            &&& after[k].parent == before[k].parent
            &&& after[k].children == before[k].children
            &&& after[k].depth == before[k].depth
            &&& after[k].outputs == before[k].outputs
            &&& after[k].params@.len() == before[k].params@.len()
            &&& forall|i: int|
                0 <= i < before[k].params@.len() ==> #[trigger] after[k].params@[i] == (if keys.contains(
                    (k, i as usize),
                ) {
                    Param { dirty: true, ..before[k].params@[i] }
                } else {
                    before[k].params@[i]
                })
        }
}

/// Marks dirty each of `keys` that names a parameter of a record in the
/// arena.
pub(crate) fn taint(arena: &mut NodeArena, keys: &Vec<ParamKey>)
    requires
        forall|k: u64| #[trigger] arena_entries(*old(arena)).dom().contains(k) ==> is_key(k),
    ensures
        tainted(arena_entries(*old(arena)), arena_entries(*final(arena)), keys@),
        arena_retired(*final(arena)) == arena_retired(*old(arena)),
{
    let ghost n0 = arena_entries(*arena);
    let ghost r0 = arena_retired(*arena);
    let mut j: usize = 0;
    while j < keys.len()
        invariant
            j <= keys.len(),
            forall|k: u64| #[trigger] n0.dom().contains(k) ==> is_key(k),
            arena_retired(*arena) == r0,
            tainted(n0, arena_entries(*arena), keys@.subrange(0, j as int)),
        decreases keys.len() - j,
    {
        let ghost a = keys@.subrange(0, j as int);
        let ghost b = keys@.subrange(0, j + 1);
        let ghost n1 = arena_entries(*arena);
        let key = keys[j];
        proof {
            assert(b == a.push(key));
            assert forall|x: ParamKey| b.contains(x) <==> a.contains(x) || x == key by {
                if b.contains(x) {
                    let m = choose|m: int| 0 <= m < b.len() && b[m] == x;
                    if m < a.len() {
                        assert(a[m] == x);
                    }
                }
                if a.contains(x) {
                    let m = choose|m: int| 0 <= m < a.len() && a[m] == x;
                    assert(b[m] == x);
                }
                if x == key {
                    assert(b[a.len() as int] == key);
                }
            }
        }
        let mut hit = false;
        if key.0 & 0x1_0000_0000 != 0 {
            match arena_get(arena, key.0) {
                Some(rec) => {
                    hit = key.1 < rec.params.len();
                },
                None => {},
            }
        }
        if hit {
            let rec = arena_get_mut(arena, key.0);
            rec.params[key.1].dirty = true;
        }
        proof {
            let n2 = arena_entries(*arena);
            assert(n2.dom() =~= n0.dom());
            assert forall|k: u64| #[trigger] n0.dom().contains(k) implies {
                &&& n2[k].name == n0[k].name
                &&& n2[k].parent == n0[k].parent
                &&& n2[k].children == n0[k].children
                &&& n2[k].depth == n0[k].depth
                &&& n2[k].outputs == n0[k].outputs
                &&& n2[k].params@.len() == n0[k].params@.len()
                &&& forall|i: int|
                    0 <= i < n0[k].params@.len() ==> #[trigger] n2[k].params@[i] == (if b.contains(
                        (k, i as usize),
                    ) {
                        Param { dirty: true, ..n0[k].params@[i] }
                    } else {
                        n0[k].params@[i]
                    })
            } by {
                assert(n1.dom().contains(k));
                assert forall|i: int| 0 <= i < n0[k].params@.len() implies #[trigger] n2[k].params@[i] == (if b.contains(
                    (k, i as usize),
                ) {
                    Param { dirty: true, ..n0[k].params@[i] }
                } else {
                    n0[k].params@[i]
                }) by {
                    assert(n1[k].params@[i] == (if a.contains((k, i as usize)) {
                        Param { dirty: true, ..n0[k].params@[i] }
                    } else {
                        n0[k].params@[i]
                    }));
                }
            }
        }
        j += 1;
    }
    assert(keys@.subrange(0, keys.len() as int) == keys@);
}

/// Takes `id` out of the child list of the node `up`.
pub(crate) fn detach(arena: &mut NodeArena, up: u64, id: GenericNodeId)
    requires
        is_key(up),
        arena_entries(*old(arena)).dom().contains(up),
    ensures
        arena_entries(*final(arena)) == arena_entries(*old(arena)).insert(
            up,
            arena_entries(*final(arena))[up],
        ),
        unlisted(arena_entries(*old(arena))[up], arena_entries(*final(arena))[up], id),
        arena_retired(*final(arena)) == arena_retired(*old(arena)),
{
    let ghost n0 = arena_entries(*arena);
    let mut at: Option<usize> = None;
    match arena_get(arena, up) {
        Some(rec) => {
            let mut i: usize = 0;
            while i < rec.children.len() && at.is_none()
                invariant
                    i <= rec.children.len(),
                    at is None ==> forall|j: int| 0 <= j < i ==> rec.children@[j] != id,
                    at matches Some(found) ==> found < rec.children.len() && rec.children@[found as int] == id,
                decreases rec.children.len() - i,
            {
                if rec.children[i].raw == id.raw {
                    at = Some(i);
                }
                i += 1;
            }
        },
        None => {},
    }
    match at {
        Some(found) => {
            let rec = arena_get_mut(arena, up);
            rec.children.remove(found);
        },
        None => {
            assert(arena_entries(*arena) =~= n0.insert(up, n0[up]));
        },
    }
}

/// The record `after` is `before` without the first mention of `id` among
/// its children.
pub open spec fn unlisted(before: NodeHierarchy, after: NodeHierarchy, id: GenericNodeId) -> bool {
    &&& after.name == before.name
    &&& after.parent == before.parent
    &&& after.depth == before.depth
    &&& after.outputs == before.outputs
    &&& after.params == before.params
    &&& if before.children@.contains(id) {
        exists|i: int|
            0 <= i < before.children@.len() && #[trigger] before.children@[i] == id && after.children@
                == before.children@.remove(i)
    } else {
        after.children@ == before.children@
    }
}

/// What lies below a node lies at least as deep.
pub proof fn lemma_under_depth(nodes: Map<u64, NodeHierarchy>, n: u64, anc: u64)
    requires
        is_under(nodes, n, anc),
    ensures
        nodes[n].depth@ >= nodes[anc].depth@,
    decreases nodes[n].depth@,
{
    if n != anc {
        lemma_under_depth(nodes, nodes[n].parent->0.raw, anc);
    }
}

/// The nodes of `after` are those of `before` that do not lie in the subtree
/// of `id`; they are in the same places, with as many parameters, but that
/// `id` has left the child list of its parent.
pub open spec fn pruned(before: Map<u64, NodeHierarchy>, after: Map<u64, NodeHierarchy>, id: GenericNodeId) -> bool {
    &&& after.dom() =~= before.dom().difference(subtree(before, id.raw))
    &&& forall|k: u64| #[trigger]
        after.dom().contains(k) ==> {
            &&& after[k].name == before[k].name
            &&& after[k].parent == before[k].parent
            &&& after[k].depth == before[k].depth
            &&& after[k].outputs == before[k].outputs
            &&& after[k].params@.len() == before[k].params@.len()
            &&& if before[id.raw].parent == Some(GenericNodeId { raw: k }) {
                exists|i: int|
                    0 <= i < before[k].children@.len() && #[trigger] before[k].children@[i] == id
                        && after[k].children@ == before[k].children@.remove(i)
            } else {
                after[k].children@ == before[k].children@
            }
        }
}

/// Pruning a subtree that does not hold the root leaves a tree.
pub proof fn lemma_pruned_tree(
    before: Map<u64, NodeHierarchy>,
    after: Map<u64, NodeHierarchy>,
    root: u64,
    id: GenericNodeId,
)
    requires
        tree_ok(before, root),
        before.dom().contains(id.raw),
        id.raw != root,
        pruned(before, after, id),
    ensures
        tree_ok(after, root),
        after.dom().subset_of(before.dom()),
        !after.dom().contains(id.raw),
{
    let s = subtree(before, id.raw);
    let up = before[id.raw].parent->0;
    assert(before.dom().contains(up.raw));
    assert(!is_under(before, root, id.raw));
    assert(!is_under(before, up.raw, id.raw)) by {
        if is_under(before, up.raw, id.raw) {
            lemma_under_depth(before, up.raw, id.raw);
        }
    }
    assert(s.contains(id.raw));
    assert(after.dom().finite());
    assert(after.dom().contains(root));
    assert(after[root].parent is None);
    assert forall|k: u64| #[trigger] after.dom().contains(k) implies is_key(k) by {
        assert(before.dom().contains(k));
    }
    assert forall|k: u64| #[trigger] after.dom().contains(k) && k != root implies {
        &&& after[k].parent is Some
        &&& after.dom().contains(after[k].parent->0.raw)
        &&& after[after[k].parent->0.raw].children@.contains(GenericNodeId { raw: k })
        &&& after[k].depth@ == after[after[k].parent->0.raw].depth@ + 1
    } by {
        assert(before.dom().contains(k));
        let pk = before[k].parent->0.raw;
        assert(before.dom().contains(pk));
        assert(!s.contains(k));
        if s.contains(pk) {
            assert(is_under(before, k, id.raw));
        }
        assert(after.dom().contains(pk));
        let me = GenericNodeId { raw: k };
        assert(before[pk].children@.contains(me));
        let j = choose|j: int| 0 <= j < before[pk].children@.len() && before[pk].children@[j] == me;
        if before[id.raw].parent == Some(GenericNodeId { raw: pk }) {
            let i = choose|i: int|
                0 <= i < before[pk].children@.len() && #[trigger] before[pk].children@[i] == id
                    && after[pk].children@ == before[pk].children@.remove(i);
            assert(i != j);
            if j < i {
                assert(after[pk].children@[j] == me);
            } else {
                assert(after[pk].children@[j - 1] == me);
            }
        } else {
            assert(after[pk].children@[j] == me);
        }
    }
    assert forall|k: u64, i: int| after.dom().contains(k) && 0 <= i < after[k].children@.len() implies {
        let c = #[trigger] after[k].children@[i];
        &&& after.dom().contains(c.raw)
        &&& c.raw != root
        &&& after[c.raw].parent == Some(GenericNodeId { raw: k })
    } by {
        assert(before.dom().contains(k));
        let c = after[k].children@[i];
        if before[id.raw].parent == Some(GenericNodeId { raw: k }) {
            let r = choose|r: int|
                0 <= r < before[k].children@.len() && #[trigger] before[k].children@[r] == id
                    && after[k].children@ == before[k].children@.remove(r);
            let j = if i >= r {
                i + 1
            } else {
                i
            };
            assert(before[k].children@[j] == c);
            assert(j != r);
            assert(c != id);
        } else {
            assert(before[k].children@[i] == c);
            if c == id {
                assert(before[id.raw].parent == Some(GenericNodeId { raw: k }));
            }
        }
        assert(before.dom().contains(c.raw));
        assert(before[c.raw].parent == Some(GenericNodeId { raw: k }));
        if s.contains(c.raw) {
            assert(is_under(before, c.raw, id.raw));
            assert(c.raw != id.raw);
            assert(is_under(before, k, id.raw));
            assert(s.contains(k));
        }
        assert(!s.contains(c.raw));
        assert(after.dom().contains(c.raw));
        assert(c.raw != root);
        assert(after[c.raw].parent == before[c.raw].parent);
    }
    assert forall|k: u64|
        #[trigger] after.dom().contains(k)
        implies after[k].children@.no_duplicates() by {
        assert(before.dom().contains(k));
        if before[id.raw].parent == Some(GenericNodeId { raw: k }) {
            let r = choose|r: int|
                0 <= r < before[k].children@.len() && #[trigger] before[k].children@[r] == id
                    && after[k].children@ == before[k].children@.remove(r);
            let kids = before[k].children@;
            assert forall|a: int, b: int|
                0 <= a < b < kids.remove(r).len()
                implies kids.remove(r)[a] != kids.remove(r)[b] by {
                let a2 = if a < r { a } else { a + 1 };
                let b2 = if b < r { b } else { b + 1 };
                assert(kids[a2] != kids[b2]);
            }
        }
    }
}

/// A list of the records of a finite set of nodes, each once, is as long as
/// the set is large.
pub proof fn lemma_list_len(nodes: Map<u64, NodeHierarchy>, s: Set<u64>, gone: Seq<(u64, NodeHierarchy)>)
    requires
        lists_records(nodes, s, gone),
    ensures
        s.finite(),
        s.len() == gone.len(),
{
    let keys = Seq::new(gone.len(), |i: int| gone[i].0);
    assert(keys.no_duplicates()) by {
        assert forall|i: int, j: int| 0 <= i < keys.len() && 0 <= j < keys.len() && i != j implies keys[i]
            != keys[j] by {
            if i < j {
                assert(gone[i].0 != gone[j].0);
            } else {
                assert(gone[j].0 != gone[i].0);
            }
        }
    }
    assert(keys.to_set() =~= s) by {
        assert forall|k: u64| s.contains(k) implies keys.to_set().contains(k) by {
            let j = choose|j: int| 0 <= j < gone.len() && (#[trigger] gone[j]).0 == k;
            assert(keys[j] == k);
        }
        assert forall|k: u64| keys.to_set().contains(k) implies s.contains(k) by {
            let j = choose|j: int| 0 <= j < keys.len() && keys[j] == k;
            assert(s.contains(gone[j].0));
        }
    }
    keys.unique_seq_to_set();
    vstd::seq_lib::seq_to_set_is_finite(keys);
}

/// The keys of the records in `gone`.
pub open spec fn gone_keys(gone: Seq<(u64, NodeHierarchy)>) -> Set<u64> {
    Set::new(|k: u64| exists|j: int| 0 <= j < gone.len() && (#[trigger] gone[j]).0 == k)
}

/// Takes the payloads of the nodes in `gone` out of the store and drops
/// them.
pub(crate) fn drop_payloads(store: &mut PayloadStore, gone: &Vec<(u64, NodeHierarchy)>)
    requires
        forall|j: int| 0 <= j < gone@.len() ==> is_key((#[trigger] gone@[j]).0),
    ensures
        payload_entries(*final(store)) == payload_entries(*old(store)).remove_keys(gone_keys(gone@)),
{
    let ghost p0 = payload_entries(*store);
    let mut j: usize = 0;
    assert(payload_entries(*store) =~= p0.remove_keys(gone_keys(gone@.subrange(0, 0))));
    while j < gone.len()
        invariant
            j <= gone.len(),
            forall|i: int| 0 <= i < gone@.len() ==> is_key((#[trigger] gone@[i]).0),
            payload_entries(*store) == p0.remove_keys(gone_keys(gone@.subrange(0, j as int))),
        decreases gone.len() - j,
    {
        let ghost a = gone@.subrange(0, j as int);
        let ghost b = gone@.subrange(0, j + 1);
        let k = gone[j].0;
        assert(is_key(gone@[j as int].0));
        let _ = store_take(store, k);
        proof {
            assert forall|x: u64|
                gone_keys(b).contains(x) <==> gone_keys(a).contains(x) || x == k by {
                if gone_keys(b).contains(x) {
                    let i = choose|i: int| 0 <= i < b.len() && (#[trigger] b[i]).0 == x;
                    if i < j {
                        assert(a[i].0 == x);
                    }
                }
                if gone_keys(a).contains(x) {
                    let i = choose|i: int| 0 <= i < a.len() && (#[trigger] a[i]).0 == x;
                    assert(b[i].0 == x);
                }
                if x == k {
                    assert(b[j as int].0 == k);
                }
            }
            assert(payload_entries(*store) =~= p0.remove_keys(gone_keys(b)));
        }
        j += 1;
    }
    assert(gone@.subrange(0, gone.len() as int) == gone@);
}

} // verus!
