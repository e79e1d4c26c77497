use vstd::prelude::*;
use crate::batch::Edit;
use crate::depgraph::{Edge, ParamKey};
use crate::edit::{
    all_resolve, first_param_named, is_first_named, lemma_first_named_unique, name_start, ref_target,
};
use crate::error::Error;
use crate::eval::{FrameContext, Known, Resolver};
use crate::expr::{Expr, Value};
use crate::network::{same_record, GenericNodeId, Network, NodeHierarchy};
use crate::param::{same_param, Param};
use crate::path::{first_named, resolve_spec, segments, step_segment, walk_segments};
use crate::prune::{is_under, lemma_under_depth, subtree};
use crate::reach::{is_walk, lemma_no_return, reaches, step_ok};
use crate::refs::ref_paths;

verus! {

/// The hierarchy is a tree: the parent of a node does not lie below the
/// node, so that no node is its own ancestor.
pub proof fn law_no_node_is_its_own_ancestor(net: Network, id: GenericNodeId)
    requires
        net.sound(),
        net.has_node(id),
        net.nodes()[id.raw].parent is Some,
    ensures
        net.has_node(net.nodes()[id.raw].parent->0),
        !is_under(net.nodes(), net.nodes()[id.raw].parent->0.raw, id.raw),
{
    let up = net.nodes()[id.raw].parent->0.raw;
    assert(id.raw != net.root_id().raw);
    if is_under(net.nodes(), up, id.raw) {
        lemma_under_depth(net.nodes(), up, id.raw);
    }
}

/// Every position of a walk that ends at a clean parameter holds a clean
/// parameter.
proof fn lemma_clean_walk(net: Network, p: Seq<ParamKey>, i: int)
    requires
        net.wf(),
        is_walk(net.edges(), p),
        !net.param(p.last()).dirty,
        0 <= i < p.len(),
    ensures
        !net.param(p[i]).dirty,
    decreases p.len() - i,
{
    if i < p.len() - 1 {
        lemma_clean_walk(net, p, i + 1);
        assert(step_ok(net.edges(), p, i));
        assert(net.edges().contains((p[i], p[i + 1])));
    }
}

/// A cached result is valid only as long as nothing that it was computed
/// from has changed: a clean parameter depends on clean parameters only,
/// directly and through other parameters.
pub proof fn law_clean_depends_on_clean(net: Network, a: ParamKey, b: ParamKey)
    requires
        net.wf(),
        reaches(net.edges(), a, b),
        !net.param(b).dirty,
    ensures
        !net.param(a).dirty,
{
    let p = choose|p: Seq<ParamKey>| #[trigger] is_walk(net.edges(), p) && p[0] == a && p.last() == b;
    lemma_clean_walk(net, p, 0);
}

/// A stale identifier never names a new node: a node that is created after
/// a node was deleted has an identifier that differs from that of the
/// deleted node and from those of all nodes that were deleted with it.
pub proof fn law_new_node_has_a_new_id(
    a: Network,
    b: Network,
    c: Network,
    gone: GenericNodeId,
    parent: GenericNodeId,
    name: Seq<char>,
    id: GenericNodeId,
)
    requires
        a.has_node(gone),
        Network::deleted(a, b, gone),
        Network::created(b, c, parent, name, id),
    ensures
        id != gone,
        forall|k: u64| subtree(a.nodes(), gone.raw).contains(k) ==> id.raw != k,
        c.retired() == b.retired(),
{
    assert(is_under(a.nodes(), gone.raw, gone.raw));
    assert(subtree(a.nodes(), gone.raw).contains(gone.raw));
    assert(b.retired().contains(gone.raw));
}

/// A second read of a parameter, with no edit in between, gives what the
/// first read gave, changes nothing and runs no script, provided that the
/// first read left the parameter clean.
pub proof fn law_read_twice(
    s0: Network,
    s1: Network,
    s2: Network,
    key: ParamKey,
    r1: Result<Value, Error>,
    r2: Result<Value, Error>,
)
    requires
        s0.sound(),
        Network::read(s0, s1, key, r1),
        Network::read(s1, s2, key, r2),
        s0.has_param(key) ==> !s1.param(key).dirty,
    ensures
        r2 == r1,
        s2 == s1,
        s2.script_runs() == s1.script_runs(),
{
    Network::lemma_same_shape_params(s0, s1);
}

/// After a node was deleted, no dependency edge names a parameter of the
/// node or of a node below it, and every edge joins two parameters that
/// exist.
pub proof fn law_delete_leaves_no_edge(a: Network, b: Network, id: GenericNodeId)
    requires
        a.sound(),
        b.sound(),
        Network::deleted(a, b, id),
    ensures
        forall|e: Edge| #[trigger]
            b.edges().contains(e) ==> {
                &&& !subtree(a.nodes(), id.raw).contains(e.0.0)
                &&& !subtree(a.nodes(), id.raw).contains(e.1.0)
                &&& b.has_param(e.0)
                &&& b.has_param(e.1)
            },
        forall|k: u64| subtree(a.nodes(), id.raw).contains(k) ==> !b.nodes().dom().contains(k),
{
    assert forall|e: Edge| #[trigger] b.edges().contains(e) implies {
        &&& !subtree(a.nodes(), id.raw).contains(e.0.0)
        &&& !subtree(a.nodes(), id.raw).contains(e.1.0)
        &&& b.has_param(e.0)
        &&& b.has_param(e.1)
    } by {
        assert(b.edges().contains((e.0, e.1)));
        assert(b.graph_keys().contains(e.0) && b.graph_keys().contains(e.1));
    }
}

/// Setting the expression of a parameter marks dirty exactly what the
/// parameter reaches along the dependency edges, which is the same before
/// and after the edit: a parameter is dirty afterwards if and only if it was
/// dirty before or is the edited parameter or depends on it, directly or
/// through other parameters.
pub proof fn law_set_expression_marks_closure(a: Network, b: Network, key: ParamKey, expr: Expr)
    requires
        a.sound(),
        a.check_expression(key, expr) is Ok,
        Network::expression_set(a, b, key, expr),
    ensures
        forall|q: ParamKey| reaches(a.edges(), key, q) <==> reaches(b.edges(), key, q),
        forall|q: ParamKey| #[trigger]
            a.has_param(q) ==> (b.param(q).dirty <==> a.param(q).dirty || reaches(b.edges(), key, q)),
{
    let e = a.edges();
    let e2 = b.edges();
    let targets = a.expr_targets(key, expr);
    let e1 = e.filter(|x: Edge| x.1 != key);
    assert forall|q: ParamKey| reaches(e, key, q) <==> reaches(e2, key, q) by {
        if reaches(e, key, q) {
            let p = choose|p: Seq<ParamKey>|
                #[trigger] is_walk(e, p) && p[0] == key && p.last() == q;
            assert forall|i: int| 0 <= i < p.len() - 1 implies #[trigger] step_ok(e2, p, i) by {
                assert(step_ok(e, p, i));
                lemma_no_return(e, key, p, i + 1);
            }
            assert(is_walk(e2, p));
        }
        if reaches(e2, key, q) {
            let p = choose|p: Seq<ParamKey>|
                #[trigger] is_walk(e2, p) && p[0] == key && p.last() == q;
            lemma_old_walk(e, e2, key, targets, p, p.len() - 1);
            assert(p.subrange(0, p.len() as int) == p);
        }
    }
    assert forall|q: ParamKey| #[trigger] a.has_param(q) implies (b.param(q).dirty <==> a.param(q).dirty
        || reaches(b.edges(), key, q)) by {
        assert(reaches(e, key, q) <==> reaches(e2, key, q));
    }
}

/// Where `key` reaches none of `targets` in `e`, a walk from `key` over the
/// edges of `e` relinked at `key` uses edges of `e` only.
proof fn lemma_old_walk(
    e: Set<Edge>,
    e2: Set<Edge>,
    key: ParamKey,
    targets: Seq<ParamKey>,
    p: Seq<ParamKey>,
    n: int,
)
    requires
        e2 == Network::relinked(e, key, targets),
        forall|i: int| 0 <= i < targets.len() ==> !reaches(e, key, #[trigger] targets[i]),
        is_walk(e2, p),
        p[0] == key,
        0 <= n < p.len(),
    ensures
        is_walk(e, p.subrange(0, n + 1)),
        reaches(e, key, p[n]),
    decreases n,
{
    let pre = p.subrange(0, n + 1);
    if n == 0 {
        assert(is_walk(e, pre));
    } else {
        lemma_old_walk(e, e2, key, targets, p, n - 1);
        let pp = p.subrange(0, n);
        assert(step_ok(e2, p, n - 1));
        assert(e2.contains((p[n - 1], p[n])));
        if !e.contains((p[n - 1], p[n])) {
            let i = choose|i: int| 0 <= i < targets.len() && targets[i] == p[n - 1];
            assert(!reaches(e, key, targets[i]));
        }
        assert forall|j: int| 0 <= j < pre.len() - 1 implies #[trigger] step_ok(e, pre, j) by {
            if j < n - 1 {
                assert(step_ok(e, pp, j));
            }
        }
    }
    assert(pre[0] == key && pre.last() == p[n]);
}

/// The two maps hold the same nodes with the same names in the same places.
pub open spec fn same_places(a: Map<u64, NodeHierarchy>, b: Map<u64, NodeHierarchy>) -> bool {
    &&& a.dom() == b.dom()
    &&& forall|k: u64| #[trigger]
        a.dom().contains(k) ==> {
            &&& a[k].name@ == b[k].name@
            &&& a[k].parent == b[k].parent
            &&& a[k].children@ == b[k].children@
        }
}

proof fn lemma_first_named_same(
    a: Map<u64, NodeHierarchy>,
    b: Map<u64, NodeHierarchy>,
    kids: Seq<GenericNodeId>,
    name: Seq<char>,
)
    requires
        same_places(a, b),
    ensures
        first_named(a, kids, name) == first_named(b, kids, name),
    decreases kids.len(),
{
    if kids.len() > 0 {
        lemma_first_named_same(a, b, kids.drop_first(), name);
    }
}

proof fn lemma_walk_same(
    a: Map<u64, NodeHierarchy>,
    b: Map<u64, NodeHierarchy>,
    cur: GenericNodeId,
    segs: Seq<Seq<char>>,
)
    requires
        same_places(a, b),
        a.dom().contains(cur.raw),
        forall|k: u64|
            #[trigger] a.dom().contains(k) && a[k].parent is Some ==> a.dom().contains(a[k].parent->0.raw),
    ensures
        walk_segments(a, cur, segs) == walk_segments(b, cur, segs),
    decreases segs.len(),
{
    if segs.len() > 0 {
        lemma_first_named_same(a, b, a[cur.raw].children@, segs[0]);
        match step_segment(a, cur, segs[0]) {
            Some(next) => {
                lemma_first_named_in(a, a[cur.raw].children@, segs[0]);
                lemma_walk_same(a, b, next, segs.drop_first());
            },
            None => {},
        }
    }
}

/// A child found by name is a live node.
proof fn lemma_first_named_in(a: Map<u64, NodeHierarchy>, kids: Seq<GenericNodeId>, name: Seq<char>)
    ensures
        first_named(a, kids, name) matches Some(id) ==> a.dom().contains(id.raw),
    decreases kids.len(),
{
    if kids.len() > 0 {
        lemma_first_named_in(a, kids.drop_first(), name);
    }
}

/// Where the segments lead from a live node of a well-formed tree, they lead
/// to a live node.
pub proof fn lemma_walk_in_dom(a: Map<u64, NodeHierarchy>, cur: GenericNodeId, segs: Seq<Seq<char>>)
    requires
        a.dom().contains(cur.raw),
        forall|k: u64|
            #[trigger] a.dom().contains(k) && a[k].parent is Some ==> a.dom().contains(a[k].parent->0.raw),
    ensures
        walk_segments(a, cur, segs) matches Some(id) ==> a.dom().contains(id.raw),
    decreases segs.len(),
{
    if segs.len() > 0 {
        match step_segment(a, cur, segs[0]) {
            Some(next) => {
                lemma_first_named_in(a, a[cur.raw].children@, segs[0]);
                lemma_walk_in_dom(a, next, segs.drop_first());
            },
            None => {},
        }
    }
}

/// Parameters with the same names are found under the same names.
pub proof fn lemma_first_param_same(a: Seq<Param>, b: Seq<Param>, name: Seq<char>)
    requires
        a.len() == b.len(),
        forall|i: int| 0 <= i < a.len() ==> (#[trigger] a[i]).name@ == b[i].name@,
    ensures
        first_param_named(a, name) == first_param_named(b, name),
{
    assert forall|i: int| is_first_named(a, name, i) <==> is_first_named(b, name, i) by {
        if is_first_named(a, name, i) {
            assert(a[i].name@ == b[i].name@);
            assert forall|j: int| 0 <= j < i implies (#[trigger] b[j]).name@ != name by {
                assert(a[j].name@ == b[j].name@);
            }
        }
        if is_first_named(b, name, i) {
            assert(a[i].name@ == b[i].name@);
            assert forall|j: int| 0 <= j < i implies (#[trigger] a[j]).name@ != name by {
                assert(a[j].name@ == b[j].name@);
            }
        }
    }
    if exists|i: int| is_first_named(a, name, i) {
        let i = choose|i: int| is_first_named(a, name, i);
        let j = choose|j: int| is_first_named(b, name, j);
        assert(is_first_named(b, name, i));
        lemma_first_named_unique(b, name, i, j);
    }
}

/// A copy of a network resolves references as the network does.
pub proof fn lemma_copy_resolves(a: Network, b: Network, from: GenericNodeId, path: Seq<char>)
    requires
        a.sound(),
        a.has_node(from),
        Network::same_net(a, b),
    ensures
        ref_target(a.nodes(), a.root_id(), from, path) == ref_target(b.nodes(), b.root_id(), from, path),
{
    let n = name_start(path);
    let head = path.subrange(0, n);
    assert(same_places(a.nodes(), b.nodes())) by {
        assert forall|k: u64| #[trigger] a.nodes().dom().contains(k) implies {
            &&& a.nodes()[k].name@ == b.nodes()[k].name@
            &&& a.nodes()[k].parent == b.nodes()[k].parent
            &&& a.nodes()[k].children@ == b.nodes()[k].children@
        } by {
            assert(same_record(a.nodes()[k], b.nodes()[k]));
        }
    }
    law_resolution_is_stable(a, b, from, head);
    let start = if head.len() > 0 && head[0] == '/' {
        a.root_id()
    } else {
        from
    };
    lemma_walk_in_dom(a.nodes(), start, segments(head));
    match resolve_spec(a.nodes(), a.root_id(), from, head) {
        Some(node) => {
            assert(a.nodes().dom().contains(node.raw));
            assert(same_record(a.nodes()[node.raw], b.nodes()[node.raw]));
            assert forall|i: int| 0 <= i < a.nodes()[node.raw].params@.len() implies (#[trigger] a.nodes()[node.raw].params@[i]).name@
                == b.nodes()[node.raw].params@[i].name@ by {
                assert(same_param(a.nodes()[node.raw].params@[i], b.nodes()[node.raw].params@[i]));
            }
            lemma_first_param_same(
                a.nodes()[node.raw].params@,
                b.nodes()[node.raw].params@,
                path.subrange(n, path.len() as int),
            );
        },
        None => {},
    }
}

/// A copy of a network judges a batch of edits as the network does, and
/// would get the same dependency edges from it.
pub proof fn lemma_copy_checks(a: Network, b: Network, pending: Seq<Edit>)
    requires
        a.sound(),
        Network::same_net(a, b),
    ensures
        a.check_edits(pending) == b.check_edits(pending),
        a.edits_exist(pending) ==> a.commit_edges(pending) == b.commit_edges(pending),
{
    Network::lemma_same_net_wf(a, b);
    if a.edits_exist(pending) {
        assert(b.edits_exist(pending));
        assert forall|i: int, path: Seq<char>|
            0 <= i < pending.len() implies #[trigger] ref_target(
            a.nodes(),
            a.root_id(),
            GenericNodeId { raw: pending[i].0.0 },
            path,
        ) == ref_target(b.nodes(), b.root_id(), GenericNodeId { raw: pending[i].0.0 }, path) by {
            assert(a.has_param(pending[i].0));
            lemma_copy_resolves(a, b, GenericNodeId { raw: pending[i].0.0 }, path);
        }
        assert forall|i: int| 0 <= i < pending.len() implies a.expr_targets(
            (#[trigger] pending[i]).0,
            pending[i].1,
        ) =~= b.expr_targets(pending[i].0, pending[i].1) by {}
        assert(a.edits_resolve(pending) == b.edits_resolve(pending)) by {
            if a.edits_resolve(pending) {
                assert forall|i: int| 0 <= i < pending.len() implies all_resolve(
                    b.nodes(),
                    b.root_id(),
                    GenericNodeId { raw: (#[trigger] pending[i]).0.0 },
                    ref_paths(pending[i].1.source()),
                ) by {
                    assert(all_resolve(
                        a.nodes(),
                        a.root_id(),
                        GenericNodeId { raw: pending[i].0.0 },
                        ref_paths(pending[i].1.source()),
                    ));
                }
            }
            if b.edits_resolve(pending) {
                assert forall|i: int| 0 <= i < pending.len() implies all_resolve(
                    a.nodes(),
                    a.root_id(),
                    GenericNodeId { raw: (#[trigger] pending[i]).0.0 },
                    ref_paths(pending[i].1.source()),
                ) by {
                    assert(all_resolve(
                        b.nodes(),
                        b.root_id(),
                        GenericNodeId { raw: pending[i].0.0 },
                        ref_paths(pending[i].1.source()),
                    ));
                }
            }
        }
        assert(a.commit_edges(pending) =~= b.commit_edges(pending)) by {
            assert forall|e: Edge| a.edit_edge(pending, pending.len() as int, e) <==> b.edit_edge(
                pending,
                pending.len() as int,
                e,
            ) by {
                if a.edit_edge(pending, pending.len() as int, e) {
                    let i = choose|i: int|
                        0 <= i < pending.len() && i < pending.len() && (#[trigger] pending[i]).0 == e.1
                            && a.expr_targets(pending[i].0, pending[i].1).contains(e.0);
                    assert(b.expr_targets(pending[i].0, pending[i].1).contains(e.0));
                }
                if b.edit_edge(pending, pending.len() as int, e) {
                    let i = choose|i: int|
                        0 <= i < pending.len() && i < pending.len() && (#[trigger] pending[i]).0 == e.1
                            && b.expr_targets(pending[i].0, pending[i].1).contains(e.0);
                    assert(a.expr_targets(pending[i].0, pending[i].1).contains(e.0));
                }
            }
        }
    }
}

/// Path resolution is stable: as long as no node is created, deleted or
/// moved, a path resolves to the same node from the same origin, whatever
/// was evaluated or changed in parameters in between.
pub proof fn law_resolution_is_stable(a: Network, b: Network, from: GenericNodeId, path: Seq<char>)
    requires
        a.sound(),
        a.has_node(from),
        same_places(a.nodes(), b.nodes()),
        a.root_id() == b.root_id(),
    ensures
        resolve_spec(a.nodes(), a.root_id(), from, path) == resolve_spec(
            b.nodes(),
            b.root_id(),
            from,
            path,
        ),
{
    let start = if path.len() > 0 && path[0] == '/' {
        a.root_id()
    } else {
        from
    };
    lemma_walk_same(a.nodes(), b.nodes(), start, segments(path));
}

/// Reading a parameter leaves every node where it is, so that paths resolve
/// as before.
pub proof fn law_read_keeps_places(a: Network, b: Network)
    requires
        Network::evaluated(a, b),
    ensures
        same_places(a.nodes(), b.nodes()),
        a.root_id() == b.root_id(),
{
}

/// The only error that a frame gives for a variable is `NameNotFound`, so
/// that an expression evaluated against a frame alone fails with a
/// `TypeError`, a `LuaError` or a `NameNotFound`, and with no other error.
pub proof fn law_frame_gives_name_errors_only(frame: FrameContext, e: Error)
    requires
        Resolver::<FrameContext>::explains(&frame, Seq::<Known>::empty(), e),
    ensures
        e == Error::NameNotFound,
{
}

} // verus!

