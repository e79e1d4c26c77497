use vstd::prelude::*;
use crate::error::Error;
use crate::network::{GenericNodeId, Network, NodeHierarchy};

verus! {

/// The number of characters of `s` before its first `/`, or the length of `s`
/// where it holds none.
pub open spec fn first_slash(s: Seq<char>) -> int
    decreases s.len(),
{
    if s.len() == 0 || s[0] == '/' {
        0
    } else {
        1 + first_slash(s.drop_first())
    }
}

/// The pieces of `s` between its `/` characters, empty pieces included.
pub open spec fn segments(s: Seq<char>) -> Seq<Seq<char>>
    decreases s.len(),
{
    let n = first_slash(s);
    if 0 <= n < s.len() {
        seq![s.subrange(0, n)] + segments(s.subrange(n + 1, s.len() as int))
    } else {
        seq![s]
    }
}

/// The first of `kids` whose node is called `name`.
pub open spec fn first_named(
    nodes: Map<u64, NodeHierarchy>,
    kids: Seq<GenericNodeId>,
    name: Seq<char>,
) -> Option<GenericNodeId>
    decreases kids.len(),
{
    if kids.len() == 0 {
        None
    } else if nodes.dom().contains(kids[0].raw) && nodes[kids[0].raw].name@ == name {
        Some(kids[0])
    } else {
        first_named(nodes, kids.drop_first(), name)
    }
}

/// Where one path segment leads from the node `cur`: an empty segment and `.`
/// stay, `..` goes to the parent, and a name goes to the first child of that
/// name.
pub open spec fn step_segment(nodes: Map<u64, NodeHierarchy>, cur: GenericNodeId, seg: Seq<char>) -> Option<
    GenericNodeId,
> {
    if seg.len() == 0 || seg == seq!['.'] {
        Some(cur)
    } else if seg == seq!['.', '.'] {
        nodes[cur.raw].parent
    } else {
        first_named(nodes, nodes[cur.raw].children@, seg)
    }
}

/// Where the segments lead from `cur`, taken one after the other.
pub open spec fn walk_segments(nodes: Map<u64, NodeHierarchy>, cur: GenericNodeId, segs: Seq<Seq<char>>) -> Option<
    GenericNodeId,
>
    decreases segs.len(),
{
    if segs.len() == 0 {
        Some(cur)
    } else {
        match step_segment(nodes, cur, segs[0]) {
            Some(next) => walk_segments(nodes, next, segs.drop_first()),
            None => None,
        }
    }
}

/// The node that `path` names as seen from `from`: a path that begins with
/// `/` starts at `root`, any other at `from`.
pub open spec fn resolve_spec(
    nodes: Map<u64, NodeHierarchy>,
    root: GenericNodeId,
    from: GenericNodeId,
    path: Seq<char>,
) -> Option<GenericNodeId> {
    let start = if path.len() > 0 && path[0] == '/' {
        root
    } else {
        from
    };
    walk_segments(nodes, start, segments(path))
}

/// Where no `/` stands before position `n` of `s`, and one stands there or
/// `s` ends there, `n` is the first slash.
pub proof fn lemma_first_slash(s: Seq<char>, n: int)
    requires
        0 <= n <= s.len(),
        forall|i: int| 0 <= i < n ==> s[i] != '/',
        n < s.len() ==> s[n] == '/',
    ensures
        first_slash(s) == n,
    decreases s.len(),
{
    if n > 0 {
        lemma_first_slash(s.drop_first(), n - 1);
    }
}

/// Taking the segments one by one from the front gives the same node as
/// taking all but the last, and then the last.
pub proof fn lemma_walk_push(
    nodes: Map<u64, NodeHierarchy>,
    cur: GenericNodeId,
    segs: Seq<Seq<char>>,
    last: Seq<char>,
)
    ensures
        walk_segments(nodes, cur, segs.push(last)) == (match walk_segments(nodes, cur, segs) {
            Some(at) => step_segment(nodes, at, last),
            None => None,
        }),
    decreases segs.len(),
{
    if segs.len() == 0 {
        assert(segs.push(last).drop_first() =~= Seq::<Seq<char>>::empty());
        match step_segment(nodes, cur, last) {
            Some(next) => {
                assert(walk_segments(nodes, next, Seq::<Seq<char>>::empty()) == Some(next));
            },
            None => {},
        }
    } else {
        assert(segs.push(last).drop_first() =~= segs.drop_first().push(last));
        assert(segs.push(last)[0] == segs[0]);
        match step_segment(nodes, cur, segs[0]) {
            Some(next) => {
                lemma_walk_push(nodes, next, segs.drop_first(), last);
            },
            None => {},
        }
    }
}

/// Splits a path at its `/` characters.
pub fn split_path(path: &str) -> (parts: Vec<String>)
    ensures
        parts@.len() == segments(path@).len(),
        forall|i: int| 0 <= i < parts@.len() ==> (#[trigger] parts@[i])@ == segments(path@)[i],
{
    let len = path.unicode_len();
    let mut parts: Vec<String> = Vec::new();
    let mut start: usize = 0;
    let mut i: usize = 0;
    let ghost mut done: Seq<Seq<char>> = Seq::empty();
    assert(path@.subrange(0, len as int) == path@);
    while i < len
        invariant
            len == path@.len(),
            start <= i <= len,
            parts@.len() == done.len(),
            forall|j: int| 0 <= j < parts@.len() ==> (#[trigger] parts@[j])@ == done[j],
            forall|j: int| start <= j < i ==> path@[j] != '/',
            segments(path@) == done + segments(path@.subrange(start as int, len as int)),
        decreases len - i,
    {
        let c = path.get_char(i);
        if c == '/' {
            let piece = String::from_str(path.substring_char(start, i));
            proof {
                let rest = path@.subrange(start as int, len as int);
                lemma_first_slash(rest, i - start);
                assert(rest.subrange(0, i - start) == path@.subrange(start as int, i as int));
                assert(rest.subrange(i - start + 1, rest.len() as int) == path@.subrange(
                    i + 1,
                    len as int,
                ));
                assert(done + (seq![piece@] + segments(path@.subrange(i + 1, len as int)))
                    =~= done.push(piece@) + segments(path@.subrange(i + 1, len as int)));
                done = done.push(piece@);
            }
            parts.push(piece);
            start = i + 1;
        }
        i += 1;
    }
    let piece = String::from_str(path.substring_char(start, len));
    proof {
        let rest = path@.subrange(start as int, len as int);
        lemma_first_slash(rest, len - start);
        assert(segments(rest) == seq![rest]);
        assert(done + seq![rest] =~= done.push(rest));
    }
    parts.push(piece);
    parts
}

/// Tells whether the text is the single character `.`.
fn is_dot(s: &str) -> (b: bool)
    ensures
        b == (s@ == seq!['.']),
{
    if s.unicode_len() == 1 {
        let c = s.get_char(0);
        assert(c == '.' ==> s@ =~= seq!['.']);
        c == '.'
    } else {
        false
    }
}

/// Tells whether the text is `..`.
fn is_dot_dot(s: &str) -> (b: bool)
    ensures
        b == (s@ == seq!['.', '.']),
{
    if s.unicode_len() == 2 {
        let c = s.get_char(0);
        let d = s.get_char(1);
        assert(c == '.' && d == '.' ==> s@ =~= seq!['.', '.']);
        c == '.' && d == '.'
    } else {
        false
    }
}

impl Network {
    /// Finds the first child of `cur` that is called `name`. A node that is
    /// not live has no child.
    pub fn child_named(&self, cur: GenericNodeId, name: &String) -> (res: Option<GenericNodeId>)
        requires
            self.sound(),
        ensures
            res == (if self.has_node(cur) {
                first_named(self.nodes(), self.nodes()[cur.raw].children@, name@)
            } else {
                None
            }),
            res is Some ==> self.has_node(res->0),
    {
        let rec = match self.node(cur) {
            Ok(rec) => rec,
            Err(_) => {
                return None;
            },
        };
        let ghost kids = rec.children@;
        let mut i: usize = 0;
        assert(kids.subrange(0, kids.len() as int) == kids);
        while i < rec.children.len()
            invariant
                self.sound(),
                self.has_node(cur),
                *rec == self.nodes()[cur.raw],
                kids == rec.children@,
                i <= kids.len(),
                first_named(self.nodes(), kids, name@) == first_named(
                    self.nodes(),
                    kids.subrange(i as int, kids.len() as int),
                    name@,
                ),
            decreases rec.children.len() - i,
        {
            let kid = rec.children[i];
            let ghost tail = kids.subrange(i as int, kids.len() as int);
            assert(tail[0] == kid);
            assert(tail.drop_first() == kids.subrange(i + 1, kids.len() as int));
            assert(self.has_node(kid));
            match self.node(kid) {
                Ok(child) => {
                    if child.name == *name {
                        return Some(kid);
                    }
                },
                Err(_) => {},
            }
            i += 1;
        }
        None
    }

    /// Resolves a path to a node.
    ///
    /// A path is a list of segments separated by `/`. A path that begins with
    /// `/` starts at the root, any other at `from`. An empty segment and `.`
    /// stay where they are, `..` goes to the parent, and any other segment
    /// goes to the first child of that name, so that a node without a name is
    /// never reached. Fails with `IdNotFound` where `from` names no live
    /// node, and with `NameNotFound` where a segment leads nowhere.
    pub fn resolve_path(&self, from: GenericNodeId, path: &str) -> (res: Result<GenericNodeId, Error>)
        requires
            self.sound(),
        ensures
            res == (if !self.has_node(from) {
                Err::<GenericNodeId, Error>(Error::IdNotFound)
            } else {
                match resolve_spec(self.nodes(), self.root_id(), from, path@) {
                    Some(id) => Ok::<GenericNodeId, Error>(id),
                    None => Err::<GenericNodeId, Error>(Error::NameNotFound),
                }
            }),
            res is Ok ==> self.has_node(res->Ok_0),
    {
        if !self.contains(from) {
            return Err(Error::IdNotFound);
        }
        let parts = split_path(path);
        let absolute = path.unicode_len() > 0 && path.get_char(0) == '/';
        let mut cur = if absolute {
            self.root()
        } else {
            from
        };
        let ghost start = cur;
        let ghost segs = segments(path@);
        let mut i: usize = 0;
        assert(segs.subrange(0, 0) == Seq::<Seq<char>>::empty());
        while i < parts.len()
            invariant
                self.sound(),
                i <= parts.len(),
                parts@.len() == segs.len(),
                forall|j: int| 0 <= j < parts@.len() ==> (#[trigger] parts@[j])@ == segs[j],
                self.has_node(cur),
                self.has_node(from),
                segs == segments(path@),
                start == (if path@.len() > 0 && path@[0] == '/' {
                    self.root_id()
                } else {
                    from
                }),
                walk_segments(self.nodes(), start, segs.subrange(0, i as int)) == Some(cur),
            decreases parts.len() - i,
        {
            let seg = &parts[i];
            proof {
                lemma_walk_push(self.nodes(), start, segs.subrange(0, i as int), segs[i as int]);
                assert(segs.subrange(0, i as int).push(segs[i as int]) == segs.subrange(0, i + 1));
                assert(seg@ == segs[i as int]);
            }
            if seg.as_str().unicode_len() == 0 || is_dot(seg.as_str()) {
            } else if is_dot_dot(seg.as_str()) {
                let rec = match self.node(cur) {
                    Ok(rec) => rec,
                    Err(_) => {
                        return Err(Error::NameNotFound);
                    },
                };
                match rec.parent {
                    Some(up) => {
                        cur = up;
                    },
                    None => {
                        proof {
                            lemma_walk_dead(self.nodes(), start, segs, i + 1);
                        }
                        return Err(Error::NameNotFound);
                    },
                }
            } else {
                match self.child_named(cur, seg) {
                    Some(down) => {
                        cur = down;
                    },
                    None => {
                        proof {
                            lemma_walk_dead(self.nodes(), start, segs, i + 1);
                        }
                        return Err(Error::NameNotFound);
                    },
                }
            }
            i += 1;
        }
        assert(segs.subrange(0, parts.len() as int) == segs);
        Ok(cur)
    }
}

/// Once a prefix of the segments leads nowhere, so do all of them.
pub proof fn lemma_walk_dead(
    nodes: Map<u64, NodeHierarchy>,
    cur: GenericNodeId,
    segs: Seq<Seq<char>>,
    n: int,
)
    requires
        0 <= n <= segs.len(),
        walk_segments(nodes, cur, segs.subrange(0, n)) is None,
    ensures
        walk_segments(nodes, cur, segs) is None,
    decreases segs.len() - n,
{
    if n < segs.len() {
        lemma_walk_push(nodes, cur, segs.subrange(0, n), segs[n]);
        assert(segs.subrange(0, n).push(segs[n]) == segs.subrange(0, n + 1));
        lemma_walk_dead(nodes, cur, segs, n + 1);
    } else {
        assert(segs.subrange(0, n) == segs);
    }
}

} // verus!
