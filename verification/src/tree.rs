use vstd::prelude::*;

verus! {

/// The closed set of node kinds the bundler distinguishes; every other
/// construct of the grammar is `Other`.
#[derive(Clone, Copy, PartialEq, Eq, Structural, Debug)]
pub enum NodeKind {
    Comment,
    Command,
    Substitution,
    Word,
    Quoted,
    Other,
}

/// One node of a parsed document, as plain values: kind tag, whether the
/// grammar counts it as named, its half-open byte span, and its place in the
/// tree (parent index, child indices in document order).
pub struct RawNode {
    pub kind: NodeKind,
    pub named: bool,
    pub start: usize,
    pub end: usize,
    pub parent: Option<usize>,
    pub children: Vec<usize>,
}

/// A parsed document's tree, flattened in pre-order: node 0 is the root and
/// every child index is greater than its parent's.
pub struct SyntaxTree {
    pub nodes: Vec<RawNode>,
}

/// Structural soundness of one node: span within the document, parent
/// before it and pointing back through its child list, children after it,
/// in strictly increasing order, each pointing back to it, nested inside
/// its span, and in byte order.
pub open spec fn raw_node_wf(ns: Seq<RawNode>, i: int, len: nat) -> bool {
    let n = ns[i];
    &&& n.start <= n.end <= len
    &&& (n.parent is None <==> i == 0)
    &&& (match n.parent {
        Some(p) => p < i && ns[p as int].children@.contains(i as usize),
        None => true,
    })
    &&& forall|c: int| 0 <= c < n.children@.len() ==> i < (#[trigger] n.children@[c]) < ns.len()
    &&& forall|c: int|
        0 <= c < n.children@.len() ==> (#[trigger] ns[n.children@[c] as int]).parent == Some(
            i as usize,
        )
    &&& forall|a: int, b: int|
        0 <= a < b < n.children@.len() ==> (#[trigger] n.children@[a]) < (
        #[trigger] n.children@[b])
    &&& forall|c: int|
        0 <= c < n.children@.len() ==> n.start <= (#[trigger] ns[n.children@[c] as int]).start
            && ns[n.children@[c] as int].end <= n.end
    &&& forall|a: int, b: int|
        0 <= a && b == a + 1 && b < n.children@.len() ==> (
        #[trigger] ns[n.children@[a] as int]).end <= (#[trigger] ns[n.children@[b] as int]).start
}

/// A whole flattened tree is structurally sound for a document of `len`
/// bytes: there is a root, its span reaches the document's end, and every
/// node is sound. The root's span need not begin at byte 0: the grammar
/// leaves leading blank space outside it, so the root starts at the first
/// non-blank byte.
pub open spec fn raw_nodes_wf(ns: Seq<RawNode>, len: nat) -> bool {
    &&& ns.len() >= 1
    &&& ns[0].end == len
    &&& forall|i: int| 0 <= i < ns.len() ==> #[trigger] raw_node_wf(ns, i, len)
}

/// Where the subtree rooted at `i` ends in a pre-order flattening: right
/// after `i` for a leaf, else where its last child's subtree ends.
pub open spec fn subtree_end(ns: Seq<RawNode>, i: int) -> int
    decreases ns.len() - i,
{
    if 0 <= i < ns.len() {
        let ch = ns[i].children@;
        if ch.len() == 0 {
            i + 1
        } else {
            let c = ch.last() as int;
            if i < c < ns.len() {
                subtree_end(ns, c)
            } else {
                i + 1
            }
        }
    } else {
        i + 1
    }
}

/// The flattening lists the tree in pre-order: a node's first child follows
/// it immediately, each further child begins where its elder sibling's
/// subtree ends, and the root's subtree is the whole list.
pub open spec fn preorder(ns: Seq<RawNode>) -> bool {
    &&& forall|i: int|
        0 <= i < ns.len() && (#[trigger] ns[i]).children@.len() > 0 ==> ns[i].children@[0] == i + 1
    &&& forall|i: int, k: int|
        #![trigger ns[i].children@[k]]
        0 <= i < ns.len() && 0 <= k < ns[i].children@.len() - 1 ==> ns[i].children@[k + 1]
            == subtree_end(ns, ns[i].children@[k] as int)
    &&& (ns.len() > 0 ==> subtree_end(ns, 0) == ns.len())
}

impl SyntaxTree {
    pub open spec fn node_count(self) -> nat {
        self.nodes@.len()
    }

    /// Structural soundness of one node of this tree.
    pub open spec fn node_wf(self, i: int, len: nat) -> bool {
        raw_node_wf(self.nodes@, i, len)
    }

    /// The whole tree is structurally sound for a document of `len` bytes.
    pub open spec fn wf(self, len: nat) -> bool {
        raw_nodes_wf(self.nodes@, len)
    }

    /// The source text a node spans.
    pub open spec fn text_of(self, src: Seq<u8>, i: int) -> Seq<u8> {
        src.subrange(self.nodes@[i].start as int, self.nodes@[i].end as int)
    }
}

/// On a strictly increasing child list an element determines its position.
proof fn lemma_increasing_step(ch: Seq<usize>, a: int, b: int)
    requires
        forall|x: int, y: int| 0 <= x < y < ch.len() ==> (#[trigger] ch[x]) < (#[trigger] ch[y]),
        0 <= a < b < ch.len(),
    ensures
        ch[a] < ch[b],
{
}

/// Adjacent strict increase over a whole sequence implies pairwise strict
/// increase.
proof fn lemma_adjacent_step(ch: Seq<usize>, a: int, b: int)
    requires
        forall|x: int, y: int|
            0 <= x && y == x + 1 && y < ch.len() ==> (#[trigger] ch[x]) < (#[trigger] ch[y]),
        0 <= a < b < ch.len(),
    ensures
        ch[a] < ch[b],
    decreases b - a,
{
    if b > a + 1 {
        lemma_adjacent_step(ch, a, b - 1);
    }
}

impl SyntaxTree {
    /// Check the structural soundness of node `i`.
    #[verifier::loop_isolation(false)]
    fn node_ok(&self, i: usize, src_len: usize) -> (r: bool)
        requires
            i < self.nodes@.len(),
        ensures
            r == self.node_wf(i as int, src_len as nat),
    {
        let n = &self.nodes[i];
        if !(n.start <= n.end && n.end <= src_len) {
            return false;
        }
        match n.parent {
            None => {
                if i != 0 {
                    return false;
                }
            },
            Some(p) => {
                if i == 0 || p >= i {
                    return false;
                }
                let pch = &self.nodes[p].children;
                let mut found = false;
                let mut k: usize = 0;
                while k < pch.len()
                    invariant
                        0 <= k <= pch@.len(),
                        found == (exists|kk: int| 0 <= kk < k && (#[trigger] pch@[kk]) == i),
                    decreases pch@.len() - k,
                {
                    if pch[k] == i {
                        found = true;
                    }
                    k = k + 1;
                }
                if !found {
                    return false;
                }
            },
        }
        let m = n.children.len();
        let mut c: usize = 0;
        while c < m
            invariant
                0 <= c <= m,
                forall|cc: int|
                    0 <= cc < c ==> i < (#[trigger] n.children@[cc]) < self.nodes@.len(),
                forall|cc: int|
                    0 <= cc < c ==> (#[trigger] self.nodes@[n.children@[cc] as int]).parent
                        == Some(i),
                forall|x: int, y: int|
                    0 <= x && y == x + 1 && y < c ==> (#[trigger] n.children@[x]) < (
                    #[trigger] n.children@[y]),
                forall|cc: int|
                    0 <= cc < c ==> n.start <= (#[trigger] self.nodes@[n.children@[cc] as int]).start
                        && self.nodes@[n.children@[cc] as int].end <= n.end,
                forall|x: int, y: int|
                    0 <= x && y == x + 1 && y < c ==> (#[trigger] self.nodes@[n.children@[x] as int]).end
                        <= (#[trigger] self.nodes@[n.children@[y] as int]).start,
            decreases m - c,
        {
            let v = n.children[c];
            if !(i < v && v < self.nodes.len()) {
                return false;
            }
            match self.nodes[v].parent {
                Some(q) => {
                    if q != i {
                        return false;
                    }
                },
                None => {
                    return false;
                },
            }
            if !(n.start <= self.nodes[v].start && self.nodes[v].end <= n.end) {
                return false;
            }
            if c > 0 && !(n.children[c - 1] < v) {
                return false;
            }
            if c > 0 && !(self.nodes[n.children[c - 1]].end <= self.nodes[v].start) {
                return false;
            }
            c = c + 1;
        }
        proof {
            assert forall|a: int, b: int| 0 <= a < b < n.children@.len() implies (
            #[trigger] n.children@[a]) < (#[trigger] n.children@[b]) by {
                lemma_adjacent_step(n.children@, a, b);
            }
        }
        true
    }

    /// Build a tree from flattened nodes, accepting it only when the whole
    /// structure is sound for a document of `src_len` bytes.
    #[verifier::loop_isolation(false)]
    pub fn from_nodes(nodes: Vec<RawNode>, src_len: usize) -> (r: Option<SyntaxTree>)
        ensures
            (r matches Some(t) ==> t.nodes == nodes && t.wf(src_len as nat)),
            (r is None ==> !raw_nodes_wf(nodes@, src_len as nat)),
    {
        let t = SyntaxTree { nodes };
        if t.nodes.len() == 0 {
            return None;
        }
        if t.nodes[0].end != src_len {
            return None;
        }
        let mut i: usize = 0;
        while i < t.nodes.len()
            invariant
                0 <= i <= t.nodes@.len(),
                forall|ii: int| 0 <= ii < i ==> #[trigger] raw_node_wf(t.nodes@, ii, src_len as nat),
            decreases t.nodes@.len() - i,
        {
            if !t.node_ok(i, src_len) {
                return None;
            }
            i = i + 1;
        }
        Some(t)
    }

    /// The next sibling of node `i` in its parent's child list, any kind.
    #[verifier::loop_isolation(false)]
    pub(crate) fn next_sibling(&self, i: usize, Ghost(len): Ghost<nat>) -> (r: Option<usize>)
        requires
            self.wf(len),
            i < self.nodes@.len(),
        ensures
            r == self.next_sibling_spec(i as int),
            (r matches Some(s) ==> s < self.nodes@.len() && self.nodes@[i as int].end
                <= self.nodes@[s as int].start),
    {
        match self.nodes[i].parent {
            None => None,
            Some(p) => {
                proof {
                    assert(self.node_wf(i as int, len));
                    assert(self.node_wf(p as int, len));
                }
                let pos = self.position_in_parent(i, p, Ghost(len));
                let pch = &self.nodes[p].children;
                let plen: usize = pch.len();
                if pos < plen - 1 {
                    proof {
                        assert(self.nodes@[pch@[pos as int] as int].end
                            <= self.nodes@[pch@[pos + 1] as int].start);
                    }
                    Some(pch[pos + 1])
                } else {
                    None
                }
            },
        }
    }

    /// Position of `i` inside its parent `p`'s child list.
    #[verifier::loop_isolation(false)]
    fn position_in_parent(&self, i: usize, p: usize, Ghost(len): Ghost<nat>) -> (pos: usize)
        requires
            self.wf(len),
            i < self.nodes@.len(),
            p < self.nodes@.len(),
            self.nodes@[i as int].parent == Some(p),
        ensures
            pos == self.nodes@[p as int].children@.index_of(i),
            pos < self.nodes@[p as int].children@.len(),
            self.nodes@[p as int].children@[pos as int] == i,
    {
        proof {
            assert(self.node_wf(i as int, len));
            assert(self.node_wf(p as int, len));
        }
        let pch = &self.nodes[p].children;
        let ghost chs = pch@;
        let mut k: usize = 0;
        while k < pch.len()
            invariant
                0 <= k <= chs.len(),
                forall|kk: int| 0 <= kk < k ==> (#[trigger] chs[kk]) != i,
            decreases chs.len() - k,
        {
            if pch[k] == i {
                proof {
                    let pos0 = chs.index_of(i);
                    assert(chs.contains(i));
                    assert(0 <= pos0 < chs.len() && chs[pos0] == i);
                    if pos0 < k as int {
                        assert(false);
                    } else if pos0 > k as int {
                        lemma_increasing_step(chs, k as int, pos0);
                        assert(false);
                    }
                }
                return k;
            }
            k = k + 1;
        }
        proof {
            assert(chs.contains(i));
            let pos0 = chs.index_of(i);
            assert(chs[pos0] == i);
            assert(false);
        }
        0
    }

    pub open spec fn next_sibling_spec(self, i: int) -> Option<usize> {
        match self.nodes@[i].parent {
            None => None,
            Some(p) => {
                let ch = self.nodes@[p as int].children@;
                let pos = ch.index_of(i as usize);
                if pos + 1 < ch.len() {
                    Some(ch[pos + 1])
                } else {
                    None
                }
            },
        }
    }

    /// The first named node among `ch[k..]`.
    pub open spec fn first_named_from(self, ch: Seq<usize>, k: int) -> Option<usize>
        decreases ch.len() - k,
    {
        if k < 0 || k >= ch.len() {
            None
        } else if self.nodes@[ch[k] as int].named {
            Some(ch[k])
        } else {
            self.first_named_from(ch, k + 1)
        }
    }

    pub open spec fn next_named_sibling_spec(self, i: int) -> Option<usize> {
        match self.nodes@[i].parent {
            None => None,
            Some(p) => {
                let ch = self.nodes@[p as int].children@;
                self.first_named_from(ch, ch.index_of(i as usize) + 1)
            },
        }
    }

    /// The next sibling of node `i` that the grammar counts as named,
    /// skipping anonymous tokens.
    #[verifier::loop_isolation(false)]
    pub(crate) fn next_named_sibling(&self, i: usize, Ghost(len): Ghost<nat>) -> (r: Option<usize>)
        requires
            self.wf(len),
            i < self.nodes@.len(),
        ensures
            r == self.next_named_sibling_spec(i as int),
            (r matches Some(s) ==> s < self.nodes@.len()),
    {
        match self.nodes[i].parent {
            None => None,
            Some(p) => {
                proof {
                    assert(self.node_wf(i as int, len));
                    assert(self.node_wf(p as int, len));
                }
                let pos = self.position_in_parent(i, p, Ghost(len));
                let pch = &self.nodes[p].children;
                let plen: usize = pch.len();
                let ghost chs = pch@;
                let mut k: usize = pos + 1;
                while k < pch.len()
                    invariant
                        pos + 1 <= k <= chs.len(),
                        self.first_named_from(chs, pos + 1) == self.first_named_from(
                            chs,
                            k as int,
                        ),
                    decreases chs.len() - k,
                {
                    let v = pch[k];
                    if self.nodes[v].named {
                        return Some(v);
                    }
                    k = k + 1;
                }
                None
            },
        }
    }
}

} // verus!
