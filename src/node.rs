use vstd::prelude::*;

verus! {

/// A registered signature: its bytes, a mask of the same length, and the value
/// that a lookup hands back for it.
pub struct SignatureInfo<T> {
    pub bytes: Vec<u8>,
    pub masks: Vec<u8>,
    pub object: T,
}

/// A vertex of the decision tree, reached after `depth` bytes.
///
/// Signatures are referred to by their position in the tree's list of
/// registered signatures, children by their position in the tree's node arena.
pub struct TreeNode {
    /// Number of bytes consumed on the way to this node.
    pub depth: usize,
    /// Signatures longer than `depth` routed through this node, in order of arrival.
    pub subtree_signatures: Vec<usize>,
    /// The child for each value of the byte at `depth`.
    pub choices: Vec<Option<usize>>,
    /// Signatures fully consumed at this node.
    pub term: Vec<usize>,
}

/// The number of possible values of a byte, one child slot each.
pub const FANOUT: usize = 256;

impl TreeNode {
    /// An empty node at the given depth, with every child slot vacant.
    pub fn with_depth(depth: usize) -> (r: TreeNode)
        ensures
            r.depth == depth,
            r.subtree_signatures@.len() == 0,
            r.term@.len() == 0,
            r.choices@.len() == FANOUT,
            forall|c: int| 0 <= c < FANOUT ==> #[trigger] r.choices@[c] is None,
    {
        let mut choices: Vec<Option<usize>> = Vec::new();
        let mut i: usize = 0;
        while i < FANOUT
            invariant
                i <= FANOUT,
                choices@.len() == i,
                forall|c: int| 0 <= c < i ==> #[trigger] choices@[c] is None,
            decreases FANOUT - i,
        {
            choices.push(None);
            i = i + 1;
        }
        TreeNode { depth, subtree_signatures: Vec::new(), choices, term: Vec::new() }
    }
}

/// Whether signature `s` lies over `b` at offset `off` on positions `from..`:
/// each buffer byte there, masked by the signature's mask, equals the
/// signature's byte, and the buffer is long enough to hold them.
pub open spec fn matches_from<T>(s: SignatureInfo<T>, b: Seq<u8>, off: int, from: int) -> bool {
    forall|i: int| from <= i < s.bytes@.len() ==> #[trigger] byte_matches(s, b, off, i)
}

/// Whether the buffer holds position `i` of signature `s` at offset `off`,
/// and that byte, masked by the signature's mask, equals the signature's byte.
pub open spec fn byte_matches<T>(s: SignatureInfo<T>, b: Seq<u8>, off: int, i: int) -> bool {
    off + i < b.len() && (b[off + i] & s.masks@[i]) == s.bytes@[i]
}

/// Whether signature `s` matches `b` at offset `off`, on every position.
pub open spec fn matches_at<T>(s: SignatureInfo<T>, b: Seq<u8>, off: int) -> bool {
    matches_from(s, b, off, 0)
}

/// Whether node `nd` holds signature `i`, pending or fully consumed.
pub open spec fn holds(nd: TreeNode, i: int) -> bool {
    &&& 0 <= i <= usize::MAX
    &&& nd.subtree_signatures@.contains(i as usize) || nd.term@.contains(i as usize)
}

/// Node `n` leads to node `m` on byte value `c`.
pub open spec fn link(ns: Seq<TreeNode>, n: int, c: int, m: int) -> bool {
    &&& 0 <= n < ns.len()
    &&& 0 <= c < FANOUT
    &&& ns[n].choices@[c] is Some
    &&& ns[n].choices@[c]->0 as int == m
}

/// The entries of `l` increase strictly: in order of registration, each once.
pub open spec fn increasing(l: Seq<usize>) -> bool {
    forall|a: int, b: int| 0 <= a < b < l.len() ==> #[trigger] l[a] < #[trigger] l[b]
}

/// Local shape of node `n`: child slots, valid references, pending signatures
/// longer than the depth, consumed ones no longer, and no children while fewer
/// than two signatures are pending.
pub open spec fn node_ok<T>(ns: Seq<TreeNode>, ss: Seq<SignatureInfo<T>>, n: int) -> bool {
    let nd = ns[n];
    &&& nd.choices@.len() == FANOUT
    &&& forall|c: int|
        0 <= c < FANOUT && (#[trigger] nd.choices@[c]) is Some ==> 0 < nd.choices@[c]->0 < ns.len()
    &&& forall|k: int|
        0 <= k < nd.subtree_signatures@.len() ==> #[trigger] nd.subtree_signatures@[k] < ss.len()
            && nd.depth < ss[nd.subtree_signatures@[k] as int].bytes@.len()
    &&& forall|k: int|
        0 <= k < nd.term@.len() ==> #[trigger] nd.term@[k] < ss.len() && ss[nd.term@[k] as int].bytes@.len()
            <= nd.depth
    &&& nd.subtree_signatures@.len() < 2 ==> forall|c: int|
        0 <= c < FANOUT ==> (#[trigger] nd.choices@[c]) is None
    &&& increasing(nd.subtree_signatures@)
    &&& increasing(nd.term@)
}

/// The link from `n` to `m` on byte `c` is one level deeper, and every signature
/// that `m` holds was pending at `n` with byte `c` at `n`'s depth.
pub open spec fn child_ok<T>(ns: Seq<TreeNode>, ss: Seq<SignatureInfo<T>>, n: int, c: int, m: int) -> bool {
    &&& ns[m].depth == ns[n].depth + 1
    &&& forall|k: int|
        0 <= k < ns[m].subtree_signatures@.len() ==> ns[n].subtree_signatures@.contains(
            #[trigger] ns[m].subtree_signatures@[k],
        ) && ss[ns[m].subtree_signatures@[k] as int].bytes@[ns[n].depth as int] == c
    &&& forall|k: int|
        0 <= k < ns[m].term@.len() ==> ns[n].subtree_signatures@.contains(#[trigger] ns[m].term@[k])
            && ss[ns[m].term@[k] as int].bytes@[ns[n].depth as int] == c
}

/// The arena forms a tree rooted at node 0, at depth 0, whose nodes and links
/// are each well shaped.
pub open spec fn shape_ok<T>(ns: Seq<TreeNode>, ss: Seq<SignatureInfo<T>>) -> bool {
    &&& ns.len() > 0
    &&& ns[0].depth == 0
    &&& forall|n: int| 0 <= n < ns.len() ==> #[trigger] node_ok(ns, ss, n)
    &&& forall|n: int, c: int, m: int| #[trigger] link(ns, n, c, m) ==> child_ok(ns, ss, n, c, m)
    &&& forall|n1: int, c1: int, n2: int, c2: int, m: int|
        #[trigger] link(ns, n1, c1, m) && #[trigger] link(ns, n2, c2, m) ==> n1 == n2 && c1 == c2
}

/// Signature `i`, pending at branching node `n`, was passed on to the child for
/// its byte at `n`'s depth, unless that child is `hole_node` and `i` is
/// `hole_sig`, a signature still on its way down.
pub open spec fn placed<T>(
    ns: Seq<TreeNode>,
    ss: Seq<SignatureInfo<T>>,
    n: int,
    i: int,
    hole_sig: int,
    hole_node: int,
) -> bool {
    let c = ss[i].bytes@[ns[n].depth as int] as int;
    match ns[n].choices@[c] {
        Some(m) => holds(ns[m as int], i) || (i == hole_sig && m == hole_node),
        None => false,
    }
}

/// Every one of the first `k` signatures starts at the root, and every
/// branching node passed each of its pending signatures on, but for the one
/// signature `hole_sig` whose insertion stands at `hole_node`.
pub open spec fn routed_ok<T>(
    ns: Seq<TreeNode>,
    ss: Seq<SignatureInfo<T>>,
    k: int,
    hole_sig: int,
    hole_node: int,
) -> bool {
    &&& forall|i: int| 0 <= i < k ==> #[trigger] holds(ns[0], i) || (i == hole_sig && hole_node == 0)
    &&& forall|n: int, j: int|
        0 <= n < ns.len() && 2 <= ns[n].subtree_signatures@.len() && 0 <= j
            < ns[n].subtree_signatures@.len() ==> placed(
            ns,
            ss,
            n,
            #[trigger] ns[n].subtree_signatures@[j] as int,
            hole_sig,
            hole_node,
        )
}

/// Each mask is as long as its bytes, and no two signatures share both bytes and mask.
pub open spec fn sigs_ok<T>(ss: Seq<SignatureInfo<T>>) -> bool {
    &&& forall|i: int| 0 <= i < ss.len() ==> (#[trigger] ss[i]).masks@.len() == ss[i].bytes@.len()
    &&& forall|i: int, j: int|
        0 <= i < ss.len() && 0 <= j < ss.len() && i != j ==> (#[trigger] ss[i]).bytes@ != (
        #[trigger] ss[j]).bytes@ || ss[i].masks@ != ss[j].masks@
}

/// The whole invariant of a tree over the registered signatures `ss`.
pub open spec fn tree_ok<T>(ns: Seq<TreeNode>, ss: Seq<SignatureInfo<T>>) -> bool {
    &&& ss.len() <= usize::MAX
    &&& shape_ok(ns, ss)
    &&& routed_ok(ns, ss, ss.len() as int, -1, -1)
    &&& sigs_ok(ss)
}

/// Position, in `pend` from `k` on, of the first pending signature whose byte at
/// `depth` equals buffer byte `x` under that signature's mask.
pub open spec fn first_choice<T>(
    ss: Seq<SignatureInfo<T>>,
    pend: Seq<usize>,
    depth: int,
    x: u8,
    k: int,
) -> Option<int>
    decreases pend.len() - k,
{
    if k < 0 || k >= pend.len() {
        None
    } else if (x & ss[pend[k] as int].masks@[depth]) == ss[pend[k] as int].bytes@[depth] {
        Some(k)
    } else {
        first_choice(ss, pend, depth, x, k + 1)
    }
}

/// The signatures that a lookup of `b` at `off` collects from node `n` down, in
/// order, taking at most `fuel` steps down the tree.
///
/// A node gives its consumed signatures. A node with exactly one pending
/// signature compares that signature's remaining bytes with the buffer and
/// stops. Otherwise the walk follows the child chosen by the first pending
/// signature that agrees with the buffer byte at the node's depth.
pub open spec fn collect<T>(
    ns: Seq<TreeNode>,
    ss: Seq<SignatureInfo<T>>,
    b: Seq<u8>,
    off: int,
    n: int,
    fuel: nat,
) -> Seq<usize>
    decreases fuel,
{
    let nd = ns[n];
    let d = nd.depth as int;
    let pend = nd.subtree_signatures@;
    let here = nd.term@;
    if pend.len() == 1 {
        if matches_from(ss[pend[0] as int], b, off, d) {
            here.push(pend[0])
        } else {
            here
        }
    } else if fuel == 0 || off + d >= b.len() {
        here
    } else {
        match first_choice(ss, pend, d, b[off + d], 0) {
            None => here,
            Some(k) => match nd.choices@[ss[pend[k] as int].bytes@[d] as int] {
                None => here,
                Some(m) => here + collect(ns, ss, b, off, m as int, (fuel - 1) as nat),
            },
        }
    }
}

/// Position in `ms`, among its first `k` entries, of the first of the longest
/// signatures, or `None` where there are none.
pub open spec fn best<T>(ss: Seq<SignatureInfo<T>>, ms: Seq<usize>, k: int) -> Option<int>
    decreases k,
{
    if k <= 0 {
        None
    } else {
        match best(ss, ms, k - 1) {
            None => Some(k - 1),
            Some(j) => if ss[ms[k - 1] as int].bytes@.len() > ss[ms[j] as int].bytes@.len() {
                Some(k - 1)
            } else {
                Some(j)
            },
        }
    }
}

/// The signature whose payload a lookup of `b` at `off` returns, if any: the
/// first of the longest among those that the walk from the root collects.
pub open spec fn lookup_in<T>(
    ns: Seq<TreeNode>,
    ss: Seq<SignatureInfo<T>>,
    b: Seq<u8>,
    off: int,
) -> Option<int> {
    let ms = collect(ns, ss, b, off, 0, (b.len() + 1) as nat);
    match best(ss, ms, ms.len() as int) {
        None => None,
        Some(j) => Some(ms[j] as int),
    }
}

/// `ns2` keeps every node of `ns` at its depth, with every signature it held
/// and every child it had.
pub open spec fn grows(ns: Seq<TreeNode>, ns2: Seq<TreeNode>) -> bool {
    &&& ns.len() <= ns2.len()
    &&& forall|n: int| 0 <= n < ns.len() ==> (#[trigger] ns2[n]).depth == ns[n].depth
    &&& forall|n: int, i: int| 0 <= n < ns.len() && holds(ns[n], i) ==> #[trigger] holds(ns2[n], i)
    &&& forall|n: int, c: int|
        0 <= n < ns.len() && 0 <= c < FANOUT && (#[trigger] ns[n].choices@[c]) is Some
            ==> ns2[n].choices@[c] == ns[n].choices@[c]
}

/// A fresh node: empty, with every child slot vacant.
pub open spec fn fresh(nd: TreeNode) -> bool {
    &&& nd.subtree_signatures@.len() == 0
    &&& nd.term@.len() == 0
    &&& nd.choices@.len() == FANOUT
    &&& forall|c: int| 0 <= c < FANOUT ==> (#[trigger] nd.choices@[c]) is None
}

/// `ns2` is `ns` with signature `i` added to node `n`: to its pending list, or
/// to its consumed list.
pub open spec fn with_item(ns: Seq<TreeNode>, ns2: Seq<TreeNode>, n: int, i: usize, pending: bool) -> bool {
    &&& 0 <= n < ns.len()
    &&& ns2.len() == ns.len()
    &&& forall|j: int| 0 <= j < ns.len() && j != n ==> #[trigger] ns2[j] == ns[j]
    &&& ns2[n].depth == ns[n].depth
    &&& ns2[n].choices@ == ns[n].choices@
    &&& if pending {
        &&& ns2[n].subtree_signatures@ == ns[n].subtree_signatures@.push(i)
        &&& ns2[n].term@ == ns[n].term@
    } else {
        &&& ns2[n].subtree_signatures@ == ns[n].subtree_signatures@
        &&& ns2[n].term@ == ns[n].term@.push(i)
    }
}

/// `ns2` is `ns` with a fresh node appended one level below `n`, as its child
/// for byte value `c`, a slot that was vacant.
pub open spec fn with_child(ns: Seq<TreeNode>, ns2: Seq<TreeNode>, n: int, c: int) -> bool {
    &&& 0 <= n < ns.len()
    &&& 0 <= c < FANOUT
    &&& ns[n].choices@[c] is None
    &&& ns.len() <= usize::MAX
    &&& ns2.len() == ns.len() + 1
    &&& forall|j: int| 0 <= j < ns.len() && j != n ==> #[trigger] ns2[j] == ns[j]
    &&& ns2[n].depth == ns[n].depth
    &&& ns2[n].subtree_signatures@ == ns[n].subtree_signatures@
    &&& ns2[n].term@ == ns[n].term@
    &&& ns2[n].choices@ == ns[n].choices@.update(c, Some(ns.len() as usize))
    &&& fresh(ns2[ns.len() as int])
    &&& ns2[ns.len() as int].depth == ns[n].depth + 1
}

/// Adding a signature to a node keeps the tree well shaped, provided it fits the
/// node's depth and every link into the node agrees with it.
pub proof fn lemma_with_item<T>(
    ns: Seq<TreeNode>,
    ns2: Seq<TreeNode>,
    ss: Seq<SignatureInfo<T>>,
    n: int,
    i: usize,
    pending: bool,
)
    requires
        shape_ok(ns, ss),
        with_item(ns, ns2, n, i, pending),
        i < ss.len(),
        pending ==> ns[n].depth < ss[i as int].bytes@.len(),
        !pending ==> ss[i as int].bytes@.len() <= ns[n].depth,
        pending ==> forall|k: int| 0 <= k < ns[n].subtree_signatures@.len() ==> #[trigger] ns[n].subtree_signatures@[k] < i,
        !pending ==> forall|k: int| 0 <= k < ns[n].term@.len() ==> #[trigger] ns[n].term@[k] < i,
        forall|p: int, c: int|
            #[trigger] link(ns, p, c, n) ==> ns[p].subtree_signatures@.contains(i)
                && ss[i as int].bytes@[ns[p].depth as int] == c,
    ensures
        shape_ok(ns2, ss),
        grows(ns, ns2),
        holds(ns2[n], i as int),
{
    assert(ns2[n].subtree_signatures@.contains(i) || ns2[n].term@.contains(i)) by {
        if pending {
            assert(ns2[n].subtree_signatures@[ns[n].subtree_signatures@.len() as int] == i);
        } else {
            assert(ns2[n].term@[ns[n].term@.len() as int] == i);
        }
    }
    assert forall|p: int, c: int, m: int| #[trigger] link(ns2, p, c, m) implies link(ns, p, c, m) by {}
    assert forall|k: int| 0 <= k < ns.len() implies #[trigger] node_ok(ns2, ss, k) by {
        assert(node_ok(ns, ss, k));
        if k == n {
            let nd = ns2[n];
            assert forall|w: int| 0 <= w < nd.subtree_signatures@.len() implies #[trigger] nd.subtree_signatures@[w] < ss.len()
                && nd.depth < ss[nd.subtree_signatures@[w] as int].bytes@.len() by {
                if w < ns[n].subtree_signatures@.len() {
                    assert(nd.subtree_signatures@[w] == ns[n].subtree_signatures@[w]);
                }
            }
            assert forall|w: int| 0 <= w < nd.term@.len() implies #[trigger] nd.term@[w] < ss.len()
                && ss[nd.term@[w] as int].bytes@.len() <= nd.depth by {
                if w < ns[n].term@.len() {
                    assert(nd.term@[w] == ns[n].term@[w]);
                }
            }
        } else {
            assert(ns2[k] == ns[k]);
        }
    }
    assert forall|p: int, c: int, m: int| #[trigger] link(ns2, p, c, m) implies child_ok(ns2, ss, p, c, m) by {
        assert(link(ns, p, c, m));
        assert(child_ok(ns, ss, p, c, m));
        assert(node_ok(ns, ss, p));
        if m == n {
            assert(ns[p].subtree_signatures@.contains(i));
        }
        assert forall|k: int| 0 <= k < ns2[m].subtree_signatures@.len() implies ns2[p].subtree_signatures@.contains(
            #[trigger] ns2[m].subtree_signatures@[k],
        ) && ss[ns2[m].subtree_signatures@[k] as int].bytes@[ns2[p].depth as int] == c by {
            if m != n || k < ns[m].subtree_signatures@.len() {
                if m != n {
                    assert(ns2[m] == ns[m]);
                }
                let x = ns[m].subtree_signatures@[k];
                assert(ns2[m].subtree_signatures@[k] == x);
                assert(ns[p].subtree_signatures@.contains(x));
                let w = choose|w: int| 0 <= w < ns[p].subtree_signatures@.len() && ns[p].subtree_signatures@[w] == x;
                assert(ns2[p].subtree_signatures@[w] == x);
            } else {
                let w = choose|w: int| 0 <= w < ns[p].subtree_signatures@.len() && ns[p].subtree_signatures@[w] == i;
                assert(ns2[p].subtree_signatures@[w] == i);
            }
        }
        assert forall|k: int| 0 <= k < ns2[m].term@.len() implies ns2[p].subtree_signatures@.contains(
            #[trigger] ns2[m].term@[k],
        ) && ss[ns2[m].term@[k] as int].bytes@[ns2[p].depth as int] == c by {
            if m != n || k < ns[m].term@.len() {
                if m != n {
                    assert(ns2[m] == ns[m]);
                }
                let x = ns[m].term@[k];
                assert(ns2[m].term@[k] == x);
                assert(ns[p].subtree_signatures@.contains(x));
                let w = choose|w: int| 0 <= w < ns[p].subtree_signatures@.len() && ns[p].subtree_signatures@[w] == x;
                assert(ns2[p].subtree_signatures@[w] == x);
            } else {
                let w = choose|w: int| 0 <= w < ns[p].subtree_signatures@.len() && ns[p].subtree_signatures@[w] == i;
                assert(ns2[p].subtree_signatures@[w] == i);
            }
        }
    }
    assert forall|a: int, x: int| 0 <= a < ns.len() && holds(ns[a], x) implies #[trigger] holds(ns2[a], x) by {
        if a == n {
            if ns[a].subtree_signatures@.contains(x as usize) {
                let w = choose|w: int| 0 <= w < ns[a].subtree_signatures@.len() && ns[a].subtree_signatures@[w] == x as usize;
                assert(ns2[a].subtree_signatures@[w] == x as usize);
            } else {
                let w = choose|w: int| 0 <= w < ns[a].term@.len() && ns[a].term@[w] == x as usize;
                assert(ns2[a].term@[w] == x as usize);
            }
        }
    }
}

/// Hanging a fresh child under a branching node keeps the tree well shaped.
pub proof fn lemma_with_child<T>(ns: Seq<TreeNode>, ns2: Seq<TreeNode>, ss: Seq<SignatureInfo<T>>, n: int, c: int)
    requires
        shape_ok(ns, ss),
        with_child(ns, ns2, n, c),
        ns[n].subtree_signatures@.len() >= 2,
    ensures
        shape_ok(ns2, ss),
        grows(ns, ns2),
        link(ns2, n, c, ns.len() as int),
        forall|p: int, c2: int| #[trigger] link(ns2, p, c2, ns.len() as int) ==> p == n && c2 == c,
{
    let fr = ns.len() as int;
    assert(node_ok(ns, ss, n));
    assert(ns2[fr].choices@[c] is None);
    assert forall|p: int, c2: int, m: int| #[trigger] link(ns2, p, c2, m) implies link(ns, p, c2, m) || (
    p == n && c2 == c && m == fr) by {
        if p == fr {
            assert(ns2[fr].choices@[c2] is None);
        } else if p != n {
            assert(ns2[p] == ns[p]);
        } else if c2 != c {
            assert(ns2[p].choices@[c2] == ns[p].choices@[c2]);
        }
    }
    assert forall|k: int| 0 <= k < ns2.len() implies #[trigger] node_ok(ns2, ss, k) by {
        if k < ns.len() {
            assert(node_ok(ns, ss, k));
            if k != n {
                assert(ns2[k] == ns[k]);
            } else {
                assert forall|c2: int| 0 <= c2 < FANOUT && (#[trigger] ns2[k].choices@[c2]) is Some implies 0
                    < ns2[k].choices@[c2]->0 < ns2.len() by {
                    if c2 != c {
                        assert(ns2[k].choices@[c2] == ns[k].choices@[c2]);
                    }
                }
            }
        }
    }
    assert forall|p: int, c2: int, m: int| #[trigger] link(ns2, p, c2, m) implies child_ok(ns2, ss, p, c2, m) by {
        if link(ns, p, c2, m) {
            assert(child_ok(ns, ss, p, c2, m));
            assert(node_ok(ns, ss, p));
            if m != n {
                assert(ns2[m] == ns[m]);
            }
            assert(ns2[p].subtree_signatures@ == ns[p].subtree_signatures@) by {
                if p != n {
                    assert(ns2[p] == ns[p]);
                }
            }
        }
    }
    assert forall|n1: int, c1: int, n2: int, c2: int, m: int|
        #[trigger] link(ns2, n1, c1, m) && #[trigger] link(ns2, n2, c2, m) implies n1 == n2 && c1 == c2 by {
        if m != fr {
            assert(link(ns, n1, c1, m));
            assert(link(ns, n2, c2, m));
        } else {
            if link(ns, n1, c1, m) {
                assert(node_ok(ns, ss, n1));
            }
            if link(ns, n2, c2, m) {
                assert(node_ok(ns, ss, n2));
            }
        }
    }
    assert forall|p: int, c2: int| #[trigger] link(ns2, p, c2, fr) implies p == n && c2 == c by {
        if link(ns, p, c2, fr) {
            assert(node_ok(ns, ss, p));
        }
    }
    assert forall|a: int, x: int| 0 <= a < ns.len() && holds(ns[a], x) implies #[trigger] holds(ns2[a], x) by {
        if a != n {
            assert(ns2[a] == ns[a]);
        }
    }
    assert forall|a: int| 0 <= a < ns.len() implies (#[trigger] ns2[a]).depth == ns[a].depth by {
        if a != n {
            assert(ns2[a] == ns[a]);
        }
    }
    assert forall|a: int, c2: int| 0 <= a < ns.len() && 0 <= c2 < FANOUT && (#[trigger] ns[a].choices@[c2]) is Some
        implies ns2[a].choices@[c2] == ns[a].choices@[c2] by {
        if a != n {
            assert(ns2[a] == ns[a]);
        }
    }
}

/// Routing survives a step of an insertion: nodes only grew, the signature on
/// its way down is now held where it stood, no other node started to branch or
/// took new pending signatures, and the node where it stood passed each of its
/// pending signatures on, but perhaps for the new hole.
pub proof fn lemma_routed_step<T>(
    ns: Seq<TreeNode>,
    ns2: Seq<TreeNode>,
    ss: Seq<SignatureInfo<T>>,
    k: int,
    s: int,
    cur: int,
    hs2: int,
    hn2: int,
)
    requires
        shape_ok(ns, ss),
        routed_ok(ns, ss, k, s, cur),
        grows(ns, ns2),
        0 <= cur < ns.len(),
        holds(ns2[cur], s),
        forall|n: int|
            0 <= n < ns2.len() && n != cur && 2 <= (#[trigger] ns2[n]).subtree_signatures@.len() ==> n
                < ns.len() && ns2[n].subtree_signatures@ == ns[n].subtree_signatures@,
        2 <= ns2[cur].subtree_signatures@.len() ==> forall|j: int|
            0 <= j < ns2[cur].subtree_signatures@.len() ==> placed(
                ns2,
                ss,
                cur,
                #[trigger] ns2[cur].subtree_signatures@[j] as int,
                hs2,
                hn2,
            ) || (j < ns[cur].subtree_signatures@.len() && 2 <= ns[cur].subtree_signatures@.len()
                && ns2[cur].subtree_signatures@[j] == ns[cur].subtree_signatures@[j]
                && ns[cur].subtree_signatures@[j] != s),
    ensures
        routed_ok(ns2, ss, k, hs2, hn2),
{
    assert forall|i: int| 0 <= i < k implies #[trigger] holds(ns2[0], i) || (i == hs2 && hn2 == 0) by {
        if holds(ns[0], i) {
            assert(holds(ns2[0], i));
        }
    }
    assert forall|n: int, j: int|
        0 <= n < ns2.len() && 2 <= ns2[n].subtree_signatures@.len() && 0 <= j
            < ns2[n].subtree_signatures@.len() implies placed(
            ns2,
            ss,
            n,
            #[trigger] ns2[n].subtree_signatures@[j] as int,
            hs2,
            hn2,
        ) by {
        let i = ns2[n].subtree_signatures@[j] as int;
        if n != cur || !placed(ns2, ss, n, i, hs2, hn2) {
            assert(ns[n].subtree_signatures@[j] as int == i);
            assert(placed(ns, ss, n, i, s, cur));
            assert(node_ok(ns, ss, n));
            assert(ns2[n].depth == ns[n].depth);
            let c = ss[i].bytes@[ns[n].depth as int] as int;
            let m = ns[n].choices@[c]->0 as int;
            assert(ns2[n].choices@[c] == ns[n].choices@[c]);
            if holds(ns[m], i) {
                assert(holds(ns2[m], i));
            }
        }
    }
}

/// During one step of an insertion that stands at `cur`: the nodes that were
/// there already, but for `cur`, are untouched, and the nodes added since have at
/// most one pending signature and do not hold `s`.
pub open spec fn settled(ns0: Seq<TreeNode>, ns: Seq<TreeNode>, cur: int, s: int) -> bool {
    &&& ns0.len() <= ns.len()
    &&& forall|n: int| 0 <= n < ns0.len() && n != cur ==> #[trigger] ns[n] == ns0[n]
    &&& forall|n: int|
        ns0.len() <= n < ns.len() ==> (#[trigger] ns[n]).subtree_signatures@.len() <= 1 && !holds(
            ns[n],
            s,
        )
}

/// Registering a new signature, not yet routed, keeps the shape, and its
/// routing starts at the root, where no node holds it yet.
pub proof fn lemma_sigs_push<T>(ns: Seq<TreeNode>, ss: Seq<SignatureInfo<T>>, x: SignatureInfo<T>)
    requires
        shape_ok(ns, ss),
        routed_ok(ns, ss, ss.len() as int, -1, -1),
        ss.len() <= usize::MAX,
    ensures
        shape_ok(ns, ss.push(x)),
        routed_ok(ns, ss.push(x), ss.len() as int + 1, ss.len() as int, 0),
        forall|n: int| 0 <= n < ns.len() ==> !#[trigger] holds(ns[n], ss.len() as int),
{
    let ss2 = ss.push(x);
    assert forall|n: int| 0 <= n < ns.len() implies #[trigger] node_ok(ns, ss2, n) by {
        assert(node_ok(ns, ss, n));
        let nd = ns[n];
        assert forall|k: int| 0 <= k < nd.subtree_signatures@.len() implies #[trigger] nd.subtree_signatures@[k] < ss2.len()
            && nd.depth < ss2[nd.subtree_signatures@[k] as int].bytes@.len() by {
            assert(ss2[nd.subtree_signatures@[k] as int] == ss[nd.subtree_signatures@[k] as int]);
        }
        assert forall|k: int| 0 <= k < nd.term@.len() implies #[trigger] nd.term@[k] < ss2.len()
            && ss2[nd.term@[k] as int].bytes@.len() <= nd.depth by {
            assert(ss2[nd.term@[k] as int] == ss[nd.term@[k] as int]);
        }
    }
    assert forall|n: int, c: int, m: int| #[trigger] link(ns, n, c, m) implies child_ok(ns, ss2, n, c, m) by {
        assert(child_ok(ns, ss, n, c, m));
        assert(node_ok(ns, ss, n));
        assert(node_ok(ns, ss, m));
        assert forall|k: int| 0 <= k < ns[m].subtree_signatures@.len() implies ns[n].subtree_signatures@.contains(
            #[trigger] ns[m].subtree_signatures@[k],
        ) && ss2[ns[m].subtree_signatures@[k] as int].bytes@[ns[n].depth as int] == c by {
            assert(ss2[ns[m].subtree_signatures@[k] as int] == ss[ns[m].subtree_signatures@[k] as int]);
        }
        assert forall|k: int| 0 <= k < ns[m].term@.len() implies ns[n].subtree_signatures@.contains(
            #[trigger] ns[m].term@[k],
        ) && ss2[ns[m].term@[k] as int].bytes@[ns[n].depth as int] == c by {
            assert(ss2[ns[m].term@[k] as int] == ss[ns[m].term@[k] as int]);
        }
    }
    assert forall|n: int| 0 <= n < ns.len() implies !#[trigger] holds(ns[n], ss.len() as int) by {
        assert(node_ok(ns, ss, n));
        if ns[n].subtree_signatures@.contains(ss.len() as usize) {
            let k = choose|k: int| 0 <= k < ns[n].subtree_signatures@.len() && ns[n].subtree_signatures@[k] == ss.len() as usize;
        }
        if ns[n].term@.contains(ss.len() as usize) {
            let k = choose|k: int| 0 <= k < ns[n].term@.len() && ns[n].term@[k] == ss.len() as usize;
        }
    }
    assert forall|n: int, j: int|
        0 <= n < ns.len() && 2 <= ns[n].subtree_signatures@.len() && 0 <= j
            < ns[n].subtree_signatures@.len() implies placed(
            ns,
            ss2,
            n,
            #[trigger] ns[n].subtree_signatures@[j] as int,
            ss.len() as int,
            0,
        ) by {
        assert(node_ok(ns, ss, n));
        let i = ns[n].subtree_signatures@[j] as int;
        assert(placed(ns, ss, n, i, -1, -1));
        assert(ss2[i] == ss[i]);
    }
}

/// Every node of `ns_old` is still in `ns` at the same depth, with the same
/// lists but for `s` appended to one of them at most.
pub open spec fn extends_by(ns_old: Seq<TreeNode>, ns: Seq<TreeNode>, s: usize) -> bool {
    &&& ns_old.len() <= ns.len()
    &&& forall|n: int|
        0 <= n < ns_old.len() ==> {
            &&& (#[trigger] ns[n]).depth == ns_old[n].depth
            &&& ns[n].subtree_signatures@ == ns_old[n].subtree_signatures@ || ns[n].subtree_signatures@
                == ns_old[n].subtree_signatures@.push(s)
            &&& ns[n].term@ == ns_old[n].term@ || ns[n].term@ == ns_old[n].term@.push(s)
        }
}

/// Growth is transitive.
pub proof fn lemma_grows_trans(a: Seq<TreeNode>, b: Seq<TreeNode>, c: Seq<TreeNode>)
    requires
        grows(a, b),
        grows(b, c),
    ensures
        grows(a, c),
{
    assert forall|n: int, i: int| 0 <= n < a.len() && holds(a[n], i) implies #[trigger] holds(c[n], i) by {
        assert(holds(b[n], i));
    }
    assert forall|n: int, x: int|
        0 <= n < a.len() && 0 <= x < FANOUT && (#[trigger] a[n].choices@[x]) is Some implies c[n].choices@[x]
        == a[n].choices@[x] by {
        assert(b[n].choices@[x] == a[n].choices@[x]);
    }
    assert forall|n: int| 0 <= n < a.len() implies (#[trigger] c[n]).depth == a[n].depth by {
        assert(b[n].depth == a[n].depth);
    }
}

/// A walk from a node starts with the signatures consumed at that node.
pub proof fn lemma_collect_starts_with_term<T>(
    ns: Seq<TreeNode>,
    ss: Seq<SignatureInfo<T>>,
    b: Seq<u8>,
    off: int,
    n: int,
    fuel: nat,
)
    ensures
        ns[n].term@.len() <= collect(ns, ss, b, off, n, fuel).len(),
        forall|q: int|
            0 <= q < ns[n].term@.len() ==> collect(ns, ss, b, off, n, fuel)[q] == #[trigger] ns[n].term@[q],
{
    let nd = ns[n];
    let d = nd.depth as int;
    let pend = nd.subtree_signatures@;
    let here = nd.term@;
    if pend.len() == 1 {
        assert(forall|q: int| 0 <= q < here.len() ==> #[trigger] here.push(pend[0])[q] == here[q]);
    } else if !(fuel == 0 || off + d >= b.len()) {
        match first_choice(ss, pend, d, b[off + d], 0) {
            None => {},
            Some(k) => match nd.choices@[ss[pend[k] as int].bytes@[d] as int] {
                None => {},
                Some(m) => {
                    let rest = collect(ns, ss, b, off, m as int, (fuel - 1) as nat);
                    assert(forall|q: int| 0 <= q < here.len() ==> #[trigger] (here + rest)[q] == here[q]);
                },
            },
        }
    }
}

/// Two increasing lists with the same entries are the same list.
pub proof fn lemma_increasing_unique(l1: Seq<usize>, l2: Seq<usize>)
    requires
        increasing(l1),
        increasing(l2),
        forall|x: usize| #[trigger] l1.contains(x) <==> l2.contains(x),
    ensures
        l1 == l2,
    decreases l1.len(),
{
    if l1.len() == 0 {
        if l2.len() > 0 {
            assert(l2.contains(l2[0]));
            assert(l1.contains(l2[0]));
        }
        assert(l1 =~= l2);
    } else if l2.len() == 0 {
        assert(l1.contains(l1[0]));
        assert(l2.contains(l1[0]));
    } else {
        assert(l1.contains(l1[0]));
        assert(l2.contains(l1[0]));
        assert(l2.contains(l2[0]));
        assert(l1.contains(l2[0]));
        let j = choose|j: int| 0 <= j < l2.len() && l2[j] == l1[0];
        let k = choose|k: int| 0 <= k < l1.len() && l1[k] == l2[0];
        if j > 0 {
            assert(l2[0] < l2[j]);
            if k > 0 {
                assert(l1[0] < l1[k]);
            }
        }
        assert(l1[0] == l2[0]);
        let t1 = l1.subrange(1, l1.len() as int);
        let t2 = l2.subrange(1, l2.len() as int);
        assert forall|x: usize| #[trigger] t1.contains(x) implies t2.contains(x) by {
            let a = choose|a: int| 0 <= a < t1.len() && t1[a] == x;
            assert(l1[a + 1] == x);
            assert(l1[0] < l1[a + 1]);
            assert(l1.contains(x));
            let b = choose|b: int| 0 <= b < l2.len() && l2[b] == x;
            assert(b != 0);
            assert(t2[b - 1] == x);
        }
        assert forall|x: usize| #[trigger] t2.contains(x) implies t1.contains(x) by {
            let a = choose|a: int| 0 <= a < t2.len() && t2[a] == x;
            assert(l2[a + 1] == x);
            assert(l2[0] < l2[a + 1]);
            assert(l2.contains(x));
            assert(l1.contains(x));
            let b = choose|b: int| 0 <= b < l1.len() && l1[b] == x;
            assert(b != 0);
            assert(t1[b - 1] == x);
        }
        assert forall|a: int, b: int| 0 <= a < b < t1.len() implies #[trigger] t1[a] < #[trigger] t1[b] by {
            assert(l1[a + 1] < l1[b + 1]);
        }
        assert forall|a: int, b: int| 0 <= a < b < t2.len() implies #[trigger] t2[a] < #[trigger] t2[b] by {
            assert(l2[a + 1] < l2[b + 1]);
        }
        lemma_increasing_unique(t1, t2);
        assert(l1.len() == l2.len());
        assert forall|i: int| 0 <= i < l1.len() implies l1[i] == l2[i] by {
            if i > 0 {
                assert(t1[i - 1] == t2[i - 1]);
            }
        }
        assert(l1 =~= l2);
    }
}

/// Signature `i` is one that a branching node at depth `d`, with pending list
/// `pend`, passes to its child for byte `c`, and that is still pending there
/// (`pending`) or fully consumed there (`!pending`).
pub open spec fn in_child<T>(ss: Seq<SignatureInfo<T>>, pend: Seq<usize>, d: int, c: u8, i: usize, pending: bool) -> bool {
    &&& pend.contains(i)
    &&& ss[i as int].bytes@[d] == c
    &&& if pending {
        d + 1 < ss[i as int].bytes@.len()
    } else {
        ss[i as int].bytes@.len() <= d + 1
    }
}

/// The pending (or consumed) list of that child: exactly those signatures, in
/// order of registration.
pub open spec fn child_list<T>(ss: Seq<SignatureInfo<T>>, pend: Seq<usize>, d: int, c: u8, pending: bool) -> Seq<usize> {
    choose|l: Seq<usize>|
        increasing(l) && forall|x: usize| #[trigger] l.contains(x) <==> in_child(ss, pend, d, c, x, pending)
}

/// Signature `i` is registered and non-empty (`pending`), or registered and empty.
pub open spec fn in_root<T>(ss: Seq<SignatureInfo<T>>, i: usize, pending: bool) -> bool {
    &&& (i as int) < ss.len()
    &&& if pending {
        0 < ss[i as int].bytes@.len()
    } else {
        ss[i as int].bytes@.len() == 0
    }
}

/// The root's pending (or consumed) list: exactly the non-empty (or empty)
/// registered signatures, in order of registration.
pub open spec fn root_list<T>(ss: Seq<SignatureInfo<T>>, pending: bool) -> Seq<usize> {
    choose|l: Seq<usize>| increasing(l) && forall|x: usize| #[trigger] l.contains(x) <==> in_root(ss, x, pending)
}

/// The signatures that a lookup of `b` at `off` collects, over the registered
/// signatures `ss` alone, from a node at depth `d` with pending list `pend` and
/// consumed list `here`, taking at most `fuel` steps down.
///
/// A node gives its consumed signatures. A node with exactly one pending
/// signature compares that signature's remaining bytes with the buffer and
/// stops. Otherwise the walk goes on to the child chosen by the first pending
/// signature, in order of registration, that agrees with the buffer byte at the
/// node's depth under its own mask.
pub open spec fn walk<T>(
    ss: Seq<SignatureInfo<T>>,
    pend: Seq<usize>,
    here: Seq<usize>,
    d: int,
    b: Seq<u8>,
    off: int,
    fuel: nat,
) -> Seq<usize>
    decreases fuel,
{
    if pend.len() == 1 {
        if matches_from(ss[pend[0] as int], b, off, d) {
            here.push(pend[0])
        } else {
            here
        }
    } else if fuel == 0 || off + d >= b.len() {
        here
    } else {
        match first_choice(ss, pend, d, b[off + d], 0) {
            None => here,
            Some(k) => {
                let c = ss[pend[k] as int].bytes@[d];
                here + walk(
                    ss,
                    child_list(ss, pend, d, c, true),
                    child_list(ss, pend, d, c, false),
                    d + 1,
                    b,
                    off,
                    (fuel - 1) as nat,
                )
            },
        }
    }
}

/// The registered signature whose payload a lookup of `b` at `off` returns,
/// over the registered signatures alone: the first of the longest that the
/// walk from the root collects.
pub open spec fn model_lookup<T>(ss: Seq<SignatureInfo<T>>, b: Seq<u8>, off: int) -> Option<int> {
    let ms = walk(ss, root_list(ss, true), root_list(ss, false), 0, b, off, (b.len() + 1) as nat);
    match best(ss, ms, ms.len() as int) {
        None => None,
        Some(j) => Some(ms[j] as int),
    }
}

/// The lists of a child of a branching node are the ones that the parent's
/// pending list and the registered signatures determine.
pub proof fn lemma_child_lists<T>(ns: Seq<TreeNode>, ss: Seq<SignatureInfo<T>>, n: int, c: u8, m: int)
    requires
        tree_ok(ns, ss),
        link(ns, n, c as int, m),
        ns[n].subtree_signatures@.len() >= 2,
    ensures
        ns[m].subtree_signatures@ == child_list(ss, ns[n].subtree_signatures@, ns[n].depth as int, c, true),
        ns[m].term@ == child_list(ss, ns[n].subtree_signatures@, ns[n].depth as int, c, false),
{
    let pend = ns[n].subtree_signatures@;
    let d = ns[n].depth as int;
    assert(node_ok(ns, ss, n));
    assert(child_ok(ns, ss, n, c as int, m));
    assert(node_ok(ns, ss, m));
    let mp = ns[m].subtree_signatures@;
    let mt = ns[m].term@;
    assert forall|x: usize| #[trigger] pend.contains(x) && ss[x as int].bytes@[d] == c implies mp.contains(x) || mt.contains(x) by {
        let j = choose|j: int| 0 <= j < pend.len() && pend[j] == x;
        assert(placed(ns, ss, n, pend[j] as int, -1, -1));
    }
    assert forall|x: usize| #[trigger] mp.contains(x) <==> in_child(ss, pend, d, c, x, true) by {
        if mp.contains(x) {
            let j = choose|j: int| 0 <= j < mp.len() && mp[j] == x;
            assert(pend.contains(mp[j]));
        }
        if in_child(ss, pend, d, c, x, true) {
            assert(pend.contains(x) && ss[x as int].bytes@[d] == c);
            if mt.contains(x) {
                let j = choose|j: int| 0 <= j < mt.len() && mt[j] == x;
                assert(ss[mt[j] as int].bytes@.len() <= d + 1);
            }
        }
    }
    assert forall|x: usize| #[trigger] mt.contains(x) <==> in_child(ss, pend, d, c, x, false) by {
        if mt.contains(x) {
            let j = choose|j: int| 0 <= j < mt.len() && mt[j] == x;
            assert(pend.contains(mt[j]));
        }
        if in_child(ss, pend, d, c, x, false) {
            assert(pend.contains(x) && ss[x as int].bytes@[d] == c);
            if mp.contains(x) {
                let j = choose|j: int| 0 <= j < mp.len() && mp[j] == x;
                assert(d + 1 < ss[mp[j] as int].bytes@.len());
            }
        }
    }
    let lp = child_list(ss, pend, d, c, true);
    let lt = child_list(ss, pend, d, c, false);
    assert(increasing(lp) && forall|x: usize| #[trigger] lp.contains(x) <==> in_child(ss, pend, d, c, x, true));
    assert(increasing(lt) && forall|x: usize| #[trigger] lt.contains(x) <==> in_child(ss, pend, d, c, x, false));
    lemma_increasing_unique(mp, lp);
    lemma_increasing_unique(mt, lt);
}

/// The root's lists are the ones that the registered signatures determine.
pub proof fn lemma_root_lists<T>(ns: Seq<TreeNode>, ss: Seq<SignatureInfo<T>>)
    requires
        tree_ok(ns, ss),
    ensures
        ns[0].subtree_signatures@ == root_list(ss, true),
        ns[0].term@ == root_list(ss, false),
{
    assert(node_ok(ns, ss, 0));
    let mp = ns[0].subtree_signatures@;
    let mt = ns[0].term@;
    assert forall|x: usize| #[trigger] mp.contains(x) <==> in_root(ss, x, true) by {
        if mp.contains(x) {
            let j = choose|j: int| 0 <= j < mp.len() && mp[j] == x;
        }
        if in_root(ss, x, true) {
            assert(holds(ns[0], x as int));
            if mt.contains(x) {
                let j = choose|j: int| 0 <= j < mt.len() && mt[j] == x;
            }
        }
    }
    assert forall|x: usize| #[trigger] mt.contains(x) <==> in_root(ss, x, false) by {
        if mt.contains(x) {
            let j = choose|j: int| 0 <= j < mt.len() && mt[j] == x;
        }
        if in_root(ss, x, false) {
            assert(holds(ns[0], x as int));
            if mp.contains(x) {
                let j = choose|j: int| 0 <= j < mp.len() && mp[j] == x;
            }
        }
    }
    let lp = root_list(ss, true);
    let lt = root_list(ss, false);
    assert(increasing(lp) && forall|x: usize| #[trigger] lp.contains(x) <==> in_root(ss, x, true));
    assert(increasing(lt) && forall|x: usize| #[trigger] lt.contains(x) <==> in_root(ss, x, false));
    lemma_increasing_unique(mp, lp);
    lemma_increasing_unique(mt, lt);
}

/// The walk over the arena collects what the walk over the registered
/// signatures alone collects.
proof fn lemma_collect_walk<T>(ns: Seq<TreeNode>, ss: Seq<SignatureInfo<T>>, b: Seq<u8>, off: int, n: int, fuel: nat)
    requires
        tree_ok(ns, ss),
        0 <= n < ns.len(),
    ensures
        collect(ns, ss, b, off, n, fuel) == walk(
            ss,
            ns[n].subtree_signatures@,
            ns[n].term@,
            ns[n].depth as int,
            b,
            off,
            fuel,
        ),
    decreases fuel,
{
    let nd = ns[n];
    let d = nd.depth as int;
    let pend = nd.subtree_signatures@;
    if pend.len() != 1 && !(fuel == 0 || off + d >= b.len()) {
        let x = b[off + d];
        lemma_first_choice_bounds(ss, pend, d, x, 0);
        match first_choice(ss, pend, d, x, 0) {
            None => {},
            Some(k) => {
                assert(node_ok(ns, ss, n));
                let c = ss[pend[k] as int].bytes@[d];
                assert(placed(ns, ss, n, pend[k] as int, -1, -1));
                let m = nd.choices@[c as int]->0 as int;
                assert(link(ns, n, c as int, m));
                lemma_child_lists(ns, ss, n, c, m);
                assert(child_ok(ns, ss, n, c as int, m));
                lemma_collect_walk(ns, ss, b, off, m, (fuel - 1) as nat);
            },
        }
    }
}

/// A lookup over the arena returns what the lookup over the registered
/// signatures alone returns.
pub proof fn lemma_lookup_model<T>(ns: Seq<TreeNode>, ss: Seq<SignatureInfo<T>>, b: Seq<u8>, off: int)
    requires
        tree_ok(ns, ss),
    ensures
        lookup_in(ns, ss, b, off) == model_lookup(ss, b, off),
{
    lemma_root_lists(ns, ss);
    lemma_collect_walk(ns, ss, b, off, 0, (b.len() + 1) as nat);
}

/// Every signature that a walk collects is a registered one.
pub proof fn lemma_collect_in_range<T>(
    ns: Seq<TreeNode>,
    ss: Seq<SignatureInfo<T>>,
    b: Seq<u8>,
    off: int,
    n: int,
    fuel: nat,
)
    requires
        shape_ok(ns, ss),
        0 <= n < ns.len(),
    ensures
        forall|q: int|
            0 <= q < collect(ns, ss, b, off, n, fuel).len() ==> #[trigger] collect(
                ns,
                ss,
                b,
                off,
                n,
                fuel,
            )[q] < ss.len(),
    decreases fuel,
{
    let nd = ns[n];
    let d = nd.depth as int;
    let pend = nd.subtree_signatures@;
    assert(node_ok(ns, ss, n));
    assert(forall|q: int| 0 <= q < nd.term@.len() ==> #[trigger] nd.term@[q] < ss.len());
    if pend.len() == 1 {
        assert(pend[0] < ss.len());
    }
    if pend.len() != 1 && !(fuel == 0 || off + d >= b.len()) {
        match first_choice(ss, pend, d, b[off + d], 0) {
            None => {},
            Some(k) => {
                let c = ss[pend[k] as int].bytes@[d] as int;
                match nd.choices@[c] {
                    None => {},
                    Some(m) => {
                        lemma_first_choice_bounds(ss, pend, d, b[off + d], 0);
                        assert(0 <= c < FANOUT);
                        lemma_collect_in_range(ns, ss, b, off, m as int, (fuel - 1) as nat);
                        let rest = collect(ns, ss, b, off, m as int, (fuel - 1) as nat);
                        assert(collect(ns, ss, b, off, n, fuel) == nd.term@ + rest);
                        assert(forall|q: int| 0 <= q < rest.len() ==> #[trigger] (nd.term@ + rest)[nd.term@.len() + q] == rest[q]);
                    },
                }
            },
        }
    }
}

/// A position that `first_choice` gives lies in the list.
pub proof fn lemma_first_choice_bounds<T>(
    ss: Seq<SignatureInfo<T>>,
    pend: Seq<usize>,
    depth: int,
    x: u8,
    k: int,
)
    ensures
        first_choice(ss, pend, depth, x, k) matches Some(j) ==> k <= j < pend.len(),
    decreases pend.len() - k,
{
    if 0 <= k < pend.len() {
        lemma_first_choice_bounds(ss, pend, depth, x, k + 1);
    }
}

} // verus!
