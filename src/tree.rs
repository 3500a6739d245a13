use vstd::prelude::*;

use crate::node::{
    best, byte_matches, child_ok, collect, extends_by, first_choice, grows, holds, lemma_collect_in_range,
    lemma_grows_trans, lemma_routed_step, lemma_sigs_push, lemma_with_child, lemma_with_item, link,
    lemma_lookup_model, model_lookup, matches_from, node_ok, placed, routed_ok, settled, shape_ok, sigs_ok, tree_ok,
    with_child, SignatureInfo, TreeNode,
};

verus! {

/// Why a signature was refused.
#[derive(Debug, PartialEq, Eq, Structural)]
pub enum SignatureError {
    /// A mask was given whose length differs from that of the bytes.
    MaskLengthMismatch,
}

/// A decision tree over byte signatures.
///
/// Nodes live in an arena addressed by position, node 0 being the root;
/// signatures live in a list in order of registration, and nodes refer to them
/// by position.
pub struct SignatureDecisionTree<T> {
    nodes: Vec<TreeNode>,
    sigs: Vec<SignatureInfo<T>>,
}

impl<T: Clone + Default> SignatureDecisionTree<T> {
    /// The node arena.
    pub closed spec fn nodes(&self) -> Seq<TreeNode> {
        self.nodes@
    }

    /// The registered signatures, in order of registration.
    pub closed spec fn signatures(&self) -> Seq<SignatureInfo<T>> {
        self.sigs@
    }

    /// The tree's invariant over its registered signatures.
    pub open spec fn wf(&self) -> bool {
        tree_ok(self.nodes(), self.signatures())
    }

    /// The registered signature whose payload a lookup of `b` at `off` returns:
    /// a function of the registered signatures alone.
    pub open spec fn lookup(&self, b: Seq<u8>, off: int) -> Option<int> {
        model_lookup(self.signatures(), b, off)
    }

    /// Whether a signature with exactly these bytes and this mask is registered.
    pub open spec fn registered(&self, bytes: Seq<u8>, masks: Seq<u8>) -> bool {
        exists|i: int|
            0 <= i < self.signatures().len() && (#[trigger] self.signatures()[i]).bytes@ == bytes
                && self.signatures()[i].masks@ == masks
    }

    /// Create an empty tree.
    pub fn new() -> (r: Self)
        ensures
            r.wf(),
            r.signatures().len() == 0,
            r.nodes().len() == 1,
    {
        let mut nodes: Vec<TreeNode> = Vec::new();
        nodes.push(TreeNode::with_depth(0));
        let r = SignatureDecisionTree { nodes, sigs: Vec::new() };
        assert(node_ok(r.nodes@, r.sigs@, 0));
        r
    }

    /// The child of node `n` for byte value `choice`; where there is none yet, a
    /// fresh node one level deeper is created for it.
    fn get_node(&mut self, n: usize, choice: u8) -> (m: usize)
        requires
            shape_ok(old(self).nodes@, old(self).sigs@),
            n < old(self).nodes@.len(),
            old(self).nodes@[n as int].depth < usize::MAX,
            2 <= old(self).nodes@[n as int].subtree_signatures@.len(),
        ensures
            final(self).sigs == old(self).sigs,
            shape_ok(final(self).nodes@, final(self).sigs@),
            grows(old(self).nodes@, final(self).nodes@),
            link(final(self).nodes@, n as int, choice as int, m as int),
            old(self).nodes@[n as int].choices@[choice as int] is Some ==> final(self).nodes@
                == old(self).nodes@,
            old(self).nodes@[n as int].choices@[choice as int] is None ==> with_child(
                old(self).nodes@,
                final(self).nodes@,
                n as int,
                choice as int,
            ) && m == old(self).nodes@.len(),
    {
        proof {
            assert(node_ok(self.nodes@, self.sigs@, n as int));
        }
        match self.nodes[n].choices[choice as usize] {
            Some(m) => m,
            None => {
                let ghost ns = self.nodes@;
                let m = self.nodes.len();
                let d = self.nodes[n].depth;
                self.nodes.push(TreeNode::with_depth(d + 1));
                self.nodes[n].choices.set(choice as usize, Some(m));
                proof {
                    assert(self.nodes@[m as int] == ns.push(self.nodes@[m as int])[m as int]);
                    lemma_with_child(ns, self.nodes@, self.sigs@, n as int, choice as int);
                }
                m
            },
        }
    }

    /// Add a signature to the search tree. If `masks` goes unspecified, it is
    /// taken to be all ones, `0xff` for each byte.
    ///
    /// `val` is the object to get back from `get_signature`, the default value
    /// of `T` where it is not given. A mask whose length differs from that of
    /// the bytes is refused. Adding the same bytes with the same mask again
    /// changes nothing, not even the object.
    pub fn add_signature(&mut self, bytes: Vec<u8>, masks: Option<Vec<u8>>, val: Option<T>) -> (r: Result<
        (),
        SignatureError,
    >)
        requires
            old(self).wf(),
        ensures
            final(self).wf(),
            mask_mismatch(bytes@, masks) ==> r == Err::<(), SignatureError>(
                SignatureError::MaskLengthMismatch,
            ) && *final(self) == *old(self),
            !mask_mismatch(bytes@, masks) ==> r is Ok,
            !mask_mismatch(bytes@, masks) && old(self).registered(bytes@, mask_of(bytes@, masks))
                ==> *final(self) == *old(self),
            !mask_mismatch(bytes@, masks) && !old(self).registered(bytes@, mask_of(bytes@, masks))
                ==> {
                let ss = final(self).signatures();
                let last = ss[ss.len() - 1];
                &&& ss.len() == old(self).signatures().len() + 1
                &&& ss.drop_last() == old(self).signatures()
                &&& last.bytes@ == bytes@
                &&& last.masks@ == mask_of(bytes@, masks)
                &&& val matches Some(v) ==> last.object == v
                &&& val is None ==> call_ensures(T::default, (), last.object)
            },
            final(self).registered(bytes@, mask_of(bytes@, masks)) || mask_mismatch(bytes@, masks),
    {
        let mask: Vec<u8> = match masks {
            Some(m) => {
                if m.len() != bytes.len() {
                    return Err(SignatureError::MaskLengthMismatch);
                }
                m
            },
            None => {
                let mut m: Vec<u8> = Vec::new();
                let mut k: usize = 0;
                while k < bytes.len()
                    invariant
                        k <= bytes@.len(),
                        m@ == Seq::new(k as nat, |_j: int| 0xffu8),
                    decreases bytes@.len() - k,
                {
                    m.push(0xff);
                    k = k + 1;
                    assert(m@ =~= Seq::new(k as nat, |_j: int| 0xffu8));
                }
                m
            },
        };
        let mut i: usize = 0;
        while i < self.sigs.len()
            invariant
                i <= self.sigs@.len(),
                *self == *old(self),
                self.wf(),
                mask@ == mask_of(bytes@, masks),
                !mask_mismatch(bytes@, masks),
                forall|j: int|
                    0 <= j < i ==> !((#[trigger] self.sigs@[j]).bytes@ == bytes@ && self.sigs@[j].masks@
                        == mask@),
            decreases self.sigs@.len() - i,
        {
            if same_bytes(&self.sigs[i].bytes, &bytes) && same_bytes(&self.sigs[i].masks, &mask) {
                proof {
                    assert(self.signatures()[i as int].bytes@ == bytes@);
                }
                return Ok(());
            }
            i = i + 1;
        }
        let object = match val {
            Some(v) => v,
            None => T::default(),
        };
        let s = self.sigs.len();
        let ghost ns = self.nodes@;
        let ghost ss0 = self.sigs@;
        let ghost bytes_view = bytes@;
        let ghost mask_view = mask@;
        let x = SignatureInfo { bytes, masks: mask, object };
        proof {
            lemma_sigs_push(ns, ss0, x);
        }
        self.sigs.push(x);
        let count = self.sigs.len();
        proof {
            assert(self.sigs@ == ss0.push(x));
            assert(count == s + 1);
        }
        self.add_choice(s);
        proof {
            let ss = self.sigs@;
            assert(ss[s as int] == x);
            assert forall|a: int, b: int|
                0 <= a < ss.len() && 0 <= b < ss.len() && a != b implies (#[trigger] ss[a]).bytes@ != (
                #[trigger] ss[b]).bytes@ || ss[a].masks@ != ss[b].masks@ by {
                if a < s && b < s {
                    assert(ss[a] == ss0[a]);
                    assert(ss[b] == ss0[b]);
                } else if a < s {
                    assert(ss[a] == ss0[a]);
                    assert(!(ss0[a].bytes@ == bytes_view && ss0[a].masks@ == mask_view));
                } else {
                    assert(ss[b] == ss0[b]);
                    assert(!(ss0[b].bytes@ == bytes_view && ss0[b].masks@ == mask_view));
                }
            }
            assert(ss.drop_last() =~= ss0);
            assert(self.signatures()[s as int].bytes@ == bytes_view);
        }
        Ok(())
    }

    /// Route signature `s`, the last one registered, from the root down to the
    /// node where it rests.
    ///
    /// At a node with no pending signature it stays as the lone pending one; at
    /// a node with one, both are passed on to children keyed by their byte at
    /// the node's depth, the earlier one first, so that every node lists its
    /// signatures in order of registration.
    fn add_choice(&mut self, s: usize)
        requires
            old(self).sigs@.len() == s + 1,
            shape_ok(old(self).nodes@, old(self).sigs@),
            routed_ok(old(self).nodes@, old(self).sigs@, s + 1, s as int, 0),
            forall|n: int| 0 <= n < old(self).nodes@.len() ==> !#[trigger] holds(old(self).nodes@[n], s as int),
        ensures
            final(self).sigs == old(self).sigs,
            shape_ok(final(self).nodes@, final(self).sigs@),
            routed_ok(final(self).nodes@, final(self).sigs@, s + 1, -1, -1),
            grows(old(self).nodes@, final(self).nodes@),
            extends_by(old(self).nodes@, final(self).nodes@, s),
            exists|n: int|
                0 <= n < final(self).nodes@.len() && ((#[trigger] final(self).nodes@[n]).term@.contains(s)
                    || final(self).nodes@[n].subtree_signatures@ == seq![s]),
    {
        let mut cur: usize = 0;
        loop
            invariant_except_break
                self.sigs == old(self).sigs,
                self.sigs@.len() == s + 1,
                shape_ok(self.nodes@, self.sigs@),
                routed_ok(self.nodes@, self.sigs@, s + 1, s as int, cur as int),
                cur < self.nodes@.len(),
                forall|n: int|
                    0 <= n < self.nodes@.len() && #[trigger] holds(self.nodes@[n], s as int)
                        ==> self.nodes@[n].depth < self.nodes@[cur as int].depth,
                self.nodes@[cur as int].depth <= self.sigs@[s as int].bytes@.len(),
                forall|p: int, c: int|
                    #[trigger] link(self.nodes@, p, c, cur as int) ==> self.nodes@[p].subtree_signatures@.contains(s)
                        && self.sigs@[s as int].bytes@[self.nodes@[p].depth as int] == c,
                grows(old(self).nodes@, self.nodes@),
                extends_by(old(self).nodes@, self.nodes@, s),
            ensures
                self.sigs == old(self).sigs,
                shape_ok(self.nodes@, self.sigs@),
                routed_ok(self.nodes@, self.sigs@, s + 1, -1, -1),
                grows(old(self).nodes@, self.nodes@),
                extends_by(old(self).nodes@, self.nodes@, s),
                exists|n: int|
                    0 <= n < self.nodes@.len() && ((#[trigger] self.nodes@[n]).term@.contains(s)
                        || self.nodes@[n].subtree_signatures@ == seq![s]),
            decreases self.sigs@[s as int].bytes@.len() - self.nodes@[cur as int].depth,
        {
            let ghost ns0 = self.nodes@;
            let ghost ss = self.sigs@;
            let d = self.nodes[cur].depth;
            let ghost nso = old(self).nodes@;
            proof {
                assert(node_ok(ns0, ss, cur as int));
                assert(!holds(ns0[cur as int], s as int));
                if cur < nso.len() {
                    if ns0[cur as int].subtree_signatures@ != nso[cur as int].subtree_signatures@ {
                        assert(ns0[cur as int].subtree_signatures@[nso[cur as int].subtree_signatures@.len() as int] == s);
                    }
                    if ns0[cur as int].term@ != nso[cur as int].term@ {
                        assert(ns0[cur as int].term@[nso[cur as int].term@.len() as int] == s);
                    }
                }
                assert forall|j: int| 0 <= j < ns0[cur as int].subtree_signatures@.len() implies
                    #[trigger] ns0[cur as int].subtree_signatures@[j] < s by {
                    if ns0[cur as int].subtree_signatures@[j] == s {
                        assert(ns0[cur as int].subtree_signatures@.contains(s));
                    }
                }
                assert forall|j: int| 0 <= j < ns0[cur as int].term@.len() implies
                    #[trigger] ns0[cur as int].term@[j] < s by {
                    if ns0[cur as int].term@[j] == s {
                        assert(ns0[cur as int].term@.contains(s));
                    }
                }
            }
            if self.sigs[s].bytes.len() <= d {
                self.nodes[cur].term.push(s);
                proof {
                    lemma_with_item(ns0, self.nodes@, ss, cur as int, s, false);
                    lemma_routed_step(ns0, self.nodes@, ss, s + 1, s as int, cur as int, -1, -1);
                    lemma_grows_trans(nso, ns0, self.nodes@);
                    assert(self.nodes@[cur as int].term@[ns0[cur as int].term@.len() as int] == s);
                    assert(self.nodes@[cur as int].term@.contains(s));
                }
                break;
            }
            let siglen = self.nodes[cur].subtree_signatures.len();
            self.nodes[cur].subtree_signatures.push(s);
            let ghost ns1 = self.nodes@;
            proof {
                lemma_with_item(ns0, ns1, ss, cur as int, s, true);
                assert(settled(ns0, ns1, cur as int, s as int));
            }
            if siglen == 0 {
                proof {
                    lemma_routed_step(ns0, ns1, ss, s + 1, s as int, cur as int, -1, -1);
                    lemma_grows_trans(nso, ns0, ns1);
                    assert(ns1[cur as int].subtree_signatures@ =~= seq![s]);
                }
                break;
            }
            if siglen == 1 {
                let q = self.nodes[cur].subtree_signatures[0];
                proof {
                    assert(ns0[cur as int].subtree_signatures@[0] == q);
                    assert(ns0[cur as int].choices@[ss[q as int].bytes@[d as int] as int] is None);
                }
                let cq = self.get_node(cur, self.sigs[q].bytes[d]);
                let ghost ns2 = self.nodes@;
                proof {
                    assert(settled(ns0, ns2, cur as int, s as int));
                    assert(node_ok(ns2, ss, cq as int));
                    assert forall|p: int, c: int| #[trigger] link(ns2, p, c, cq as int) implies
                        ns2[p].subtree_signatures@.contains(q) && ss[q as int].bytes@[ns2[p].depth as int] == c by {
                        assert(link(ns2, cur as int, ss[q as int].bytes@[d as int] as int, cq as int));
                        assert(ns2[cur as int].subtree_signatures@[0] == q);
                    }
                }
                if self.sigs[q].bytes.len() <= d + 1 {
                    self.nodes[cq].term.push(q);
                    proof {
                        lemma_with_item(ns2, self.nodes@, ss, cq as int, q, false);
                    }
                } else {
                    self.nodes[cq].subtree_signatures.push(q);
                    proof {
                        lemma_with_item(ns2, self.nodes@, ss, cq as int, q, true);
                    }
                }
                proof {
                    lemma_grows_trans(ns1, ns2, self.nodes@);
                    assert(q != s);
                    assert forall|n: int| ns0.len() <= n < self.nodes@.len() implies
                        (#[trigger] self.nodes@[n]).subtree_signatures@.len() <= 1
                        && !holds(self.nodes@[n], s as int) by {
                        if n == cq {
                            assert(!self.nodes@[n].subtree_signatures@.contains(s));
                            assert(!self.nodes@[n].term@.contains(s));
                        }
                    }
                    assert(settled(ns0, self.nodes@, cur as int, s as int));
                    assert(holds(self.nodes@[cq as int], q as int));
                    assert(self.nodes@[cur as int].choices@[ss[q as int].bytes@[d as int] as int] == Some(cq));
                }
            }
            let ghost ns3 = self.nodes@;
            proof {
                assert(grows(ns1, ns1));
                lemma_grows_trans(ns0, ns1, ns3);
                assert(settled(ns0, ns3, cur as int, s as int));
                assert(ns3[cur as int].subtree_signatures@ == ns1[cur as int].subtree_signatures@);
                assert(ns3[cur as int].depth == d);
            }
            let cs = self.get_node(cur, self.sigs[s].bytes[d]);
            proof {
                let ns4 = self.nodes@;
                lemma_grows_trans(ns0, ns3, ns4);
                lemma_grows_trans(ns1, ns3, ns4);
                lemma_grows_trans(nso, ns0, ns4);
                let cs_byte = ss[s as int].bytes@[d as int] as int;
                assert(settled(ns0, ns4, cur as int, s as int));
                assert(ns4[cur as int].subtree_signatures@ == ns1[cur as int].subtree_signatures@);
                assert(ns1[cur as int].subtree_signatures@[siglen as int] == s);
                assert(link(ns4, cur as int, cs_byte, cs as int));
                assert(child_ok(ns4, ss, cur as int, cs_byte, cs as int));
                assert(node_ok(ns4, ss, cur as int));
                assert forall|j: int| 0 <= j < ns4[cur as int].subtree_signatures@.len() implies placed(
                    ns4,
                    ss,
                    cur as int,
                    #[trigger] ns4[cur as int].subtree_signatures@[j] as int,
                    s as int,
                    cs as int,
                ) || (j < ns0[cur as int].subtree_signatures@.len() && 2
                    <= ns0[cur as int].subtree_signatures@.len()
                    && ns4[cur as int].subtree_signatures@[j] == ns0[cur as int].subtree_signatures@[j]
                    && ns0[cur as int].subtree_signatures@[j] != s) by {
                    if j < siglen {
                        assert(ns4[cur as int].subtree_signatures@[j] == ns0[cur as int].subtree_signatures@[j]);
                    }
                }
                lemma_routed_step(ns0, ns4, ss, s + 1, s as int, cur as int, s as int, cs as int);
                assert forall|n: int|
                    0 <= n < ns4.len() && #[trigger] holds(ns4[n], s as int) implies ns4[n].depth < ns4[cs as int].depth by {
                    if n < ns0.len() && n != cur {
                        assert(ns4[n] == ns0[n]);
                        assert(holds(ns0[n], s as int));
                    }
                }
                assert forall|p: int, c: int| #[trigger] link(ns4, p, c, cs as int) implies
                    ns4[p].subtree_signatures@.contains(s) && ss[s as int].bytes@[ns4[p].depth as int] == c by {
                    assert(link(ns4, cur as int, cs_byte, cs as int));
                }
            }
            cur = cs;
        }
    }

    /// Whether pending signature `p` of node `cur` lies over `b` at `off` from
    /// the node's depth on.
    fn leaf_matches(&self, cur: usize, p: usize, b: &Vec<u8>, off: usize) -> (r: bool)
        requires
            self.wf(),
            cur < self.nodes().len(),
            self.nodes()[cur as int].subtree_signatures@.contains(p),
        ensures
            r == matches_from(self.signatures()[p as int], b@, off as int, self.nodes()[cur as int].depth as int),
    {
        proof {
            assert(node_ok(self.nodes@, self.sigs@, cur as int));
            assert(sigs_ok(self.sigs@));
            let k = choose|k: int| 0 <= k < self.nodes@[cur as int].subtree_signatures@.len() && self.nodes@[cur as int].subtree_signatures@[k] == p;
            assert(self.nodes@[cur as int].subtree_signatures@[k] == p);
        }
        let sig = &self.sigs[p];
        let d = self.nodes[cur].depth;
        assert(*sig == self.signatures()[p as int]);
        assert(d == self.nodes()[cur as int].depth);
        let mut i: usize = d;
        while i < sig.bytes.len()
            invariant
                d <= i <= sig.bytes@.len(),
                *sig == self.signatures()[p as int],
                d == self.nodes()[cur as int].depth,
                sig.masks@.len() == sig.bytes@.len(),
                forall|j: int| d <= j < i ==> #[trigger] byte_matches(*sig, b@, off as int, j),
            decreases sig.bytes@.len() - i,
        {
            if off >= b.len() || i >= b.len() - off || (b[off + i] & sig.masks[i]) != sig.bytes[i] {
                assert(!matches_from(*sig, b@, off as int, d as int)) by {
                    if matches_from(*sig, b@, off as int, d as int) {
                        assert(byte_matches(*sig, b@, off as int, i as int));
                    }
                }
                return false;
            }
            i = i + 1;
        }
        true
    }

    /// The position, among the pending signatures of node `cur`, of the first
    /// one whose byte at the node's depth equals `x` under its mask.
    fn first_choice_of(&self, cur: usize, x: u8) -> (r: Option<usize>)
        requires
            self.wf(),
            cur < self.nodes().len(),
        ensures
            r matches Some(k) ==> first_choice(self.signatures(), self.nodes()[cur as int].subtree_signatures@,
                self.nodes()[cur as int].depth as int, x, 0) == Some(k as int),
            r is None ==> first_choice(self.signatures(), self.nodes()[cur as int].subtree_signatures@,
                self.nodes()[cur as int].depth as int, x, 0) is None,
            r matches Some(k) ==> k < self.nodes()[cur as int].subtree_signatures@.len(),
    {
        proof {
            assert(node_ok(self.nodes@, self.sigs@, cur as int));
        }
        let nd = &self.nodes[cur];
        let d = nd.depth;
        let mut k: usize = 0;
        while k < nd.subtree_signatures.len()
            invariant
                k <= nd.subtree_signatures@.len(),
                node_ok(self.nodes@, self.sigs@, cur as int),
                sigs_ok(self.sigs@),
                *nd == self.nodes@[cur as int],
                d == nd.depth,
                first_choice(self.sigs@, nd.subtree_signatures@, d as int, x, 0)
                    == first_choice(self.sigs@, nd.subtree_signatures@, d as int, x, k as int),
            decreases nd.subtree_signatures@.len() - k,
        {
            let p = nd.subtree_signatures[k];
            assert(self.sigs@[p as int].masks@.len() == self.sigs@[p as int].bytes@.len());
            if (x & self.sigs[p].masks[d]) == self.sigs[p].bytes[d] {
                return Some(k);
            }
            k = k + 1;
        }
        None
    }

    /// Get the object associated with the longest signature that matches `bytes`
    /// at `offset` (0 when absent), as the walk down the tree finds it; nothing
    /// for a negative offset.
    ///
    /// The walk collects the signatures consumed at each node it passes, compares
    /// a lone pending signature byte by byte, and at a branching node follows the
    /// first pending signature that agrees with the buffer byte. Of the collected
    /// signatures the first of the longest wins. Where the registered masks agree,
    /// that is the longest signature that matches (`lemma_longest_match_wins`).
    pub fn get_signature(&self, bytes: Vec<u8>, offset: Option<i32>) -> (r: Option<T>)
        requires
            self.wf(),
        ensures
            offset matches Some(o) && o < 0 ==> r is None,
            !(offset matches Some(o) && o < 0) ==> ({
                let off = match offset { Some(o) => o as int, None => 0 };
                match self.lookup(bytes@, off) {
                    None => r is None,
                    Some(i) => r matches Some(v) && cloned(self.signatures()[i].object, v),
                }
            }),
    {
        let off: usize = match offset {
            Some(o) => {
                if o < 0 {
                    return None;
                }
                o as usize
            },
            None => 0,
        };
        proof {
            lemma_lookup_model(self.nodes@, self.sigs@, bytes@, off as int);
        }
        let ghost fuel0: nat = (bytes@.len() + 1) as nat;
        let mut matches: Vec<usize> = Vec::new();
        let mut cur: usize = 0;
        loop
            invariant_except_break
                self.wf(),
                fuel0 == bytes@.len() + 1,
                cur < self.nodes@.len(),
                self.nodes@[cur as int].depth <= bytes@.len(),
                matches@ + collect(self.nodes@, self.sigs@, bytes@, off as int, cur as int,
                    (fuel0 - self.nodes@[cur as int].depth) as nat)
                    == collect(self.nodes@, self.sigs@, bytes@, off as int, 0, fuel0),
            ensures
                self.wf(),
                matches@ == collect(self.nodes@, self.sigs@, bytes@, off as int, 0, fuel0),
            decreases bytes@.len() - self.nodes@[cur as int].depth,
        {
            proof {
                assert(node_ok(self.nodes@, self.sigs@, cur as int));
            }
            let nd = &self.nodes[cur];
            let ghost before = matches@;
            let mut t: usize = 0;
            while t < nd.term.len()
                invariant
                    t <= nd.term@.len(),
                    matches@ == before + nd.term@.subrange(0, t as int),
                decreases nd.term@.len() - t,
            {
                matches.push(nd.term[t]);
                t = t + 1;
                assert(matches@ =~= before + nd.term@.subrange(0, t as int));
            }
            assert(nd.term@.subrange(0, nd.term@.len() as int) =~= nd.term@);
            let d = nd.depth;
            if nd.subtree_signatures.len() == 1 {
                let p = nd.subtree_signatures[0];
                assert(nd.subtree_signatures@.contains(p));
                if self.leaf_matches(cur, p, &bytes, off) {
                    matches.push(p);
                    assert(matches@ =~= before + nd.term@.push(p));
                }
                break;
            }
            if off >= bytes.len() || d >= bytes.len() - off {
                break;
            }
            let x = bytes[off + d];
            match self.first_choice_of(cur, x) {
                None => {
                    break;
                },
                Some(k) => {
                    let p = nd.subtree_signatures[k];
                    assert(self.sigs@[p as int].bytes@.len() > d);
                    let c = self.sigs[p].bytes[d];
                    match nd.choices[c as usize] {
                        None => {
                            break;
                        },
                        Some(m) => {
                            assert(link(self.nodes@, cur as int, c as int, m as int));
                            assert(child_ok(self.nodes@, self.sigs@, cur as int, c as int, m as int));
                            assert(matches@ =~= before + nd.term@);
                            let ghost f = (fuel0 - d) as nat;
                            assert(f > 0);
                            assert(!(off + d >= bytes@.len()));
                            assert(nd.subtree_signatures@.len() != 1);
                            assert(first_choice(self.sigs@, nd.subtree_signatures@, d as int, bytes@[off + d], 0) == Some(k as int));
                            assert(nd.choices@[self.sigs@[nd.subtree_signatures@[k as int] as int].bytes@[d as int] as int] == Some(m));
                            assert(collect(self.nodes@, self.sigs@, bytes@, off as int, cur as int, f)
                                == nd.term@ + collect(self.nodes@, self.sigs@, bytes@, off as int, m as int, (f - 1) as nat));
                            assert(matches@ + collect(self.nodes@, self.sigs@, bytes@, off as int, m as int, (f - 1) as nat)
                                =~= before + collect(self.nodes@, self.sigs@, bytes@, off as int, cur as int, f));
                            cur = m;
                        },
                    }
                },
            }
        }
        proof {
            lemma_collect_in_range(self.nodes@, self.sigs@, bytes@, off as int, 0, fuel0);
        }
        let mut bi: usize = 0;
        let mut found = false;
        let mut j: usize = 0;
        while j < matches.len()
            invariant
                j <= matches@.len(),
                self.wf(),
                forall|q: int| 0 <= q < matches@.len() ==> #[trigger] matches@[q] < self.sigs@.len(),
                found == (best(self.sigs@, matches@, j as int) is Some),
                found ==> bi < j && best(self.sigs@, matches@, j as int) == Some(bi as int),
            decreases matches@.len() - j,
        {
            if !found || self.sigs[matches[j]].bytes.len() > self.sigs[matches[bi]].bytes.len() {
                bi = j;
                found = true;
            }
            j = j + 1;
        }
        if found {
            Some(self.sigs[matches[bi]].object.clone())
        } else {
            None
        }
    }

    /// Whether some signature of the tree matches `bytes` at `offset`, as
    /// `get_signature` finds it.
    pub fn is_signature(&self, bytes: Vec<u8>, offset: Option<i32>) -> (r: bool)
        requires
            self.wf(),
        ensures
            offset matches Some(o) && o < 0 ==> !r,
            !(offset matches Some(o) && o < 0) ==> r == (self.lookup(
                bytes@,
                match offset { Some(o) => o as int, None => 0 },
            ) is Some),
    {
        self.get_signature(bytes, offset).is_some()
    }
}

/// Whether `masks` is given with a length other than that of `bytes`.
pub open spec fn mask_mismatch(bytes: Seq<u8>, masks: Option<Vec<u8>>) -> bool {
    masks matches Some(m) && m@.len() != bytes.len()
}

/// The mask that a signature over `bytes` is registered with: the one given,
/// else all ones.
pub open spec fn mask_of(bytes: Seq<u8>, masks: Option<Vec<u8>>) -> Seq<u8> {
    match masks {
        Some(m) => m@,
        None => Seq::new(bytes.len(), |_j: int| 0xffu8),
    }
}

/// Whether two byte vectors hold the same bytes.
fn same_bytes(a: &Vec<u8>, b: &Vec<u8>) -> (r: bool)
    ensures
        r == (a@ == b@),
{
    if a.len() != b.len() {
        return false;
    }
    let mut i: usize = 0;
    while i < a.len()
        invariant
            i <= a@.len(),
            a@.len() == b@.len(),
            forall|j: int| 0 <= j < i ==> a@[j] == b@[j],
        decreases a@.len() - i,
    {
        if a[i] != b[i] {
            return false;
        }
        i = i + 1;
    }
    assert(a@ =~= b@);
    true
}

} // verus!
