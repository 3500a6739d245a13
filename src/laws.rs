use vstd::prelude::*;

use crate::node::{
    best, byte_matches, walk, child_ok, collect, first_choice, holds, lemma_collect_in_range, lemma_collect_starts_with_term, lemma_child_lists, lemma_lookup_model, lemma_root_lists, link,
    child_list, lookup_in, matches_at, root_list, matches_from, node_ok, placed, tree_ok, SignatureInfo, TreeNode,
};
use crate::tree::SignatureDecisionTree;

verus! {

/// Every two registered signatures agree on the mask at each position that both
/// have. Exact signatures, all of whose masks are all ones, are one such set.
///
/// Under this condition the first pending signature that agrees with a buffer
/// byte leads to the same child as any other that agrees; without it the walk
/// may take a branch that a longer match does not lie on.
pub open spec fn uniform_masks<T>(ss: Seq<SignatureInfo<T>>) -> bool {
    forall|i: int, j: int, k: int|
        0 <= i < ss.len() && 0 <= j < ss.len() && 0 <= k < ss[i].bytes@.len() && k
            < ss[j].bytes@.len() ==> #[trigger] ss[i].masks@[k] == #[trigger] ss[j].masks@[k]
}

/// Signature `s` agrees with `b` at `off` on its first `d` positions.
pub open spec fn prefix_matches<T>(s: SignatureInfo<T>, b: Seq<u8>, off: int, d: int) -> bool {
    forall|k: int| 0 <= k < d ==> #[trigger] byte_matches(s, b, off, k)
}

/// A position that `first_choice` gives lies in the list and passes its test.
proof fn lemma_first_choice_found<T>(
    ss: Seq<SignatureInfo<T>>,
    pend: Seq<usize>,
    depth: int,
    x: u8,
    k: int,
)
    ensures
        first_choice(ss, pend, depth, x, k) matches Some(j) ==> k <= j < pend.len() && (x
            & ss[pend[j] as int].masks@[depth]) == ss[pend[j] as int].bytes@[depth],
    decreases pend.len() - k,
{
    if 0 <= k < pend.len() {
        lemma_first_choice_found(ss, pend, depth, x, k + 1);
    }
}

/// Where some position from `k` on passes the test, `first_choice` finds one.
proof fn lemma_first_choice_exists<T>(
    ss: Seq<SignatureInfo<T>>,
    pend: Seq<usize>,
    depth: int,
    x: u8,
    k: int,
    j: int,
)
    requires
        0 <= k <= j < pend.len(),
        (x & ss[pend[j] as int].masks@[depth]) == ss[pend[j] as int].bytes@[depth],
    ensures
        first_choice(ss, pend, depth, x, k) is Some,
    decreases j - k,
{
    if k < j {
        lemma_first_choice_exists(ss, pend, depth, x, k + 1, j);
    }
}

/// `best` picks an entry no shorter than any other, and picks one exactly when
/// there are entries.
proof fn lemma_best<T>(ss: Seq<SignatureInfo<T>>, ms: Seq<usize>, k: int)
    requires
        0 <= k <= ms.len(),
    ensures
        best(ss, ms, k) is None <==> k == 0,
        best(ss, ms, k) matches Some(j) ==> 0 <= j < k && forall|q: int|
            0 <= q < k ==> ss[(#[trigger] ms[q]) as int].bytes@.len() <= ss[ms[j] as int].bytes@.len(),
    decreases k,
{
    if k > 0 {
        lemma_best(ss, ms, k - 1);
    }
}

/// Under uniform masks, every signature that the walk collects from a node
/// matches, given that every signature the node holds agrees with the buffer
/// up to the node's depth.
proof fn lemma_collect_sound<T>(
    ns: Seq<TreeNode>,
    ss: Seq<SignatureInfo<T>>,
    b: Seq<u8>,
    off: int,
    n: int,
    fuel: nat,
)
    requires
        tree_ok(ns, ss),
        uniform_masks(ss),
        0 <= n < ns.len(),
        forall|i: int| #[trigger] holds(ns[n], i) ==> prefix_matches(ss[i], b, off, ns[n].depth as int),
    ensures
        forall|q: int|
            0 <= q < collect(ns, ss, b, off, n, fuel).len() ==> matches_at(
                ss[#[trigger] collect(ns, ss, b, off, n, fuel)[q] as int],
                b,
                off,
            ),
    decreases fuel,
{
    let nd = ns[n];
    let d = nd.depth as int;
    let pend = nd.subtree_signatures@;
    let here = nd.term@;
    assert(node_ok(ns, ss, n));
    assert forall|q: int| 0 <= q < here.len() implies matches_at(ss[#[trigger] here[q] as int], b, off) by {
        let i = here[q] as int;
        assert(here.contains(here[q]));
        assert(holds(nd, i));
        assert forall|k: int| 0 <= k < ss[i].bytes@.len() implies #[trigger] byte_matches(ss[i], b, off, k) by {
            assert(prefix_matches(ss[i], b, off, d));
        }
    }
    if pend.len() == 1 {
        let i = pend[0] as int;
        assert(pend.contains(pend[0]));
        assert(holds(nd, i));
        if matches_from(ss[i], b, off, d) {
            assert forall|k: int| 0 <= k < ss[i].bytes@.len() implies #[trigger] byte_matches(ss[i], b, off, k) by {
                if k < d {
                    assert(prefix_matches(ss[i], b, off, d));
                }
            }
            assert forall|q: int| 0 <= q < here.push(pend[0]).len() implies matches_at(
                ss[#[trigger] here.push(pend[0])[q] as int],
                b,
                off,
            ) by {
                if q < here.len() {
                    assert(here.push(pend[0])[q] == here[q]);
                }
            }
        }
    } else if !(fuel == 0 || off + d >= b.len()) {
        let x = b[off + d];
        lemma_first_choice_found(ss, pend, d, x, 0);
        match first_choice(ss, pend, d, x, 0) {
            None => {},
            Some(k) => {
                let r = pend[k] as int;
                let c = ss[r].bytes@[d] as int;
                match nd.choices@[c] {
                    None => {},
                    Some(m) => {
                        assert(link(ns, n, c, m as int));
                        assert(child_ok(ns, ss, n, c, m as int));
                        assert(pend.contains(pend[k]));
                        assert forall|i: int| #[trigger] holds(ns[m as int], i) implies prefix_matches(
                            ss[i],
                            b,
                            off,
                            ns[m as int].depth as int,
                        ) by {
                            let mm = ns[m as int];
                            let w = if mm.subtree_signatures@.contains(i as usize) {
                                choose|w: int| 0 <= w < mm.subtree_signatures@.len() && mm.subtree_signatures@[w] == i as usize
                            } else {
                                choose|w: int| 0 <= w < mm.term@.len() && mm.term@[w] == i as usize
                            };
                            if mm.subtree_signatures@.contains(i as usize) {
                                assert(mm.subtree_signatures@[w] == i as usize);
                            } else {
                                assert(mm.term@[w] == i as usize);
                            }
                            assert(pend.contains(i as usize));
                            let v = choose|v: int| 0 <= v < pend.len() && pend[v] == i as usize;
                            assert(pend[v] == i as usize);
                            assert(holds(nd, i));
                            assert(prefix_matches(ss[i], b, off, d));
                            assert(ss[i].masks@[d] == ss[r].masks@[d]);
                            assert forall|k2: int| 0 <= k2 < d + 1 implies #[trigger] byte_matches(ss[i], b, off, k2) by {
                                if k2 < d {
                                    assert(byte_matches(ss[i], b, off, k2));
                                }
                            }
                        }
                        lemma_collect_sound(ns, ss, b, off, m as int, (fuel - 1) as nat);
                        let rest = collect(ns, ss, b, off, m as int, (fuel - 1) as nat);
                        assert(collect(ns, ss, b, off, n, fuel) == here + rest);
                        assert forall|q: int| 0 <= q < (here + rest).len() implies matches_at(
                            ss[#[trigger] (here + rest)[q] as int],
                            b,
                            off,
                        ) by {
                            if q < here.len() {
                                assert((here + rest)[q] == here[q]);
                            } else {
                                assert((here + rest)[q] == rest[q - here.len()]);
                            }
                        }
                    },
                }
            },
        }
    }
}

/// Under uniform masks, a matching signature that a node holds is collected by
/// the walk from that node, given fuel for the rest of the buffer.
proof fn lemma_collect_complete<T>(
    ns: Seq<TreeNode>,
    ss: Seq<SignatureInfo<T>>,
    b: Seq<u8>,
    off: int,
    n: int,
    fuel: nat,
    w: int,
)
    requires
        tree_ok(ns, ss),
        uniform_masks(ss),
        0 <= off,
        0 <= n < ns.len(),
        0 <= w < ss.len(),
        holds(ns[n], w),
        matches_at(ss[w], b, off),
        fuel + ns[n].depth >= b.len() + 1,
    ensures
        collect(ns, ss, b, off, n, fuel).contains(w as usize),
    decreases fuel,
{
    let nd = ns[n];
    let d = nd.depth as int;
    let pend = nd.subtree_signatures@;
    let here = nd.term@;
    assert(node_ok(ns, ss, n));
    if here.contains(w as usize) {
        let q = choose|q: int| 0 <= q < here.len() && here[q] == w as usize;
        lemma_collect_starts_with_term(ns, ss, b, off, n, fuel);
        assert(collect(ns, ss, b, off, n, fuel)[q] == here[q]);
    } else {
        assert(pend.contains(w as usize));
        let v = choose|v: int| 0 <= v < pend.len() && pend[v] == w as usize;
        assert(pend[v] == w as usize);
        if pend.len() == 1 {
            assert(v == 0);
            assert forall|k: int| d <= k < ss[w].bytes@.len() implies #[trigger] byte_matches(ss[w], b, off, k) by {}
            assert(here.push(pend[0])[here.len() as int] == w as usize);
        } else {
            assert(byte_matches(ss[w], b, off, d));
            let x = b[off + d];
            lemma_first_choice_exists(ss, pend, d, x, 0, v);
            lemma_first_choice_found(ss, pend, d, x, 0);
            let k = first_choice(ss, pend, d, x, 0)->0;
            let r = pend[k] as int;
            assert(ss[r].masks@[d] == ss[w].masks@[d]);
            let c = ss[r].bytes@[d] as int;
            assert(placed(ns, ss, n, pend[v] as int, -1, -1));
            let m = nd.choices@[c]->0 as int;
            assert(link(ns, n, c, m));
            assert(child_ok(ns, ss, n, c, m));
            lemma_collect_complete(ns, ss, b, off, m, (fuel - 1) as nat, w);
            let rest = collect(ns, ss, b, off, m, (fuel - 1) as nat);
            assert(collect(ns, ss, b, off, n, fuel) == here + rest);
            let q = choose|q: int| 0 <= q < rest.len() && rest[q] == w as usize;
            assert((here + rest)[here.len() + q] == w as usize);
        }
    }
}

/// Under uniform masks, the lookup finds exactly the matching signatures: it
/// returns one exactly when some registered signature matches, and the one it
/// returns matches and is at least as long as every other match.
proof fn lemma_lookup_exact<T>(ns: Seq<TreeNode>, ss: Seq<SignatureInfo<T>>, b: Seq<u8>, off: int)
    requires
        tree_ok(ns, ss),
        uniform_masks(ss),
        0 <= off,
    ensures
        lookup_in(ns, ss, b, off) is None ==> forall|j: int| 0 <= j < ss.len() ==> !#[trigger] matches_at(ss[j], b, off),
        lookup_in(ns, ss, b, off) matches Some(w) ==> 0 <= w < ss.len() && matches_at(ss[w], b, off)
            && forall|j: int|
            0 <= j < ss.len() && #[trigger] matches_at(ss[j], b, off) ==> ss[j].bytes@.len() <= ss[w].bytes@.len(),
{
    let fuel = (b.len() + 1) as nat;
    let ms = collect(ns, ss, b, off, 0, fuel);
    lemma_collect_in_range(ns, ss, b, off, 0, fuel);
    lemma_collect_sound(ns, ss, b, off, 0, fuel);
    lemma_best(ss, ms, ms.len() as int);
    assert forall|j: int| 0 <= j < ss.len() && #[trigger] matches_at(ss[j], b, off) implies ms.contains(j as usize) by {
        assert(holds(ns[0], j));
        lemma_collect_complete(ns, ss, b, off, 0, fuel, j);
    }
    match best(ss, ms, ms.len() as int) {
        None => {},
        Some(jj) => {
            assert(matches_at(ss[ms[jj] as int], b, off));
            assert forall|j: int| 0 <= j < ss.len() && #[trigger] matches_at(ss[j], b, off) implies ss[j].bytes@.len()
                <= ss[ms[jj] as int].bytes@.len() by {
                assert(ms.contains(j as usize));
                let q = choose|q: int| 0 <= q < ms.len() && ms[q] == j as usize;
                assert(ss[ms[q] as int].bytes@.len() <= ss[ms[jj] as int].bytes@.len());
            }
        },
    }
}

/// Longest match wins: where the registered signatures agree on their masks,
/// a lookup that finds a signature finds one that matches the buffer at the
/// offset, and no matching signature is longer.
pub proof fn lemma_longest_match_wins<T: Clone + Default>(
    t: &SignatureDecisionTree<T>,
    b: Seq<u8>,
    off: int,
)
    requires
        t.wf(),
        uniform_masks(t.signatures()),
        0 <= off,
    ensures
        t.lookup(b, off) matches Some(w) ==> 0 <= w < t.signatures().len() && matches_at(
            t.signatures()[w],
            b,
            off,
        ) && forall|j: int|
            0 <= j < t.signatures().len() && #[trigger] matches_at(t.signatures()[j], b, off)
                ==> t.signatures()[j].bytes@.len() <= t.signatures()[w].bytes@.len(),
{
    lemma_lookup_exact(t.nodes(), t.signatures(), b, off);
    lemma_lookup_model(t.nodes(), t.signatures(), b, off);
}

/// No match means no result: where the registered signatures agree on their
/// masks and none of them matches the buffer at the offset, a lookup finds
/// nothing.
pub proof fn lemma_no_match_empty<T: Clone + Default>(t: &SignatureDecisionTree<T>, b: Seq<u8>, off: int)
    requires
        t.wf(),
        uniform_masks(t.signatures()),
        0 <= off,
        forall|j: int| 0 <= j < t.signatures().len() ==> !#[trigger] matches_at(t.signatures()[j], b, off),
    ensures
        t.lookup(b, off) is None,
{
    lemma_lookup_exact(t.nodes(), t.signatures(), b, off);
    lemma_lookup_model(t.nodes(), t.signatures(), b, off);
}

/// Masked bytes match: where the registered signatures agree on their masks, a
/// signature each of whose bytes equals the buffer byte under its mask, whatever
/// the buffer's other bits, is found, or one at least as long as it.
pub proof fn lemma_masked_match<T: Clone + Default>(
    t: &SignatureDecisionTree<T>,
    b: Seq<u8>,
    off: int,
    w: int,
)
    requires
        t.wf(),
        uniform_masks(t.signatures()),
        0 <= off,
        0 <= w < t.signatures().len(),
        forall|k: int|
            0 <= k < t.signatures()[w].bytes@.len() ==> off + k < b.len() && (b[off + k]
                & t.signatures()[w].masks@[k]) == #[trigger] t.signatures()[w].bytes@[k],
    ensures
        t.lookup(b, off) matches Some(v) && t.signatures()[w].bytes@.len() <= t.signatures()[v].bytes@.len(),
{
    let s = t.signatures()[w];
    assert forall|k: int| 0 <= k < s.bytes@.len() implies #[trigger] byte_matches(s, b, off, k) by {
        let y = s.bytes@[k];
        assert(off + k < b.len() && (b[off + k] & s.masks@[k]) == y);
    }
    assert(matches_at(s, b, off));
    lemma_lookup_exact(t.nodes(), t.signatures(), b, off);
    lemma_lookup_model(t.nodes(), t.signatures(), b, off);
}

/// Masking, exactly, for a tree of one signature: a lookup returns it precisely
/// when each of its bytes equals the buffer byte under its mask, whatever the
/// buffer's bits outside the mask, and returns nothing otherwise.
pub proof fn lemma_single_signature<T: Clone + Default>(t: &SignatureDecisionTree<T>, b: Seq<u8>, off: int)
    requires
        t.wf(),
        t.signatures().len() == 1,
        0 <= off,
    ensures
        t.lookup(b, off) == (if matches_at(t.signatures()[0], b, off) {
            Some(0int)
        } else {
            None::<int>
        }),
{
    let ss = t.signatures();
    assert(uniform_masks(ss));
    lemma_lookup_exact(t.nodes(), ss, b, off);
    lemma_lookup_model(t.nodes(), ss, b, off);
}

/// The walk reads the buffer only from the offset on.
proof fn lemma_walk_shift<T>(
    ss: Seq<SignatureInfo<T>>,
    pend: Seq<usize>,
    here: Seq<usize>,
    d: int,
    b: Seq<u8>,
    off: int,
    f1: nat,
    f2: nat,
)
    requires
        0 <= off <= b.len(),
        0 <= d,
        f1 + d >= b.len() - off + 1,
        f2 + d >= b.len() - off + 1,
    ensures
        walk(ss, pend, here, d, b, off, f1) == walk(ss, pend, here, d, b.subrange(off, b.len() as int), 0, f2),
    decreases f1,
{
    let b2 = b.subrange(off, b.len() as int);
    if pend.len() == 1 {
        let sg = ss[pend[0] as int];
        assert forall|i: int| 0 <= i implies (#[trigger] byte_matches(sg, b, off, i) <==> byte_matches(sg, b2, 0, i)) by {
            if 0 <= i < b2.len() {
                assert(b2[i] == b[off + i]);
            }
        }
        if matches_from(sg, b, off, d) {
            assert forall|i: int| d <= i < sg.bytes@.len() implies #[trigger] byte_matches(sg, b2, 0, i) by {
                assert(byte_matches(sg, b, off, i));
            }
        }
        if matches_from(sg, b2, 0, d) {
            assert forall|i: int| d <= i < sg.bytes@.len() implies #[trigger] byte_matches(sg, b, off, i) by {
                assert(byte_matches(sg, b2, 0, i));
            }
        }
    } else if off + d < b.len() {
        assert(b2[d] == b[off + d]);
        match first_choice(ss, pend, d, b[off + d], 0) {
            None => {},
            Some(k) => {
                let c = ss[pend[k] as int].bytes@[d];
                lemma_walk_shift(
                    ss,
                    child_list(ss, pend, d, c, true),
                    child_list(ss, pend, d, c, false),
                    d + 1,
                    b,
                    off,
                    (f1 - 1) as nat,
                    (f2 - 1) as nat,
                );
            },
        }
    }
}

/// Shifting the offset into the buffer: a lookup at `off` gives what a lookup
/// at 0 gives on the buffer with its first `off` bytes dropped.
pub proof fn lemma_offset_shift<T: Clone + Default>(t: &SignatureDecisionTree<T>, b: Seq<u8>, off: int)
    requires
        0 <= off <= b.len(),
    ensures
        t.lookup(b, off) == t.lookup(b.subrange(off, b.len() as int), 0),
{
    let ss = t.signatures();
    lemma_walk_shift(
        ss,
        root_list(ss, true),
        root_list(ss, false),
        0,
        b,
        off,
        (b.len() + 1) as nat,
        (b.len() - off + 1) as nat,
    );
}

/// The tree's shape is fixed by the registered signatures: the root lists
/// exactly the non-empty signatures as pending and the empty ones as consumed,
/// each list in order of registration, and the child of a branching node for
/// byte `c` lists exactly the node's pending signatures with byte `c` at the
/// node's depth, split in the same way by whether they go on past the child.
pub proof fn lemma_shape_from_signatures<T: Clone + Default>(t: &SignatureDecisionTree<T>, n: int, c: u8, m: int)
    requires
        t.wf(),
    ensures
        t.nodes()[0].subtree_signatures@ == root_list(t.signatures(), true),
        t.nodes()[0].term@ == root_list(t.signatures(), false),
        link(t.nodes(), n, c as int, m) && t.nodes()[n].subtree_signatures@.len() >= 2 ==> {
            let pend = t.nodes()[n].subtree_signatures@;
            let d = t.nodes()[n].depth as int;
            &&& t.nodes()[m].subtree_signatures@ == child_list(t.signatures(), pend, d, c, true)
            &&& t.nodes()[m].term@ == child_list(t.signatures(), pend, d, c, false)
        },
{
    lemma_root_lists(t.nodes(), t.signatures());
    if link(t.nodes(), n, c as int, m) && t.nodes()[n].subtree_signatures@.len() >= 2 {
        lemma_child_lists(t.nodes(), t.signatures(), n, c, m);
    }
}

} // verus!
