//! Fixed-arity trees with constant-auxiliary-space depth-first traversal.
//!
//! A tree is built from owned [`Node`] values and then flattened into an
//! arena in post-order, so that every subtree owns a contiguous range of
//! handles with its root on top. The traversal machinery ([`NodeIter`])
//! walks the arena with two cursors only, temporarily repurposing child
//! slots as tagged back-links and restoring them on the way back up.

use vstd::prelude::*;

use crate::order::{arena_wf, full_ord, kids_wf, ord, ords_range, rest_of, sub_wf, suffix_ord, int_range, pick, lemma_pick_concat, lemma_pick_stable, lemma_frame_sub, lemma_split_range, lemma_cancel_right, lemma_post_identity, lemma_kid_bounds_sub, lemma_suffix_step, lemma_suffix_end, lemma_skip_head};
use crate::tagged_ptr::{handle, TaggedPtr};

verus! {

/// An owned tree node under construction: a value and exactly `N`
/// optional children.
pub struct Node<T, const N: usize> {
    pub val: T,
    pub children: Vec<Option<Box<Node<T, N>>>>,
}

/// Are all child lists below `kids[j..]` exactly `N` long?
pub open spec fn nwf_kids<T, const N: usize>(kids: Seq<Option<Box<Node<T, N>>>>, j: int) -> bool
    decreases kids, kids.len() - j,
{
    if j < 0 || j >= kids.len() {
        true
    } else {
        (match kids[j] {
            None => true,
            Some(c) => c.nwf(),
        }) && nwf_kids(kids, j + 1)
    }
}

/// The values of the children `i .. j` in `ra`-order, concatenated.
pub open spec fn ovals_kids<T, const N: usize>(kids: Seq<Option<Box<Node<T, N>>>>, i: int, j: int, ra: int) -> Seq<T>
    decreases kids, j - i,
{
    if i >= j || i < 0 || j > kids.len() {
        Seq::empty()
    } else {
        (match kids[i] {
            None => Seq::<T>::empty(),
            Some(c) => c.ovals(ra),
        }) + ovals_kids(kids, i + 1, j, ra)
    }
}

impl<T, const N: usize> Node<T, N> {
    /// Does every node of this subtree have exactly `N` child slots?
    pub open spec fn nwf(self) -> bool
        decreases self, 0int,
    {
        self.children@.len() == N && nwf_kids(self.children@, 0)
    }

    /// The value sequence of this subtree in `ra`-order: the node's own
    /// value is listed after its first `ra` children's subtrees.
    pub open spec fn ovals(self, ra: int) -> Seq<T>
        decreases self, 0int,
    {
        let n = self.children@.len() as int;
        let m = if ra <= n { ra } else { n };
        ovals_kids(self.children@, 0, m, ra) + seq![self.val] + ovals_kids(self.children@, m, n, ra)
    }

    /// The number of nodes in this subtree.
    pub open spec fn count(self) -> int {
        self.ovals(0).len() as int
    }

    /// Allocates one owned node from a value and its `N` children.
    pub fn boxed(val: T, children: Vec<Option<Box<Node<T, N>>>>) -> (r: Box<Node<T, N>>)
        requires
            children@.len() == N,
        ensures
            r.val == val,
            r.children == children,
    {
        Box::new(Node { val, children })
    }
}

/// Splitting a child range splits its concatenated `ra`-order values.
pub proof fn lemma_ovals_kids_split<T, const N: usize>(kids: Seq<Option<Box<Node<T, N>>>>, i: int, m: int, j: int, ra: int)
    requires
        0 <= i <= m <= j <= kids.len(),
    ensures
        ovals_kids(kids, i, j, ra) == ovals_kids(kids, i, m, ra) + ovals_kids(kids, m, j, ra),
    decreases m - i,
{
    if i >= m {
        assert(ovals_kids(kids, i, m, ra) == Seq::<T>::empty());
        assert(ovals_kids(kids, i, m, ra) + ovals_kids(kids, m, j, ra) =~= ovals_kids(kids, m, j, ra));
    } else {
        lemma_ovals_kids_split(kids, i + 1, m, j, ra);
        let head = match kids[i] {
            None => Seq::<T>::empty(),
            Some(c) => c.ovals(ra),
        };
        assert(ovals_kids(kids, i, j, ra) == head + (ovals_kids(kids, i + 1, m, ra) + ovals_kids(kids, m, j, ra)));
        assert(head + (ovals_kids(kids, i + 1, m, ra) + ovals_kids(kids, m, j, ra))
            =~= (head + ovals_kids(kids, i + 1, m, ra)) + ovals_kids(kids, m, j, ra));
    }
}

/// The child-handle rows of an arena, extracted from its tagged slots.
pub open spec fn kview(s: Seq<Seq<TaggedPtr>>) -> Seq<Seq<Option<int>>> {
    s.map_values(|rw: Seq<TaggedPtr>| rw.map_values(|tp: TaggedPtr| tp.tgt()))
}

/// The views of a sequence of slot rows.
spec fn sview(s: Seq<Vec<TaggedPtr>>) -> Seq<Seq<TaggedPtr>> {
    s.map_values(|rw: Vec<TaggedPtr>| rw@)
}

/// What a post-order flattening records about the `t`-th child of the
/// node it is laying out: the handle row mirrors the child's presence,
/// the boundaries `bs` delimit the handle range the child's subtree owns,
/// and the arena's order values there read off the child's model values.
spec fn kid_fact<T, const N: usize>(
    kv: Seq<Seq<Option<int>>>,
    vs: Seq<T>,
    ck: Seq<Option<Box<Node<T, N>>>>,
    hs: Seq<Option<usize>>,
    bs: Seq<int>,
    t: int,
) -> bool {
    &&& (hs[t] is Some <==> ck[t] is Some)
    &&& (hs[t] is None ==> bs[t + 1] == bs[t])
    &&& (hs[t] matches Some(h) ==> ck[t] matches Some(nd) && h as int == bs[t + 1] - 1
        && sub_wf(kv, h as int, bs[t])
        && forall|ra: int| 0 <= ra <= N ==> pick(vs, ord(kv, h as int, ra)) == nd.ovals(ra))
}

/// Assembles the per-child facts gathered left to right during a
/// post-order flattening into the well-formedness of the parent's child
/// row and the correspondence of the children's concatenated order
/// values with the model's.
proof fn lemma_assemble<T, const N: usize>(
    ok: Seq<Seq<Option<int>>>,
    vs: Seq<T>,
    r: int,
    bs: Seq<int>,
    ck: Seq<Option<Box<Node<T, N>>>>,
    hs: Seq<Option<usize>>,
    j: int,
    ra: int,
)
    requires
        0 <= ra <= N,
        0 <= j <= N,
        bs.len() == N + 1,
        ck.len() == N,
        hs.len() == N,
        0 <= r < ok.len(),
        ok[r].len() == N,
        bs[N as int] == r,
        forall|t: int| 0 <= t < N + 1 ==> 0 <= #[trigger] bs[t],
        forall|t: int| 0 <= t < N ==> #[trigger] ok[r][t] == handle(hs[t]),
        forall|t: int| 0 <= t < N ==> kid_fact(ok, vs, ck, hs, bs, t),
    ensures
        bs[j] <= r,
        kids_wf(ok, ok[r], j, bs[j], r),
        pick(vs, ords_range(ok, r, j, N as int, ra)) == ovals_kids(ck, j, N as int, ra),
    decreases N - j,
{
    let nn = N as int;
    if j == nn {
        assert(pick(vs, ords_range(ok, r, j, nn, ra)) =~= ovals_kids(ck, j, nn, ra));
    } else {
        lemma_assemble(ok, vs, r, bs, ck, hs, j + 1, ra);
        assert(kid_fact(ok, vs, ck, hs, bs, j));
        match hs[j] {
            None => {
                assert(ok[r][j] is None);
                assert(ck[j] is None);
                assert(ords_range(ok, r, j, nn, ra) == Seq::<int>::empty() + ords_range(ok, r, j + 1, nn, ra));
                lemma_pick_concat(vs, Seq::<int>::empty(), ords_range(ok, r, j + 1, nn, ra));
                assert(pick(vs, Seq::<int>::empty()) =~= Seq::<T>::empty());
                assert(Seq::<T>::empty() + pick(vs, ords_range(ok, r, j + 1, nn, ra))
                    =~= pick(vs, ords_range(ok, r, j + 1, nn, ra)));
                assert(ovals_kids(ck, j, nn, ra) == Seq::<T>::empty() + ovals_kids(ck, j + 1, nn, ra));
                assert(Seq::<T>::empty() + ovals_kids(ck, j + 1, nn, ra) =~= ovals_kids(ck, j + 1, nn, ra));
            },
            Some(h) => {
                let c = h as int;
                assert(ok[r][j] == Some(c));
                assert(c == bs[j + 1] - 1);
                assert(sub_wf(ok, c, bs[j]));
                assert(bs[j] <= c);
                assert(c < r);
                assert(kids_wf(ok, ok[r], j + 1, c + 1, r));
                assert(ords_range(ok, r, j, nn, ra) == ord(ok, c, ra) + ords_range(ok, r, j + 1, nn, ra));
                lemma_pick_concat(vs, ord(ok, c, ra), ords_range(ok, r, j + 1, nn, ra));
                let nd = ck[j]->Some_0;
                assert(pick(vs, ord(ok, c, ra)) == nd.ovals(ra));
                assert(ovals_kids(ck, j, nn, ra) == nd.ovals(ra) + ovals_kids(ck, j + 1, nn, ra));
            },
        }
    }
}

/// Lays the subtree under `n` out in the arena in post-order: children
/// first, left to right, then the node itself on top. Returns the new
/// node's handle; all earlier arena entries are left untouched.
#[verifier::loop_isolation(false)]
fn flatten<T, const N: usize>(n: Box<Node<T, N>>, vals: &mut Vec<T>, slots: &mut Vec<Vec<TaggedPtr>>) -> (r: usize)
    requires
        n.nwf(),
        old(vals)@.len() == old(slots)@.len(),
    ensures
        final(vals)@ == old(vals)@ + n.ovals(N as int),
        final(slots)@.len() == final(vals)@.len(),
        final(slots)@.subrange(0, old(slots)@.len() as int) == old(slots)@,
        forall|v: int| old(slots)@.len() <= v < final(slots)@.len()
            ==> (#[trigger] sview(final(slots)@)[v]).len() == N
                && forall|i: int| 0 <= i < N ==> !sview(final(slots)@)[v][i].seen_bit(),
        r as int == final(vals)@.len() - 1,
        sub_wf(kview(sview(final(slots)@)), r as int, old(vals)@.len() as int),
        forall|ra: int| 0 <= ra <= N
            ==> pick(final(vals)@, ord(kview(sview(final(slots)@)), r as int, ra)) == n.ovals(ra),
    decreases n,
{
    let ghost n0 = *n;
    let ghost lo = vals@.len() as int;
    let ghost vals0 = vals@;
    let ghost slots0 = slots@;
    let nb = *n;
    let val = nb.val;
    let mut children = nb.children;
    let ghost ck = n0.children@;
    let mut kid_handles: Vec<Option<usize>> = Vec::new();
    let ghost mut bs: Seq<int> = seq![lo];
    proof {
        assert(ck.skip(0) =~= ck);
    }
    while children.len() > 0
        invariant
            ck.len() == N,
            nwf_kids(ck, kid_handles@.len() as int),
            children@ == ck.skip(kid_handles@.len() as int),
            kid_handles@.len() + children@.len() == N,
            bs.len() == kid_handles@.len() + 1,
            bs[0] == lo,
            0 <= lo,
            bs.last() == vals@.len(),
            forall|t: int| 0 <= t < bs.len() - 1 ==> #[trigger] bs[t] <= bs[t + 1],
            forall|t: int| 0 <= t < bs.len() ==> lo <= #[trigger] bs[t],
            vals@.len() == slots@.len(),
            vals0.len() == slots0.len(),
            vals0.len() == lo,
            slots@.subrange(0, lo) == slots0,
            vals@ == vals0 + ovals_kids(ck, 0, kid_handles@.len() as int, N as int),
            forall|v: int| lo <= v < slots@.len()
                ==> (#[trigger] sview(slots@)[v]).len() == N
                    && forall|i: int| 0 <= i < N ==> !sview(slots@)[v][i].seen_bit(),
            forall|t: int| 0 <= t < kid_handles@.len()
                ==> kid_fact(kview(sview(slots@)), vals@, ck, kid_handles@, bs, t),
        decreases children@.len(),
    {
        let ghost j = kid_handles@.len() as int;
        let ghost hs0 = kid_handles@;
        let ghost bs0 = bs;
        let kid = children.remove(0);
        proof {
            assert(0 <= j < N as int);
            assert(ck.skip(j)[0] == ck[j]);
            assert(ck.skip(j).remove(0) =~= ck.skip(j + 1));
        }
        match kid {
            None => {
                kid_handles.push(None);
                proof {
                    assert(ck[j] is None);
                    bs = bs0.push(bs0.last());
                    assert(kid_handles@ == hs0.push(None));
                    lemma_ovals_kids_split(ck, 0, j, j + 1, N as int);
                    assert(ovals_kids(ck, j + 1, j + 1, N as int) =~= Seq::<T>::empty());
                    assert(ovals_kids(ck, j, j + 1, N as int) =~= Seq::<T>::empty());
                    assert(ovals_kids(ck, 0, j, N as int) + Seq::<T>::empty()
                        =~= ovals_kids(ck, 0, j, N as int));
                    assert(vals@ == vals0 + ovals_kids(ck, 0, j + 1, N as int));
                    assert forall|t: int| 0 <= t < j + 1
                        implies kid_fact(kview(sview(slots@)), vals@, ck, kid_handles@, bs, t) by {
                        if t < j {
                            assert(kid_fact(kview(sview(slots@)), vals@, ck, hs0, bs0, t));
                            assert(kid_handles@[t] == hs0[t]);
                            assert(bs[t] == bs0[t]);
                            assert(bs[t + 1] == bs0[t + 1]);
                        } else {
                            assert(kid_handles@[t] is None);
                            assert(bs[t + 1] == bs[t]);
                        }
                    }
                }
            },
            Some(bx) => {
                proof {
                    assert(ck[j] == Some(bx));
                    assert(nwf_kids(ck, j));
                    assert(bx.nwf());
                    assert(decreases_to!(n => n0.children));
                    assert(decreases_to!(n0.children => n0.children@));
                    assert(0 <= j < n0.children@.len());
                    assert(decreases_to!(n0.children@ => n0.children@[j]));
                    assert(n0.children@[j] == Some(bx));
                    assert(decreases_to!(n0.children@[j] => bx));
                }
                let ghost kv1 = kview(sview(slots@));
                let ghost vs1 = vals@;
                let ghost sl1 = slots@;
                let h = flatten(bx, vals, slots);
                kid_handles.push(Some(h));
                proof {
                    let kv2 = kview(sview(slots@));
                    let vs2 = vals@;
                    assert(kid_handles@ == hs0.push(Some(h)));
                    bs = bs0.push(vs2.len() as int);
                    assert(bx.ovals(N as int).len() >= 1);
                    assert forall|v: int| 0 <= v < vs1.len() implies kv2[v] == kv1[v] by {
                        assert(slots@.subrange(0, vs1.len() as int)[v] == slots@[v]);
                    }
                    assert forall|v: int| 0 <= v < vs1.len() implies vs2[v] == vs1[v] by {
                        assert((vs1 + bx.ovals(N as int))[v] == vs1[v]);
                    }
                    assert forall|v: int| 0 <= v < lo implies slots@.subrange(0, lo)[v] == slots0[v] by {
                        assert(slots@.subrange(0, vs1.len() as int)[v] == slots@[v]);
                    }
                    assert(slots@.subrange(0, lo) =~= slots0);
                    assert forall|v: int| lo <= v < slots@.len()
                        implies (#[trigger] sview(slots@)[v]).len() == N
                            && forall|i: int| 0 <= i < N ==> !sview(slots@)[v][i].seen_bit() by {
                        if v < sl1.len() {
                            assert(slots@.subrange(0, sl1.len() as int)[v] == slots@[v]);
                            assert(slots@[v] == sl1[v]);
                            assert(sview(slots@)[v] == sview(sl1)[v]);
                            assert(sview(sl1)[v].len() == N);
                        }
                    }
                    // earlier children keep their facts: their ranges are
                    // untouched by the appended entries
                    assert forall|t: int| 0 <= t < j + 1
                        implies kid_fact(kv2, vs2, ck, kid_handles@, bs, t) by {
                        assert(kid_handles@[t] == hs0.push(Some(h))[t]);
                        assert(bs[t] == bs0.push(vs2.len() as int)[t]);
                        assert(bs[t + 1] == bs0.push(vs2.len() as int)[t + 1]);
                        if t < j {
                            assert(kid_fact(kv1, vs1, ck, hs0, bs0, t));
                            assert(kid_handles@[t] == hs0[t]);
                            assert(bs[t] == bs0[t]);
                            assert(bs[t + 1] == bs0[t + 1]);
                            match hs0[t] {
                                None => {},
                                Some(ht) => {
                                    let c = ht as int;
                                    assert(bs0[t + 1] <= bs0[j]);
                                    lemma_frame_sub(kv1, kv2, c, bs0[t], 0);
                                    assert forall|ra: int| 0 <= ra <= N
                                        implies pick(vs2, ord(kv2, c, ra)) == (ck[t]->Some_0).ovals(ra) by {
                                        lemma_frame_sub(kv1, kv2, c, bs0[t], ra);
                                        lemma_pick_stable(vs1, vs2, ord(kv1, c, ra), bs0[t], c);
                                    }
                                },
                            }
                        } else {
                            assert(kid_handles@[t] == Some(h));
                            assert(sub_wf(kv2, h as int, vs1.len() as int));
                            assert(bs[t] == bs0[j]);
                            assert(bs0[j] == vs1.len());
                        }
                    }
                    lemma_ovals_kids_split(ck, 0, j, j + 1, N as int);
                    assert(ovals_kids(ck, j + 1, j + 1, N as int) =~= Seq::<T>::empty());
                    assert(ovals_kids(ck, j, j + 1, N as int) == bx.ovals(N as int) + ovals_kids(ck, j + 1, j + 1, N as int));
                    assert(bx.ovals(N as int) + Seq::<T>::empty() =~= bx.ovals(N as int));
                    assert((vals0 + ovals_kids(ck, 0, j, N as int)) + bx.ovals(N as int)
                        =~= vals0 + (ovals_kids(ck, 0, j, N as int) + bx.ovals(N as int)));
                    assert(vals@ == vals0 + ovals_kids(ck, 0, j + 1, N as int));
                }
            },
        }
    }
    let ghost j_end = kid_handles@.len() as int;
    let ghost valsa = vals@;
    let ghost slotsa = slots@;
    proof {
        assert(j_end == N);
    }
    let idx = vals.len();
    vals.push(val);
    let mut row: Vec<TaggedPtr> = Vec::new();
    let mut t: usize = 0;
    while t < kid_handles.len()
        invariant
            t <= kid_handles@.len(),
            kid_handles@.len() == N,
            row@.len() == t,
            forall|u: int| 0 <= u < t
                ==> (#[trigger] row@[u]).tgt() == handle(kid_handles@[u]) && !row@[u].seen_bit(),
        decreases kid_handles@.len() - t,
    {
        row.push(TaggedPtr::from_untagged(kid_handles[t]));
        t = t + 1;
    }
    slots.push(row);
    proof {
        let kvb = kview(sview(slotsa));
        let vsb = valsa;
        let kv_f = kview(sview(slots@));
        let vs_f = vals@;
        let r = idx as int;
        let hrow = Seq::new(N as nat, |t: int| handle(kid_handles@[t]));
        assert(vals@ == valsa.push(val));
        assert(slots@ == slotsa.push(row));
        assert(r == valsa.len());
        assert(sview(slots@)[r] == row@);
        assert(kv_f[r] =~= hrow);
        assert forall|v: int| 0 <= v < r implies kv_f[v] == kvb[v] && vs_f[v] == vsb[v] by {
            assert(slots@[v] == slotsa[v]);
            assert(vals@[v] == valsa[v]);
        }
        assert forall|v: int| 0 <= v < lo implies slots@.subrange(0, lo)[v] == slots0[v] by {
            assert(slotsa.subrange(0, lo)[v] == slotsa[v]);
        }
        assert(slots@.subrange(0, lo) =~= slots0);
        // lift the per-child facts to the arena with the parent entry added
        assert forall|tt: int| 0 <= tt < N
            implies kid_fact(kv_f, vs_f, ck, kid_handles@, bs, tt) by {
            assert(kid_fact(kvb, vsb, ck, kid_handles@, bs, tt));
            match kid_handles@[tt] {
                None => {},
                Some(ht) => {
                    let c = ht as int;
                    assert(bs[tt + 1] <= bs[N as int]);
                    lemma_frame_sub(kvb, kv_f, c, bs[tt], 0);
                    assert forall|ra: int| 0 <= ra <= N
                        implies pick(vs_f, ord(kv_f, c, ra)) == (ck[tt]->Some_0).ovals(ra) by {
                        lemma_frame_sub(kvb, kv_f, c, bs[tt], ra);
                        lemma_pick_stable(vsb, vs_f, ord(kvb, c, ra), bs[tt], c);
                    }
                },
            }
        }
        assert forall|ra: int| 0 <= ra <= N
            implies pick(vs_f, ord(kv_f, r, ra)) == n0.ovals(ra) by {
            let nn = N as int;
            let m = if ra <= nn { ra } else { nn };
            lemma_assemble(kv_f, vs_f, r, bs, ck, kid_handles@, 0, ra);
            lemma_assemble(kv_f, vs_f, r, bs, ck, kid_handles@, m, ra);
            lemma_split_range(kv_f, r, 0, m, nn, ra);
            lemma_ovals_kids_split(ck, 0, m, nn, ra);
            lemma_pick_concat(vs_f, ords_range(kv_f, r, 0, m, ra), ords_range(kv_f, r, m, nn, ra));
            lemma_cancel_right(
                pick(vs_f, ords_range(kv_f, r, 0, m, ra)),
                pick(vs_f, ords_range(kv_f, r, m, nn, ra)),
                ovals_kids(ck, 0, m, ra),
                ovals_kids(ck, m, nn, ra),
            );
            assert(ord(kv_f, r, ra) == ords_range(kv_f, r, 0, m, ra) + seq![r] + ords_range(kv_f, r, m, nn, ra));
            lemma_pick_concat(vs_f, ords_range(kv_f, r, 0, m, ra) + seq![r], ords_range(kv_f, r, m, nn, ra));
            lemma_pick_concat(vs_f, ords_range(kv_f, r, 0, m, ra), seq![r]);
            assert(pick(vs_f, seq![r]) =~= seq![val]);
            assert(n0.ovals(ra) == ovals_kids(ck, 0, m, ra) + seq![val] + ovals_kids(ck, m, nn, ra));
        }
        lemma_assemble(kv_f, vs_f, r, bs, ck, kid_handles@, 0, 0);
        assert(sub_wf(kv_f, r, lo));
        // the appended values are the post-order values of the subtree
        assert(n0.ovals(N as int) == ovals_kids(ck, 0, N as int, N as int) + seq![val]
            + ovals_kids(ck, N as int, N as int, N as int));
        assert(ovals_kids(ck, N as int, N as int, N as int) =~= Seq::<T>::empty());
        assert((ovals_kids(ck, 0, N as int, N as int) + seq![val]) + Seq::<T>::empty()
            =~= ovals_kids(ck, 0, N as int, N as int) + seq![val]);
        assert(vals@ =~= (vals0 + ovals_kids(ck, 0, N as int, N as int)) + seq![val]);
        assert((vals0 + ovals_kids(ck, 0, N as int, N as int)) + seq![val]
            =~= vals0 + (ovals_kids(ck, 0, N as int, N as int) + seq![val]));
        assert(vals@ == vals0 + n0.ovals(N as int));
        assert forall|v: int| lo <= v < slots@.len()
            implies (#[trigger] sview(slots@)[v]).len() == N
                && forall|i: int| 0 <= i < N ==> !sview(slots@)[v][i].seen_bit() by {
            if v < r {
                assert(slots@[v] == slotsa[v]);
                assert(sview(slots@)[v] == sview(slotsa)[v]);
            } else {
                assert(sview(slots@)[v] == row@);
            }
        }
    }
    idx
}

/// A fixed-arity tree: an arena of values and tagged child slots, plus a
/// root handle. Between traversals every slot is untagged and holds a
/// genuine child handle; each subtree owns the contiguous handle range
/// ending at its root, as post-order construction lays it out.
pub struct Tree<T, const N: usize> {
    vals: Vec<T>,
    slots: Vec<Vec<TaggedPtr>>,
    root: Option<usize>,
}

impl<T, const N: usize> Tree<T, N> {
    /// The node values, by handle.
    pub closed spec fn val_seq(self) -> Seq<T> {
        self.vals@
    }

    /// The tagged child slots, by handle.
    pub closed spec fn slot_seq(self) -> Seq<Seq<TaggedPtr>> {
        self.slots@.map_values(|rw: Vec<TaggedPtr>| rw@)
    }

    /// The child handles, by handle, ignoring tags.
    pub open spec fn kid_seq(self) -> Seq<Seq<Option<int>>> {
        kview(self.slot_seq())
    }

    /// The root handle.
    pub closed spec fn root_handle(self) -> Option<int> {
        handle(self.root)
    }

    /// The number of nodes.
    pub open spec fn size(self) -> int {
        self.val_seq().len() as int
    }

    /// Every node has `N` child slots.
    pub open spec fn rows_ok(self) -> bool {
        &&& self.slot_seq().len() == self.val_seq().len()
        &&& forall|v: int| 0 <= v < self.size() ==> (#[trigger] self.slot_seq()[v]).len() == N
    }

    /// Every slot's tag is clear.
    pub open spec fn clean(self) -> bool {
        forall|v: int, i: int|
            0 <= v < self.slot_seq().len() && 0 <= i < self.slot_seq()[v].len()
                ==> !(#[trigger] self.slot_seq()[v][i]).seen_bit()
    }

    /// No traversal is in progress: all tags clear and the slots encode a
    /// well-formed tree owning the whole arena.
    pub open spec fn at_rest(self) -> bool {
        &&& self.rows_ok()
        &&& self.clean()
        &&& arena_wf(self.kid_seq(), self.root_handle())
    }

    /// The handle sequence of the `ra`-order traversal of this tree.
    pub open spec fn order(self, ra: int) -> Seq<int> {
        full_ord(self.kid_seq(), self.root_handle(), ra)
    }

    /// The value sequence of the `ra`-order traversal of this tree.
    pub open spec fn order_vals(self, ra: int) -> Seq<T> {
        pick(self.val_seq(), self.order(ra))
    }

    /// Builds a tree from an owned root (or none), laying the nodes out
    /// in an arena. Every traversal order of the result reads off the
    /// corresponding value order of the given root.
    pub fn new(root: Option<Box<Node<T, N>>>) -> (t: Tree<T, N>)
        requires
            root matches Some(n) ==> n.nwf(),
        ensures
            t.at_rest(),
            forall|ra: int| 0 <= ra <= N
                ==> t.order_vals(ra) == (match root {
                    None => Seq::<T>::empty(),
                    Some(n) => n.ovals(ra),
                }),
    {
        match root {
            None => {
                let t = Tree { vals: Vec::new(), slots: Vec::new(), root: None };
                proof {
                    assert(t.slot_seq() =~= Seq::<Seq<TaggedPtr>>::empty());
                }
                t
            },
            Some(n) => {
                let ghost n0 = *n;
                let mut vals: Vec<T> = Vec::new();
                let mut slots: Vec<Vec<TaggedPtr>> = Vec::new();
                proof {
                    assert(vals@ =~= Seq::<T>::empty());
                    assert(slots@.map_values(|rw: Vec<TaggedPtr>| rw@) =~= Seq::<Seq<TaggedPtr>>::empty());
                }
                let r = flatten(n, &mut vals, &mut slots);
                let t = Tree { vals, slots, root: Some(r) };
                proof {
                    assert(t.val_seq() =~= Seq::<T>::empty() + t.val_seq());
                    assert forall|ra: int| 0 <= ra <= N
                        implies t.order_vals(ra) == n0.ovals(ra) by {
                        assert(pick(t.val_seq(), ord(t.kid_seq(), r as int, ra)) == n0.ovals(ra));
                    }
                }
                t
            },
        }
    }
}

/// Do all child handles in `ok` point strictly below their parent?
spec fn kid_bounds<const N: usize>(ok: Seq<Seq<Option<int>>>) -> bool {
    forall|v: int, i: int| 0 <= v < ok.len() && 0 <= i < N && (#[trigger] ok[v][i]) is Some
        ==> 0 <= ok[v][i]->Some_0 < v
}

/// The shape of one node on the descent chain, mid-traversal: `ks[j]` of
/// its slots are converted. Slot 0 holds the back-link to its parent (or
/// none, at the root); slot `i` of the other converted slots holds the
/// original child `i - 1` — the ascent's shift relies on exactly this
/// layout; the unconverted slots still hold their original children,
/// untagged.
spec fn chain_node_ok<const N: usize>(
    ok: Seq<Seq<Option<int>>>,
    s: Seq<Seq<TaggedPtr>>,
    root: Option<int>,
    ch: Seq<int>,
    ks: Seq<int>,
    j: int,
) -> bool {
    let c = ch[j];
    &&& 0 <= c < ok.len()
    &&& 1 <= ks[j] <= N
    &&& (j == 0 ==> root == Some(c))
    &&& (j + 1 < ch.len() ==> ok[c][ks[j] - 1] == Some(ch[j + 1]))
    &&& s[c][0].seen_bit()
    &&& s[c][0].tgt() == (if j == 0 { None } else { Some(ch[j - 1]) })
    &&& forall|i: int| 1 <= i < ks[j] ==> (#[trigger] s[c][i]).seen_bit() && s[c][i].tgt() == ok[c][i - 1]
    &&& forall|i: int| ks[j] <= i < N ==> !(#[trigger] s[c][i]).seen_bit() && s[c][i].tgt() == ok[c][i]
}

/// A depth-first traversal of a [`Tree`], holding only two cursors. It
/// yields each node's handle once its first `RETURN_ON_VISIT` children
/// have been traversed; driven to exhaustion (or released with
/// [`NodeIter::finish`]) it restores every slot it converted. Simply
/// abandoning it instead leaves the tree mid-traversal: safe to drop,
/// but not fit for another traversal.
pub struct NodeIter<T, const N: usize, const RETURN_ON_VISIT: usize> {
    prev: Option<usize>,
    cur: Option<usize>,
    okids: Ghost<Seq<Seq<Option<int>>>>,
    oroot: Ghost<Option<int>>,
    chain: Ghost<Seq<int>>,
    ks: Ghost<Seq<int>>,
    done: Ghost<int>,
    marker: core::marker::PhantomData<T>,
}

impl<T, const N: usize, const RETURN_ON_VISIT: usize> NodeIter<T, N, RETURN_ON_VISIT> {
    /// The child-handle rows of the tree as they stood when this
    /// traversal began, and as they stand again once it is done.
    pub closed spec fn orig_kids(self) -> Seq<Seq<Option<int>>> {
        self.okids@
    }

    /// The root handle of the tree being traversed.
    pub closed spec fn orig_root(self) -> Option<int> {
        self.oroot@
    }

    /// How many nodes have been yielded so far.
    pub closed spec fn emitted(self) -> int {
        self.done@
    }

    /// The handle sequence this traversal yields, element by element.
    pub open spec fn expected(self) -> Seq<int> {
        full_ord(self.orig_kids(), self.orig_root(), RETURN_ON_VISIT as int)
    }

    /// Whether the traversal has fully unwound: the next call yields
    /// nothing and leaves the tree untouched.
    pub closed spec fn at_end(self) -> bool {
        self.cur is None
    }

    /// Is the cursor freshly arrived at `x`, no slot converted yet?
    pub closed spec fn fresh_at(self, x: int) -> bool {
        !(self.chain@.len() > 0 && self.chain@.last() == x)
    }

    /// What remains to be yielded: the untraversed part of the cursor
    /// node's subtree, then the remainders of every chain node, innermost
    /// first.
    pub closed spec fn rest(self) -> Seq<int> {
        let ok = self.okids@;
        let head = match self.cur {
            Some(x) => if self.fresh_at(x as int) {
                ord(ok, x as int, RETURN_ON_VISIT as int)
            } else {
                Seq::empty()
            },
            None => Seq::empty(),
        };
        head + rest_of(ok, self.chain@, self.ks@, RETURN_ON_VISIT as int)
    }

    /// The structural invariant of a traversal in progress: outside the
    /// descent chain the tree is untouched; on the chain each node has
    /// the back-link layout of [`chain_node_ok`]; the cursor either sits
    /// on the chain's innermost node or freshly below it.
    pub closed spec fn inv_core(self, tree: Tree<T, N>) -> bool {
        let ok = self.okids@;
        let s = tree.slot_seq();
        let ch = self.chain@;
        let ks = self.ks@;
        &&& tree.rows_ok()
        &&& ok.len() == s.len()
        &&& forall|v: int| 0 <= v < ok.len() ==> (#[trigger] ok[v]).len() == N
        &&& tree.root_handle() == self.oroot@
        &&& arena_wf(ok, self.oroot@)
        &&& kid_bounds::<N>(ok)
        &&& ks.len() == ch.len()
        &&& forall|j1: int, j2: int| 0 <= j1 < j2 < ch.len() ==> ch[j1] > ch[j2]
        &&& forall|j: int| 0 <= j < ch.len()
            ==> chain_node_ok::<N>(ok, s, self.oroot@, ch, ks, j)
        &&& forall|v: int, i: int|
            0 <= v < ok.len() && !ch.contains(v) && 0 <= i < N
                ==> !(#[trigger] s[v][i]).seen_bit() && s[v][i].tgt() == ok[v][i]
        &&& match self.cur {
            None => ch.len() == 0,
            Some(x) => {
                let xi = x as int;
                &&& 0 <= xi < ok.len()
                &&& if self.fresh_at(xi) {
                    &&& !ch.contains(xi)
                    &&& (ch.len() == 0 ==> self.oroot@ == Some(xi) && self.prev is None)
                    &&& (ch.len() > 0 ==> ok[ch.last()][ks.last() - 1] == Some(xi)
                        && xi < ch.last() && handle(self.prev) == Some(ch.last()))
                } else {
                    handle(self.prev) == ok[xi][ks.last() - 1]
                }
            },
        }
    }

    /// The yield-accounting invariant: what was yielded so far is
    /// exactly the first `emitted()` entries of the expected order, and
    /// what remains is exactly the rest of it.
    pub closed spec fn emit_ok(self) -> bool {
        &&& 0 <= self.done@ <= self.expected().len()
        &&& self.expected().skip(self.done@) == self.rest()
        &&& (self.cur is None ==> self.done@ == self.expected().len())
    }

    /// A live traversal: structure and accounting both hold.
    pub open spec fn inv(self, tree: Tree<T, N>) -> bool {
        self.inv_core(tree) && self.emit_ok()
    }
}

/// The loop iterations a traversal still needs at one chain node with
/// `k` slots converted: its own remaining conversions and ascent, plus
/// everything below its untraversed children.
spec fn rem_node<const N: usize>(ok: Seq<Seq<Option<int>>>, c: int, k: int, ra: int) -> int {
    (N + 1 - k) + (N + 1) * ords_range(ok, c, k, N as int, ra).len()
}

/// The loop iterations a traversal still needs for a whole descent
/// chain.
spec fn meas_chain<const N: usize>(ok: Seq<Seq<Option<int>>>, ch: Seq<int>, ks: Seq<int>, ra: int) -> int
    decreases ch.len(),
{
    if ch.len() == 0 {
        0
    } else {
        rem_node::<N>(ok, ch.last(), ks.last(), ra) + meas_chain::<N>(ok, ch.drop_last(), ks.drop_last(), ra)
    }
}

impl<T, const N: usize, const RETURN_ON_VISIT: usize> NodeIter<T, N, RETURN_ON_VISIT> {
    /// The loop iterations left before the traversal reaches its next
    /// yield or its end.
    spec fn measure(self) -> int {
        let ok = self.okids@;
        let ra = RETURN_ON_VISIT as int;
        meas_chain::<N>(ok, self.chain@, self.ks@, ra) + match self.cur {
            Some(x) => if self.fresh_at(x as int) {
                (N + 1) * (1 + ords_range(ok, x as int, 0, N as int, ra).len())
            } else {
                0
            },
            None => 0,
        }
    }

    /// With an empty descent chain every node is untouched, so the tree
    /// stands exactly as the traversal found it.
    proof fn lemma_restored(self, tree: Tree<T, N>)
        requires
            self.inv_core(tree),
            self.chain@.len() == 0,
        ensures
            tree.at_rest(),
            tree.kid_seq() == self.okids@,
    {
        let ok = self.okids@;
        let s = tree.slot_seq();
        assert forall|v: int| 0 <= v < ok.len() implies tree.kid_seq()[v] == ok[v] by {
            assert(!self.chain@.contains(v));
            assert(tree.kid_seq()[v] =~= ok[v]);
        }
        assert(tree.kid_seq() =~= ok);
        assert forall|v: int, i: int|
            0 <= v < s.len() && 0 <= i < s[v].len() implies !(#[trigger] s[v][i]).seen_bit() by {
            assert(!self.chain@.contains(v));
        }
    }
}

impl<T, const N: usize> Tree<T, N> {
    /// Starts a depth-first traversal that yields each node once its
    /// first `R` children are finished: `R = 0` visits parents before
    /// children, `R = N` children before parents.
    pub fn node_iter<const R: usize>(&self) -> (it: NodeIter<T, N, R>)
        requires
            R <= N,
            self.at_rest(),
        ensures
            it.inv(*self),
            it.emitted() == 0,
            it.orig_kids() == self.kid_seq(),
            it.orig_root() == self.root_handle(),
    {
        let it = NodeIter {
            prev: None,
            cur: self.root,
            okids: Ghost(self.kid_seq()),
            oroot: Ghost(self.root_handle()),
            chain: Ghost(Seq::empty()),
            ks: Ghost(Seq::empty()),
            done: Ghost(0),
            marker: core::marker::PhantomData,
        };
        proof {
            let ok = self.kid_seq();
            match self.root_handle() {
                None => {},
                Some(r) => {
                    lemma_kid_bounds_sub(ok, r, 0);
                },
            }
            assert(rest_of(ok, Seq::empty(), Seq::empty(), R as int) =~= Seq::<int>::empty());
            assert(it.expected() + Seq::<int>::empty() =~= it.expected());
            assert(it.expected().skip(0) =~= it.expected());
        }
        it
    }
}


/// Non-negative chain measures: every entry of `ks` is at most `N + 1`.
proof fn lemma_meas_nonneg<const N: usize>(ok: Seq<Seq<Option<int>>>, ch: Seq<int>, ks: Seq<int>, ra: int)
    requires
        ks.len() == ch.len(),
        forall|j: int| 0 <= j < ks.len() ==> #[trigger] ks[j] <= N + 1,
    ensures
        meas_chain::<N>(ok, ch, ks, ra) >= 0,
    decreases ch.len(),
{
    if ch.len() > 0 {
        lemma_meas_nonneg::<N>(ok, ch.drop_last(), ks.drop_last(), ra);
        let l = ords_range(ok, ch.last(), ks.last(), N as int, ra).len() as int;
        assert((N + 1) * l >= 0) by (nonlinear_arith)
            requires l >= 0;
    }
}

impl<T, const N: usize, const RETURN_ON_VISIT: usize> NodeIter<T, N, RETURN_ON_VISIT> {
    /// One descent step: converts the cursor node's slot `k` into a
    /// back-link to the node it arrived from, and turns to the `k`-th
    /// child (or treats an absent child as already finished).
    #[verifier::loop_isolation(false)]
    #[verifier::rlimit(100)]
    fn step_convert(&mut self, tree: &mut Tree<T, N>, x: usize, k: usize)
        requires
            RETURN_ON_VISIT <= N,
            old(self).inv(*old(tree)),
            old(self).cur == Some(x),
            k < N,
            if old(self).fresh_at(x as int) {
                k == 0
            } else {
                k as int == old(self).ks@.last()
            },
        ensures
            final(self).inv(*final(tree)),
            final(self).okids@ == old(self).okids@,
            final(self).oroot@ == old(self).oroot@,
            final(tree).val_seq() == old(tree).val_seq(),
            final(tree).root_handle() == old(tree).root_handle(),
            k == RETURN_ON_VISIT ==> old(self).emitted() < old(self).expected().len()
                && x as int == old(self).expected()[old(self).emitted()]
                && final(self).emitted() == old(self).emitted() + 1,
            k != RETURN_ON_VISIT ==> final(self).emitted() == old(self).emitted()
                && final(self).cur is Some
                && final(self).measure() == old(self).measure() - 1
                && final(self).measure() >= 0,
    {
        let ghost ok = self.okids@;
        let ghost root = self.oroot@;
        let ghost ch = self.chain@;
        let ghost ks = self.ks@;
        let ghost s1 = tree.slot_seq();
        let ghost ra = RETURN_ON_VISIT as int;
        let ghost m0 = self.measure();
        let ghost done0 = self.done@;
        let ghost xi = x as int;
        let ghost fresh = self.fresh_at(xi);
        let tpv = tree.slots[x][k];
        let target = tpv.as_untagged();
        let bl = TaggedPtr::from_untagged(self.prev).seen();
        let ghost oldprev = self.prev;
        tree.slots[x][k] = bl;
        proof {
            assert(tree.slot_seq() =~= s1.update(xi, s1[xi].update(k as int, bl)));
        }
        match target {
            None => {
                self.prev = None;
            },
            Some(y) => {
                self.prev = Some(x);
                self.cur = Some(y);
            },
        }
        proof {
            let ki = k as int;
            let s2 = tree.slot_seq();
            let ch2 = if fresh {
                ch.push(xi)
            } else {
                ch
            };
            let ks2 = if fresh {
                ks.push(ki + 1)
            } else {
                ks.update(ks.len() - 1, ki + 1)
            };
            self.chain = Ghost(ch2);
            self.ks = Ghost(ks2);
            if k == RETURN_ON_VISIT {
                self.done = Ghost(done0 + 1);
            }
            if !fresh {
                assert(chain_node_ok::<N>(ok, s1, root, ch, ks, ch.len() - 1));
            }
            // the slot held the genuine child before conversion
            assert(s1[xi][ki].tgt() == ok[xi][ki]);
            assert(handle(target) == ok[xi][ki]);
            assert(ch2.last() == xi);
            assert(ks2.last() == ki + 1);
            assert(ch2.drop_last() =~= if fresh { ch } else { ch.drop_last() });
            assert(ks2.drop_last() =~= if fresh { ks } else { ks.drop_last() });
            // the chain including x now has the converted-slot layout
            assert forall|j: int| 0 <= j < ch2.len()
                implies chain_node_ok::<N>(ok, s2, root, ch2, ks2, j) by {
                if j < ch.len() && (!fresh || j < ch2.len() - 1) {
                    assert(chain_node_ok::<N>(ok, s1, root, ch, ks, j));
                    if ch[j] != xi {
                        assert(s2[ch[j]] == s1[ch[j]]);
                    }
                }
                if j == ch2.len() - 1 {
                    assert(s2[xi] == s1[xi].update(ki, bl));
                    assert(bl.tgt() == handle(oldprev));
                    if fresh {
                        assert(handle(oldprev) == (if ch.len() == 0 { None } else { Some(ch.last()) }));
                    } else {
                        assert(s2[xi][0] == s1[xi][0]);
                    }
                }
            }
            // everything off the chain is still untouched
            assert forall|v: int, i: int|
                0 <= v < ok.len() && !ch2.contains(v) && 0 <= i < N
                implies !(#[trigger] s2[v][i]).seen_bit() && s2[v][i].tgt() == ok[v][i] by {
                if v == xi {
                    assert(ch2[ch2.len() - 1] == xi);
                    assert(ch2.contains(v));
                } else {
                    assert(!ch.contains(v)) by {
                        if ch.contains(v) {
                            let w = choose|w: int| 0 <= w < ch.len() && ch[w] == v;
                            assert(ch2[w] == v);
                        }
                    }
                    assert(s2[v] == s1[v]);
                }
            }
            // the chain handles still descend strictly
            assert forall|j1: int, j2: int| 0 <= j1 < j2 < ch2.len()
                implies ch2[j1] > ch2[j2] by {
                if fresh && j2 == ch2.len() - 1 && ch.len() > 0 {
                    assert(ch2[j1] == ch[j1]);
                    if j1 < ch.len() - 1 {
                        assert(ch[j1] > ch.last());
                    }
                    assert(xi < ch.last());
                }
            }
            // the cursor state matches the new chain
            match target {
                None => {
                    assert(!self.fresh_at(xi));
                },
                Some(y) => {
                    let yi = y as int;
                    assert(ok[xi][ki] == Some(yi));
                    assert(0 <= yi < xi);
                    assert(self.fresh_at(yi)) by {
                        if ch2.len() > 0 && ch2.last() == yi {
                            assert(ch2.last() == xi);
                        }
                    }
                    assert(!ch2.contains(yi)) by {
                        if ch2.contains(yi) {
                            let w = choose|w: int| 0 <= w < ch2.len() && ch2[w] == yi;
                            if w < ch2.len() - 1 {
                                assert(ch2[w] > ch2[ch2.len() - 1]);
                            }
                            assert(ch2[ch2.len() - 1] == xi);
                        }
                    }
                },
            }
            // the remainder advances by the node's own yield (when k is
            // the yield point) and then the k-th child's order
            lemma_suffix_step(ok, xi, ki, ra);
            if fresh {
                assert(ord(ok, xi, ra) == suffix_ord(ok, xi, 0, ra));
            }
            assert(rest_of(ok, ch2, ks2, ra) == suffix_ord(ok, xi, ki + 1, ra) + rest_of(ok, ch2.drop_last(), ks2.drop_last(), ra));
            let tail = rest_of(ok, ch2.drop_last(), ks2.drop_last(), ra);
            let kid_ord = match ok[xi][ki] {
                None => Seq::<int>::empty(),
                Some(c) => if 0 <= c < xi {
                    ord(ok, c, ra)
                } else {
                    Seq::empty()
                },
            };
            let yield_part = if ki == ra {
                seq![xi]
            } else {
                Seq::<int>::empty()
            };
            if !fresh {
                assert(rest_of(ok, ch, ks, ra) == suffix_ord(ok, xi, ki, ra) + tail);
                assert(old(self).rest() == Seq::<int>::empty() + (suffix_ord(ok, xi, ki, ra) + tail));
                assert(Seq::<int>::empty() + (suffix_ord(ok, xi, ki, ra) + tail) =~= suffix_ord(ok, xi, ki, ra) + tail);
            } else {
                assert(old(self).rest() == suffix_ord(ok, xi, ki, ra) + tail);
            }
            assert(old(self).rest() == ((yield_part + kid_ord) + suffix_ord(ok, xi, ki + 1, ra)) + tail);
            assert(((yield_part + kid_ord) + suffix_ord(ok, xi, ki + 1, ra)) + tail
                =~= yield_part + (kid_ord + (suffix_ord(ok, xi, ki + 1, ra) + tail)));
            assert(self.rest() == kid_ord + (suffix_ord(ok, xi, ki + 1, ra) + tail)) by {
                match target {
                    None => {
                        assert(kid_ord =~= Seq::<int>::empty());
                        assert(Seq::<int>::empty() + (suffix_ord(ok, xi, ki + 1, ra) + tail)
                            =~= suffix_ord(ok, xi, ki + 1, ra) + tail);
                    },
                    Some(y) => {
                        assert(kid_ord == ord(ok, y as int, ra));
                    },
                }
            }
            if ki == ra {
                lemma_skip_head(old(self).expected(), done0, xi, self.rest());
            } else {
                assert(yield_part + self.rest() =~= self.rest());
                assert(old(self).expected().skip(done0) == self.rest());
            }
            // each conversion costs one iteration from the measure
            if ki != ra {
                let lk = ords_range(ok, xi, ki, N as int, ra).len() as int;
                let lk1 = ords_range(ok, xi, ki + 1, N as int, ra).len() as int;
                let lkid = kid_ord.len() as int;
                assert(ords_range(ok, xi, ki, N as int, ra) == kid_ord + ords_range(ok, xi, ki + 1, N as int, ra));
                assert(lk == lkid + lk1);
                if fresh {
                    assert(meas_chain::<N>(ok, ch2, ks2, ra) == rem_node::<N>(ok, xi, 1, ra) + meas_chain::<N>(ok, ch, ks, ra));
                    assert(m0 == meas_chain::<N>(ok, ch, ks, ra) + (N + 1) * (1 + lk));
                } else {
                    assert(meas_chain::<N>(ok, ch, ks, ra) == rem_node::<N>(ok, xi, ki, ra) + meas_chain::<N>(ok, ch.drop_last(), ks.drop_last(), ra));
                    assert(meas_chain::<N>(ok, ch2, ks2, ra) == rem_node::<N>(ok, xi, ki + 1, ra) + meas_chain::<N>(ok, ch.drop_last(), ks.drop_last(), ra));
                }
                match target {
                    None => {
                        assert(lkid == 0);
                        assert((N + 1) * (1 + lk) == (N + 1) + (N + 1) * lk) by (nonlinear_arith);
                        assert((N + 1) * lk == (N + 1) * lk1) by (nonlinear_arith)
                            requires lk == lk1;
                    },
                    Some(y) => {
                        let yi = y as int;
                        assert(ok[yi].len() == N);
                        let ly = ords_range(ok, yi, 0, N as int, ra).len() as int;
                        let my = if ra <= N { ra } else { N as int };
                        lemma_split_range(ok, yi, 0, my, N as int, ra);
                        assert(lkid == 1 + ly);
                        assert((N + 1) * (1 + lk) == (N + 1) + (N + 1) * (1 + ly) + (N + 1) * lk1) by (nonlinear_arith)
                            requires lk == 1 + ly + lk1;
                        assert((N + 1) * lk == (N + 1) * (1 + ly) + (N + 1) * lk1) by (nonlinear_arith)
                            requires lk == 1 + ly + lk1;
                    },
                }
                if fresh {
                    assert(m0 == meas_chain::<N>(ok, ch, ks, ra)
                        + (N + 1) * (1 + ords_range(ok, xi, 0, N as int, ra).len()));
                } else {
                    assert(m0 == meas_chain::<N>(ok, ch, ks, ra));
                }
                assert(rem_node::<N>(ok, xi, ki + 1, ra) == (N + 1 - (ki + 1)) + (N + 1) * lk1);
                match target {
                    None => {
                        assert(!self.fresh_at(xi));
                        assert(self.measure() == meas_chain::<N>(ok, ch2, ks2, ra));
                    },
                    Some(y) => {
                        let yi = y as int;
                        let ly2 = ords_range(ok, yi, 0, N as int, ra).len() as int;
                        assert(self.cur == Some(y));
                        assert(self.measure() == meas_chain::<N>(ok, ch2, ks2, ra)
                            + (N + 1) * (1 + ly2));
                    },
                }
                assert(self.measure() == m0 - 1);
                assert forall|j: int| 0 <= j < ks2.len() implies #[trigger] ks2[j] <= N + 1 by {
                    if j < ks.len() && (!fresh || j < ks2.len() - 1) {
                        assert(chain_node_ok::<N>(ok, s1, root, ch, ks, j));
                    }
                }
                lemma_meas_nonneg::<N>(ok, ch2, ks2, ra);
                match target {
                    None => {},
                    Some(y) => {
                        let ln = ords_range(ok, y as int, 0, N as int, ra).len() as int;
                        assert((N + 1) * (1 + ln) >= 0) by (nonlinear_arith)
                            requires ln >= 0;
                    },
                }
                assert(self.measure() >= 0);
            }
        }
    }

    /// One ascent step for `N > 0`: the cursor node's every slot is a
    /// back-link, so the shift restores its children and the traversal
    /// returns to the parent recovered from slot 0.
    #[verifier::loop_isolation(false)]
    #[verifier::rlimit(100)]
    fn step_ascend(&mut self, tree: &mut Tree<T, N>, x: usize)
        requires
            RETURN_ON_VISIT <= N,
            0 < N,
            old(self).inv(*old(tree)),
            old(self).cur == Some(x),
            !old(self).fresh_at(x as int),
            old(self).ks@.last() == N,
        ensures
            final(self).inv(*final(tree)),
            final(self).okids@ == old(self).okids@,
            final(self).oroot@ == old(self).oroot@,
            final(tree).val_seq() == old(tree).val_seq(),
            final(tree).root_handle() == old(tree).root_handle(),
            RETURN_ON_VISIT == N ==> old(self).emitted() < old(self).expected().len()
                && x as int == old(self).expected()[old(self).emitted()]
                && final(self).emitted() == old(self).emitted() + 1,
            RETURN_ON_VISIT != N ==> final(self).emitted() == old(self).emitted()
                && final(self).measure() == old(self).measure() - 1
                && final(self).measure() >= 0,
    {
        let ghost ok = self.okids@;
        let ghost root = self.oroot@;
        let ghost ch = self.chain@;
        let ghost ks = self.ks@;
        let ghost s1 = tree.slot_seq();
        let ghost ra = RETURN_ON_VISIT as int;
        let ghost m0 = self.measure();
        let ghost done0 = self.done@;
        let ghost xi = x as int;
        proof {
            assert(chain_node_ok::<N>(ok, s1, root, ch, ks, ch.len() - 1));
        }
        let parent_tp = tree.slots[x][0];
        let parent = parent_tp.as_untagged();
        let mut i: usize = 0;
        while i < N - 1
            invariant
                0 <= i <= N - 1,
                tree.val_seq() == old(tree).val_seq(),
                tree.root_handle() == old(tree).root_handle(),
                tree.slot_seq().len() == s1.len(),
                forall|v: int| 0 <= v < s1.len() && v != xi ==> #[trigger] tree.slot_seq()[v] == s1[v],
                tree.slot_seq()[xi].len() == N,
                forall|t: int| 0 <= t < i
                    ==> !(#[trigger] tree.slot_seq()[xi][t]).seen_bit()
                        && tree.slot_seq()[xi][t].tgt() == ok[xi][t],
                forall|t: int| i <= t < N ==> #[trigger] tree.slot_seq()[xi][t] == s1[xi][t],
            decreases N - 1 - i,
        {
            let ghost sb = tree.slot_seq();
            let moved = tree.slots[x][i + 1].unseen();
            tree.slots[x][i] = moved;
            proof {
                assert(tree.slot_seq() =~= sb.update(xi, sb[xi].update(i as int, moved)));
                assert(s1[xi][i + 1].tgt() == ok[xi][i as int]);
            }
            i = i + 1;
        }
        let last = TaggedPtr::from_untagged(self.prev).unseen();
        let ghost oldprev = self.prev;
        let ghost sb = tree.slot_seq();
        tree.slots[x][N - 1] = last;
        self.cur = parent;
        self.prev = Some(x);
        proof {
            assert(tree.slot_seq() =~= sb.update(xi, sb[xi].update(N - 1, last)));
            let s2 = tree.slot_seq();
            let ch2 = ch.drop_last();
            let ks2 = ks.drop_last();
            let m = ch.len() - 1;
            self.chain = Ghost(ch2);
            self.ks = Ghost(ks2);
            if RETURN_ON_VISIT == N {
                self.done = Ghost(done0 + 1);
            }
            assert(handle(oldprev) == ok[xi][N - 1]);
            // the row now holds its original children, untagged
            assert forall|t: int| 0 <= t < N
                implies !(#[trigger] s2[xi][t]).seen_bit() && s2[xi][t].tgt() == ok[xi][t] by {}
            assert forall|v: int| 0 <= v < s1.len() && v != xi implies #[trigger] s2[v] == s1[v] by {}
            assert(handle(parent) == (if m == 0 { None::<int> } else { Some(ch[m - 1]) }));
            // the shortened chain keeps its layout
            assert forall|j: int| 0 <= j < ch2.len()
                implies chain_node_ok::<N>(ok, s2, root, ch2, ks2, j) by {
                assert(chain_node_ok::<N>(ok, s1, root, ch, ks, j));
                assert(ch[j] != xi);
                assert(s2[ch[j]] == s1[ch[j]]);
            }
            // x rejoins the untouched part
            assert forall|v: int, i2: int|
                0 <= v < ok.len() && !ch2.contains(v) && 0 <= i2 < N
                implies !(#[trigger] s2[v][i2]).seen_bit() && s2[v][i2].tgt() == ok[v][i2] by {
                if v != xi {
                    assert(!ch.contains(v)) by {
                        if ch.contains(v) {
                            let w = choose|w: int| 0 <= w < ch.len() && ch[w] == v;
                            assert(w == m || ch2[w] == v);
                        }
                    }
                    assert(s2[v] == s1[v]);
                }
            }
            // cursor: back on the parent, or done at the root
            match parent {
                None => {
                    assert(m == 0);
                },
                Some(p) => {
                    let pi = p as int;
                    assert(m > 0) by {
                        if m == 0 {
                            assert(handle(parent) == None::<int>);
                        }
                    }
                    assert(pi == ch[m - 1]);
                    assert(ch2.last() == pi);
                    assert(!self.fresh_at(pi));
                    assert(chain_node_ok::<N>(ok, s1, root, ch, ks, m - 1));
                    assert(ok[pi][ks[m - 1] - 1] == Some(xi));
                },
            }
            // the remainder sheds this node's final yield
            lemma_suffix_end(ok, xi, ra);
            assert(rest_of(ok, ch, ks, ra) == suffix_ord(ok, xi, N as int, ra) + rest_of(ok, ch2, ks2, ra));
            let tail = rest_of(ok, ch2, ks2, ra);
            assert(old(self).rest() == Seq::<int>::empty() + (suffix_ord(ok, xi, N as int, ra) + tail));
            assert(self.rest() == tail) by {
                assert(Seq::<int>::empty() + tail =~= tail);
            }
            if RETURN_ON_VISIT == N {
                assert(old(self).rest() =~= seq![xi] + tail);
                lemma_skip_head(old(self).expected(), done0, xi, tail);
            } else {
                assert(suffix_ord(ok, xi, N as int, ra) =~= Seq::<int>::empty());
                assert(Seq::<int>::empty() + (Seq::<int>::empty() + tail) =~= tail);
                assert(old(self).expected().skip(done0) == self.rest());
            }
            if self.cur is None {
                assert(self.rest() =~= Seq::<int>::empty());
                assert(old(self).expected().skip(self.done@).len() == 0);
            }
            // ascending costs one iteration from the measure
            if RETURN_ON_VISIT != N {
                assert(ords_range(ok, xi, N as int, N as int, ra).len() == 0);
                assert((N + 1) * 0 == 0) by (nonlinear_arith);
                assert(meas_chain::<N>(ok, ch, ks, ra) == rem_node::<N>(ok, xi, N as int, ra) + meas_chain::<N>(ok, ch2, ks2, ra));
                assert(rem_node::<N>(ok, xi, N as int, ra) == 1);
                assert(self.measure() == m0 - 1);
                assert forall|j: int| 0 <= j < ks2.len() implies #[trigger] ks2[j] <= N + 1 by {
                    assert(chain_node_ok::<N>(ok, s1, root, ch, ks, j));
                }
                lemma_meas_nonneg::<N>(ok, ch2, ks2, ra);
                assert(self.measure() >= 0);
            }
        }
    }

    /// Advances the traversal to its next yield point and returns that
    /// node's handle, or `None` once every node has been yielded. The
    /// handles come out exactly in the tree's `RETURN_ON_VISIT`-order;
    /// values are never changed; and when `None` is returned the tree
    /// stands fully restored.
    #[verifier::loop_isolation(false)]
    #[verifier::rlimit(100)]
    pub fn next(&mut self, tree: &mut Tree<T, N>) -> (r: Option<usize>)
        requires
            RETURN_ON_VISIT <= N,
            old(self).inv(*old(tree)),
        ensures
            final(self).inv(*final(tree)),
            final(self).orig_kids() == old(self).orig_kids(),
            final(self).orig_root() == old(self).orig_root(),
            final(tree).val_seq() == old(tree).val_seq(),
            final(tree).root_handle() == old(tree).root_handle(),
            old(self).at_end() ==> r is None && *final(tree) == *old(tree) && *final(self) == *old(self),
            old(self).emitted() < old(self).expected().len()
                ==> (r matches Some(h) && h as int == old(self).expected()[old(self).emitted()]
                    && final(self).emitted() == old(self).emitted() + 1),
            old(self).emitted() >= old(self).expected().len()
                ==> r is None && final(self).emitted() == old(self).emitted(),
            r is None ==> final(self).at_end() && final(tree).at_rest()
                && final(tree).kid_seq() == final(self).orig_kids()
                && final(tree).root_handle() == final(self).orig_root(),
            r matches Some(h) ==> (h as int) < final(tree).size(),
    {
        if self.cur.is_none() {
            proof {
                self.lemma_restored(*tree);
            }
            return None;
        }
        loop
            invariant
                self.cur is Some,
                self.inv(*tree),
                self.okids@ == old(self).okids@,
                self.oroot@ == old(self).oroot@,
                self.done@ == old(self).done@,
                tree.val_seq() == old(tree).val_seq(),
                tree.root_handle() == old(tree).root_handle(),
            decreases self.measure(),
        {
            let ghost ok = self.okids@;
            let ghost root = self.oroot@;
            let ghost ch = self.chain@;
            let ghost ks = self.ks@;
            let ghost s1 = tree.slot_seq();
            let ghost done0 = self.done@;
            let x = self.cur.unwrap();
            let ghost xi = x as int;
            let ghost fresh = self.fresh_at(xi);
            proof {
                assert(tree.slots@.len() == s1.len());
                assert(0 <= xi < s1.len());
                assert(s1[xi].len() == N);
                assert(tree.slots@[xi]@ == s1[xi]);
            }

            // scan for the first slot not yet converted
            let mut k: usize = 0;
            while k < N && tree.slots[x][k].is_seen()
                invariant
                    k <= N,
                    forall|i: int| 0 <= i < k ==> (#[trigger] s1[xi][i]).seen_bit(),
                decreases N - k,
            {
                k = k + 1;
            }
            proof {
                if fresh {
                    assert(!ch.contains(xi));
                    if k > 0 {
                        assert(s1[xi][0].seen_bit());
                        assert(false);
                    }
                } else {
                    let kk = ks.last();
                    assert(chain_node_ok::<N>(ok, s1, root, ch, ks, ch.len() - 1));
                    if (k as int) < kk {
                        assert(s1[xi][k as int].seen_bit());
                        assert(k < N);
                        assert(false);
                    }
                    if (k as int) > kk {
                        assert(!s1[xi][kk].seen_bit());
                        assert(s1[xi][kk].seen_bit());
                        assert(false);
                    }
                    assert(k as int == ks.last());
                }
            }

            if k < N {
                self.step_convert(tree, x, k);
                if k == RETURN_ON_VISIT {
                    return Some(x);
                }
            } else {
                if N == 0 {
                    // a node with no child slots: yield it and step back up
                    self.cur = self.prev;
                    self.prev = Some(x);
                    proof {
                        let ghost ra = RETURN_ON_VISIT as int;
                        if ch.len() > 0 {
                            assert(chain_node_ok::<N>(ok, s1, root, ch, ks, 0));
                            assert(false);
                        }
                        assert(fresh);
                        assert(ch.len() == 0);
                        assert(root == Some(xi));
                        self.done = Ghost(done0 + 1);
                        assert(ord(ok, xi, ra) =~= seq![xi]);
                        assert(rest_of(ok, ch, ks, ra) == Seq::<int>::empty());
                        assert(old(self).rest() =~= seq![xi] + Seq::<int>::empty());
                        assert(self.rest() =~= Seq::<int>::empty());
                        lemma_skip_head(old(self).expected(), done0, xi, self.rest());
                        assert(self.done@ == old(self).expected().len());
                    }
                    return Some(x);
                } else {
                    self.step_ascend(tree, x);
                    if RETURN_ON_VISIT == N {
                        return Some(x);
                    }
                    if self.cur.is_none() {
                        proof {
                            self.lemma_restored(*tree);
                        }
                        return None;
                    }
                }
            }
        }
    }
}

impl<T, const N: usize, const RETURN_ON_VISIT: usize> NodeIter<T, N, RETURN_ON_VISIT> {
    /// How many steps a release still needs: one per chain node to
    /// ascend through, plus one to step off a freshly reached node.
    spec fn release_measure(self) -> int {
        match self.cur {
            None => 0,
            Some(x) => 2 * self.chain@.len() + if self.fresh_at(x as int) {
                1int
            } else {
                0int
            },
        }
    }

    /// Releases an unfinished traversal: ascends from wherever it
    /// stopped, restoring every converted slot without yielding, until
    /// the tree is structurally whole again. Values are untouched.
    #[verifier::loop_isolation(false)]
    #[verifier::rlimit(100)]
    pub fn finish(self, tree: &mut Tree<T, N>)
        requires
            RETURN_ON_VISIT <= N,
            self.inv(*old(tree)),
        ensures
            final(tree).at_rest(),
            final(tree).val_seq() == old(tree).val_seq(),
            final(tree).root_handle() == old(tree).root_handle(),
            final(tree).root_handle() == self.orig_root(),
            final(tree).kid_seq() == self.orig_kids(),
    {
        let mut it = self;
        while it.cur.is_some()
            invariant
                it.cur is Some || it.chain@.len() == 0,
                it.inv_core(*tree),
                it.okids@ == self.okids@,
                it.oroot@ == self.oroot@,
                tree.val_seq() == old(tree).val_seq(),
                tree.root_handle() == old(tree).root_handle(),
            decreases it.release_measure(),
        {
            let ghost ok = it.okids@;
            let ghost root = it.oroot@;
            let ghost ch = it.chain@;
            let ghost ks = it.ks@;
            let ghost s1 = tree.slot_seq();
            let x = it.cur.unwrap();
            let ghost xi = x as int;
            let ghost fresh = it.fresh_at(xi);
            proof {
                assert(tree.slots@.len() == s1.len());
                assert(0 <= xi < s1.len());
                assert(s1[xi].len() == N);
                assert(tree.slots@[xi]@ == s1[xi]);
            }

            let mut k: usize = 0;
            while k < N && tree.slots[x][k].is_seen()
                invariant
                    k <= N,
                    forall|i: int| 0 <= i < k ==> (#[trigger] s1[xi][i]).seen_bit(),
                decreases N - k,
            {
                k = k + 1;
            }
            proof {
                if fresh {
                    assert(!ch.contains(xi));
                    if k > 0 {
                        assert(s1[xi][0].seen_bit());
                        assert(false);
                    }
                } else {
                    let kk = ks.last();
                    assert(chain_node_ok::<N>(ok, s1, root, ch, ks, ch.len() - 1));
                    if (k as int) < kk {
                        assert(s1[xi][k as int].seen_bit());
                        assert(k < N);
                        assert(false);
                    }
                    if (k as int) > kk {
                        assert(!s1[xi][kk].seen_bit());
                        assert(s1[xi][kk].seen_bit());
                        assert(false);
                    }
                    assert(k as int == ks.last());
                }
            }

            if k == 0 {
                // nothing converted here: the node it arrived from is
                // its parent, so just step back
                it.cur = it.prev;
                it.prev = Some(x);
                proof {
                    if fresh {
                        if ch.len() > 0 {
                            assert(chain_node_ok::<N>(ok, s1, root, ch, ks, ch.len() - 1));
                            assert(it.cur == Some(ch.last() as usize)) by {
                                assert(handle(it.cur) == Some(ch.last()));
                            }
                            assert(!it.fresh_at(ch.last()));
                            assert(handle(it.prev) == Some(xi));
                            assert(ok[ch.last()][ks.last() - 1] == Some(xi));
                        }
                    } else {
                        assert(1 <= ks.last());
                        assert(s1[xi][0].seen_bit());
                        assert(false);
                    }
                    assert(it.inv_core(*tree));
                }
            } else {
                // restore the converted prefix by the shift and ascend
                proof {
                    assert(!fresh);
                    assert(1 <= k as int == ks.last() <= N);
                }
                let parent_tp = tree.slots[x][0];
                let parent = parent_tp.as_untagged();
                let mut i: usize = 0;
                while i < k - 1
                    invariant
                        0 <= i <= k - 1,
                        k <= N,
                        k as int == ks.last(),
                        tree.val_seq() == old(tree).val_seq(),
                        tree.root_handle() == old(tree).root_handle(),
                        tree.slot_seq().len() == s1.len(),
                        forall|v: int| 0 <= v < s1.len() && v != xi ==> #[trigger] tree.slot_seq()[v] == s1[v],
                        tree.slot_seq()[xi].len() == N,
                        forall|t: int| 0 <= t < i
                            ==> !(#[trigger] tree.slot_seq()[xi][t]).seen_bit()
                                && tree.slot_seq()[xi][t].tgt() == ok[xi][t],
                        forall|t: int| i <= t < N ==> #[trigger] tree.slot_seq()[xi][t] == s1[xi][t],
                    decreases k - 1 - i,
                {
                    let ghost sb = tree.slot_seq();
                    let moved = tree.slots[x][i + 1].unseen();
                    tree.slots[x][i] = moved;
                    proof {
                        assert(tree.slot_seq() =~= sb.update(xi, sb[xi].update(i as int, moved)));
                        assert(s1[xi][i + 1].tgt() == ok[xi][i as int]);
                    }
                    i = i + 1;
                }
                let last = TaggedPtr::from_untagged(it.prev).unseen();
                let ghost oldprev = it.prev;
                let ghost sb = tree.slot_seq();
                tree.slots[x][k - 1] = last;
                it.cur = parent;
                it.prev = Some(x);
                let ghost ch2 = ch.drop_last();
                let ghost ks2 = ks.drop_last();
                it.chain = Ghost(ch2);
                it.ks = Ghost(ks2);
                proof {
                    assert(tree.slot_seq() =~= sb.update(xi, sb[xi].update(k - 1, last)));
                    let s2 = tree.slot_seq();
                    let m = ch.len() - 1;
                    assert(handle(oldprev) == ok[xi][k - 1]);
                    // the row holds its original children again: the
                    // converted prefix was shifted back, the rest never
                    // moved
                    assert forall|t: int| 0 <= t < N
                        implies !(#[trigger] s2[xi][t]).seen_bit() && s2[xi][t].tgt() == ok[xi][t] by {
                        if t >= k as int {
                            assert(s2[xi][t] == s1[xi][t]);
                        }
                    }
                    assert forall|v: int| 0 <= v < s1.len() && v != xi implies #[trigger] s2[v] == s1[v] by {}
                    assert(handle(parent) == (if m == 0 { None::<int> } else { Some(ch[m - 1]) }));
                    assert forall|j: int| 0 <= j < ch2.len()
                        implies chain_node_ok::<N>(ok, s2, root, ch2, ks2, j) by {
                        assert(chain_node_ok::<N>(ok, s1, root, ch, ks, j));
                        assert(ch[j] != xi);
                        assert(s2[ch[j]] == s1[ch[j]]);
                    }
                    assert forall|v: int, i2: int|
                        0 <= v < ok.len() && !ch2.contains(v) && 0 <= i2 < N
                        implies !(#[trigger] s2[v][i2]).seen_bit() && s2[v][i2].tgt() == ok[v][i2] by {
                        if v != xi {
                            assert(!ch.contains(v)) by {
                                if ch.contains(v) {
                                    let w = choose|w: int| 0 <= w < ch.len() && ch[w] == v;
                                    assert(w == m || ch2[w] == v);
                                }
                            }
                            assert(s2[v] == s1[v]);
                        }
                    }
                    match parent {
                        None => {
                            assert(m == 0);
                        },
                        Some(p) => {
                            let pi = p as int;
                            assert(m > 0) by {
                                if m == 0 {
                                    assert(handle(parent) == None::<int>);
                                }
                            }
                            assert(pi == ch[m - 1]);
                            assert(ch2.last() == pi);
                            assert(!it.fresh_at(pi));
                            assert(chain_node_ok::<N>(ok, s1, root, ch, ks, m - 1));
                            assert(ok[pi][ks[m - 1] - 1] == Some(xi));
                        },
                    }
                }
            }
        }
        proof {
            it.lemma_restored(*tree);
        }
    }
}


/// A mutable depth-first iterator in pre-order: each advance hands out
/// the handle of the next node, whose value may then be read or replaced
/// through the tree.
pub struct DfsIterMut<T, const N: usize> {
    iter: NodeIter<T, N, 0>,
}

impl<T, const N: usize> DfsIterMut<T, N> {
    /// The underlying traversal's invariant.
    pub closed spec fn inv(self, tree: Tree<T, N>) -> bool {
        self.iter.inv(tree)
    }

    /// How many values have been handed out so far.
    pub closed spec fn emitted(self) -> int {
        self.iter.emitted()
    }

    /// The handle sequence this iterator walks: the tree's pre-order.
    pub closed spec fn expected(self) -> Seq<int> {
        self.iter.expected()
    }

    /// The original child rows, restored by exhaustion or release.
    pub closed spec fn orig_kids(self) -> Seq<Seq<Option<int>>> {
        self.iter.orig_kids()
    }

    /// Hands out the next node in pre-order, or `None` at the end, when
    /// the tree again stands exactly as built.
    pub fn next(&mut self, tree: &mut Tree<T, N>) -> (r: Option<usize>)
        requires
            old(self).inv(*old(tree)),
        ensures
            final(self).inv(*final(tree)),
            final(self).orig_kids() == old(self).orig_kids(),
            final(self).expected() == old(self).expected(),
            final(tree).val_seq() == old(tree).val_seq(),
            final(tree).root_handle() == old(tree).root_handle(),
            old(self).emitted() < old(self).expected().len()
                ==> (r matches Some(h) && h as int == old(self).expected()[old(self).emitted()]
                    && final(self).emitted() == old(self).emitted() + 1),
            old(self).emitted() >= old(self).expected().len()
                ==> r is None && final(self).emitted() == old(self).emitted(),
            r is None ==> final(tree).at_rest() && final(tree).kid_seq() == final(self).orig_kids(),
            r matches Some(h) ==> (h as int) < final(tree).size(),
    {
        let r = self.iter.next(tree);
        proof {
            if r is Some {
                assert(self.iter.emitted() == old(self).emitted() + 1);
            }
        }
        r
    }

    /// Releases the iterator early: the tree's structure is restored
    /// without visiting the remaining nodes.
    pub fn finish(self, tree: &mut Tree<T, N>)
        requires
            self.inv(*old(tree)),
        ensures
            final(tree).at_rest(),
            final(tree).val_seq() == old(tree).val_seq(),
            final(tree).root_handle() == old(tree).root_handle(),
            final(tree).kid_seq() == self.orig_kids(),
    {
        self.iter.finish(tree);
    }
}

impl<T, const N: usize> Tree<T, N> {
    /// Starts a mutable pre-order traversal. Driving it to exhaustion,
    /// or releasing it with its `finish`, leaves the tree's structure
    /// exactly as it was.
    pub fn dfs_iter_mut(&self) -> (it: DfsIterMut<T, N>)
        requires
            self.at_rest(),
        ensures
            it.inv(*self),
            it.emitted() == 0,
            it.orig_kids() == self.kid_seq(),
            it.expected() == self.order(0),
    {
        DfsIterMut { iter: self.node_iter::<0>() }
    }

    /// The value of the node at `h`.
    pub fn value(&self, h: usize) -> (r: &T)
        requires
            (h as int) < self.size(),
        ensures
            *r == self.val_seq()[h as int],
    {
        &self.vals[h]
    }

    /// Replaces the value of the node at `h`; the structure is
    /// untouched.
    pub fn set_value(&mut self, h: usize, v: T)
        requires
            (h as int) < old(self).size(),
        ensures
            final(self).val_seq() == old(self).val_seq().update(h as int, v),
            final(self).slot_seq() == old(self).slot_seq(),
            final(self).root_handle() == old(self).root_handle(),
    {
        self.vals[h] = v;
    }

    /// Tears the tree down leaf-first: the traversal machine runs in
    /// "all children first" mode over every node, and the values come
    /// back in exactly that post-order — each node once, none missed,
    /// none twice.
    #[verifier::loop_isolation(false)]
    pub fn destroy(self) -> (r: Vec<T>)
        requires
            self.at_rest(),
        ensures
            r@ == self.order_vals(N as int),
            r@.len() == self.size(),
            self.order(N as int) == int_range(0, self.size()),
    {
        let mut t = self;
        let ghost vals0 = t.val_seq();
        let mut it: NodeIter<T, N, N> = t.node_iter::<N>();
        loop
            invariant
                it.inv(t),
                it.okids@ == self.kid_seq(),
                it.oroot@ == self.root_handle(),
                t.val_seq() == vals0,
                t.root_handle() == self.root_handle(),
            decreases it.expected().len() - it.emitted(),
        {
            if it.next(&mut t).is_none() {
                break;
            }
        }
        proof {
            assert(t.kid_seq() == self.kid_seq());
            match self.root_handle() {
                None => {
                    assert(self.order(N as int) =~= Seq::<int>::empty());
                    assert(self.order_vals(N as int) =~= Seq::<T>::empty());
                },
                Some(rt) => {
                    assert forall|v: int| 0 <= v < self.kid_seq().len()
                        implies (#[trigger] self.kid_seq()[v]).len() == self.kid_seq()[0].len() by {}
                    lemma_post_identity(self.kid_seq(), rt, 0);
                    assert(self.order(N as int) == int_range(0, rt + 1));
                    assert(self.order_vals(N as int) =~= vals0);
                },
            }
            assert(self.order_vals(N as int) == vals0);
        }
        let Tree { vals, slots: _, root: _ } = t;
        let mut vals = vals;
        let mut rev: Vec<T> = Vec::new();
        while vals.len() > 0
            invariant
                vals@ == vals0.take(vals@.len() as int),
                rev@.len() == vals0.len() - vals@.len(),
                forall|i: int| 0 <= i < rev@.len() ==> #[trigger] rev@[i] == vals0[vals0.len() - 1 - i],
            decreases vals@.len(),
        {
            match vals.pop() {
                Some(v) => {
                    proof {
                        assert(vals0.take(vals@.len() as int + 1).drop_last() =~= vals0.take(vals@.len() as int));
                        assert(vals0.take(vals@.len() as int + 1).last() == vals0[vals@.len() as int]);
                    }
                    rev.push(v);
                },
                None => {
                    break;
                },
            }
        }
        let mut out: Vec<T> = Vec::new();
        while rev.len() > 0
            invariant
                rev@.len() + out@.len() == vals0.len(),
                forall|i: int| 0 <= i < rev@.len() ==> #[trigger] rev@[i] == vals0[vals0.len() - 1 - i],
                forall|i: int| 0 <= i < out@.len() ==> #[trigger] out@[i] == vals0[i],
            decreases rev@.len(),
        {
            match rev.pop() {
                Some(v) => {
                    out.push(v);
                },
                None => {
                    break;
                },
            }
        }
        proof {
            assert(out@ =~= vals0);
        }
        out
    }
}


/// Idempotent re-traversal, and abandonment safety: a tree whose
/// structure, root and values stand as another's — as they do after a
/// traversal is driven to exhaustion, or stopped early and released —
/// orders every traversal exactly as that other tree does.
pub proof fn lemma_restored_tree_same_order<T, const N: usize>(t1: Tree<T, N>, t2: Tree<T, N>, ra: int)
    requires
        t2.kid_seq() == t1.kid_seq(),
        t2.root_handle() == t1.root_handle(),
        t2.val_seq() == t1.val_seq(),
    ensures
        t2.order(ra) == t1.order(ra),
        t2.order_vals(ra) == t1.order_vals(ra),
{
}


/// Destruction completeness, seen from any yield point: a tree at rest
/// orders each of its nodes exactly once per traversal, so every order
/// — the leaf-first tear-down's included — has exactly `size` entries.
pub proof fn lemma_order_counts_nodes<T, const N: usize>(t: Tree<T, N>, ra: int)
    requires
        0 <= ra,
        t.at_rest(),
    ensures
        t.order(ra).len() == t.size(),
        t.order_vals(ra).len() == t.size(),
{
    match t.root_handle() {
        None => {
            assert(t.order(ra) =~= Seq::<int>::empty());
            assert(t.order_vals(ra) =~= Seq::<T>::empty());
        },
        Some(r) => {
            crate::order::lemma_ord_len(t.kid_seq(), r, 0, ra);
        },
    }
}


/// The pre-order iterator's form of [`lemma_inv_after_set_value`].
pub proof fn lemma_dfs_inv_after_set_value<T, const N: usize>(
    it: DfsIterMut<T, N>,
    t1: Tree<T, N>,
    t2: Tree<T, N>,
)
    requires
        it.inv(t1),
        t2.slot_seq() == t1.slot_seq(),
        t2.root_handle() == t1.root_handle(),
        t2.val_seq().len() == t1.val_seq().len(),
    ensures
        it.inv(t2),
{
    lemma_inv_after_set_value(it.iter, t1, t2);
}

/// Replacing values does not disturb a live traversal: the iterator's
/// invariant depends on the tree's slots and root alone, never on what
/// the nodes hold — mutation through a live iterator is safe.
pub proof fn lemma_inv_after_set_value<T, const N: usize, const R: usize>(
    it: NodeIter<T, N, R>,
    t1: Tree<T, N>,
    t2: Tree<T, N>,
)
    requires
        it.inv(t1),
        t2.slot_seq() == t1.slot_seq(),
        t2.root_handle() == t1.root_handle(),
        t2.val_seq().len() == t1.val_seq().len(),
    ensures
        it.inv(t2),
{
}

} // verus!
