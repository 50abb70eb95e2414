//! Specification of visitation orders over an arena encoding of a tree.
//!
//! An arena is described by `ok`: for each node handle, the sequence of its
//! child handles (`None` for an absent child). A well-formed subtree rooted
//! at `r` occupies the contiguous handle range `lo ..= r`, with the root at
//! the top of its range and the children's ranges partitioning `lo .. r`
//! from left to right — the layout a post-order construction produces.
//!
//! `ord(ok, r, ra)` is the generalized depth-first visitation order with
//! yield point `ra`: a node is listed after its first `ra` children's
//! subtrees and before the rest. `ra == 0` is pre-order; `ra == arity` is
//! post-order; for binary trees `ra == 1` is in-order.

use vstd::prelude::*;

verus! {

/// Do the children `kids[j..]` of a node own exactly the handle range
/// `lo .. hi`, as consecutive contiguous subtree ranges?
pub open spec fn kids_wf(ok: Seq<Seq<Option<int>>>, kids: Seq<Option<int>>, j: int, lo: int, hi: int) -> bool
    decreases hi, 0int, kids.len() - j,
{
    if j < 0 || j >= kids.len() {
        lo == hi
    } else {
        match kids[j] {
            None => kids_wf(ok, kids, j + 1, lo, hi),
            Some(c) => 0 <= lo <= c < hi && sub_wf(ok, c, lo) && kids_wf(ok, kids, j + 1, c + 1, hi),
        }
    }
}

/// Is `r` the root of a well-formed subtree owning exactly the handle
/// range `lo ..= r`?
pub open spec fn sub_wf(ok: Seq<Seq<Option<int>>>, r: int, lo: int) -> bool
    decreases r, 1int, 0int,
{
    0 <= lo <= r < ok.len() && kids_wf(ok, ok[r], 0, lo, r)
}

/// A whole arena is well formed when its root subtree owns every handle.
pub open spec fn arena_wf(ok: Seq<Seq<Option<int>>>, root: Option<int>) -> bool {
    match root {
        None => ok.len() == 0,
        Some(r) => r == ok.len() - 1 && sub_wf(ok, r, 0),
    }
}

/// The concatenated `ra`-orders of the children `i .. j` of node `r`.
pub open spec fn ords_range(ok: Seq<Seq<Option<int>>>, r: int, i: int, j: int, ra: int) -> Seq<int>
    decreases r, 0int, j - i,
{
    if i >= j {
        Seq::empty()
    } else {
        (match ok[r][i] {
            None => Seq::<int>::empty(),
            Some(c) => if 0 <= c < r {
                ord(ok, c, ra)
            } else {
                Seq::empty()
            },
        }) + ords_range(ok, r, i + 1, j, ra)
    }
}

/// The `ra`-order visitation sequence of the subtree rooted at `r`: the
/// node itself is listed after its first `ra` children's subtrees.
pub open spec fn ord(ok: Seq<Seq<Option<int>>>, r: int, ra: int) -> Seq<int>
    decreases r, 1int, 0int,
{
    if r < 0 {
        Seq::empty()
    } else {
        let n = ok[r].len() as int;
        let m = if ra <= n { ra } else { n };
        ords_range(ok, r, 0, m, ra) + seq![r] + ords_range(ok, r, m, n, ra)
    }
}

/// The `ra`-order of a whole, possibly empty, tree.
pub open spec fn full_ord(ok: Seq<Seq<Option<int>>>, root: Option<int>, ra: int) -> Seq<int> {
    match root {
        None => Seq::empty(),
        Some(r) => ord(ok, r, ra),
    }
}

/// What remains of `ord(ok, c, ra)` once the subtrees of the first `k`
/// children are fully traversed and, if `k > ra`, the node itself has been
/// yielded.
pub open spec fn suffix_ord(ok: Seq<Seq<Option<int>>>, c: int, k: int, ra: int) -> Seq<int> {
    let n = ok[c].len() as int;
    if k <= ra {
        ords_range(ok, c, k, if ra <= n { ra } else { n }, ra) + seq![c] + ords_range(ok, c, if ra <= n { ra } else { n }, n, ra)
    } else {
        ords_range(ok, c, k, n, ra)
    }
}

/// What remains of the whole traversal for a descent chain `ch` whose
/// node `ch[j]` has `ks[j]` children already converted: the innermost
/// node's remainder first, the root's last.
pub open spec fn rest_of(ok: Seq<Seq<Option<int>>>, ch: Seq<int>, ks: Seq<int>, ra: int) -> Seq<int>
    decreases ch.len(),
{
    if ch.len() == 0 {
        Seq::empty()
    } else {
        suffix_ord(ok, ch.last(), ks.last(), ra) + rest_of(ok, ch.drop_last(), ks.drop_last(), ra)
    }
}

/// The integer sequence `a, a + 1, ..., b - 1`.
pub open spec fn int_range(a: int, b: int) -> Seq<int> {
    Seq::new(if b >= a { (b - a) as nat } else { 0 }, |i: int| a + i)
}

/// The values stored at a sequence of handles.
pub open spec fn pick<A>(vs: Seq<A>, idx: Seq<int>) -> Seq<A> {
    idx.map_values(|x: int| vs[x])
}

/// `pick` distributes over concatenation of handle sequences.
pub proof fn lemma_pick_concat<A>(vs: Seq<A>, a: Seq<int>, b: Seq<int>)
    ensures
        pick(vs, a + b) == pick(vs, a) + pick(vs, b),
{
    assert(pick(vs, a + b) =~= pick(vs, a) + pick(vs, b));
}

/// `pick` only reads the handles listed, so value updates elsewhere do
/// not change it.
pub proof fn lemma_pick_stable<A>(vs1: Seq<A>, vs2: Seq<A>, idx: Seq<int>, lo: int, hi: int)
    requires
        forall|i: int| 0 <= i < idx.len() ==> lo <= #[trigger] idx[i] <= hi,
        forall|v: int| lo <= v <= hi ==> vs2[v] == vs1[v],
    ensures
        pick(vs2, idx) == pick(vs1, idx),
{
    assert(pick(vs2, idx) =~= pick(vs1, idx));
}

/// A subtree's well-formedness and order depend only on the entries in
/// its own handle range, so extending or rewriting the arena elsewhere
/// changes neither; moreover every handle the order lists lies in that
/// range.
pub proof fn lemma_frame_sub(ok1: Seq<Seq<Option<int>>>, ok2: Seq<Seq<Option<int>>>, r: int, lo: int, ra: int)
    requires
        0 <= ra,
        sub_wf(ok1, r, lo),
        ok1.len() <= ok2.len(),
        forall|v: int| lo <= v <= r ==> ok2[v] == ok1[v],
    ensures
        sub_wf(ok2, r, lo),
        ord(ok2, r, ra) == ord(ok1, r, ra),
        forall|i: int| 0 <= i < ord(ok1, r, ra).len() ==> lo <= #[trigger] ord(ok1, r, ra)[i] <= r,
    decreases r, 1int, 0int,
{
    lemma_frame_kids(ok1, ok2, r, 0, lo, r, ra);
    let n = ok1[r].len() as int;
    let m = if ra <= n { ra } else { n };
    lemma_split_range(ok1, r, 0, m, n, ra);
    lemma_split_range(ok2, r, 0, m, n, ra);
    lemma_cancel_right(
        ords_range(ok2, r, 0, m, ra),
        ords_range(ok2, r, m, n, ra),
        ords_range(ok1, r, 0, m, ra),
        ords_range(ok1, r, m, n, ra),
    );
    assert(ord(ok2, r, ra) == ord(ok1, r, ra));
    assert forall|i: int| 0 <= i < ord(ok1, r, ra).len() implies lo <= #[trigger] ord(ok1, r, ra)[i] <= r by {
        let full = ords_range(ok1, r, 0, n, ra);
        let a = ords_range(ok1, r, 0, m, ra);
        if i < a.len() {
            assert(ord(ok1, r, ra)[i] == a[i]);
            assert(a[i] == full[i]);
        } else if i == a.len() {
            assert(ord(ok1, r, ra)[i] == r);
        } else {
            assert(ord(ok1, r, ra)[i] == ords_range(ok1, r, m, n, ra)[i - a.len() - 1]);
            assert(ords_range(ok1, r, m, n, ra)[i - a.len() - 1] == full[i - 1]);
        }
    }
}

/// If `a + b == c + d` and `b == d`, the left parts agree too.
pub proof fn lemma_cancel_right<A>(a: Seq<A>, b: Seq<A>, c: Seq<A>, d: Seq<A>)
    requires
        a + b == c + d,
        b == d,
    ensures
        a == c,
{
    assert((a + b).len() == a.len() + b.len());
    assert((c + d).len() == c.len() + d.len());
    assert(a.len() == c.len());
    assert forall|i: int| 0 <= i < a.len() implies a[i] == c[i] by {
        assert((a + b)[i] == a[i]);
        assert((c + d)[i] == c[i]);
    }
    assert(a =~= c);
}

/// The members of `kids[j..]` of node `r`, owning `lo .. hi`, keep their
/// well-formedness and order under an arena extension that agrees on
/// `lo ..= r`, and their concatenated order lists only handles from
/// that range.
pub proof fn lemma_frame_kids(ok1: Seq<Seq<Option<int>>>, ok2: Seq<Seq<Option<int>>>, r: int, j: int, lo: int, hi: int, ra: int)
    requires
        0 <= ra,
        0 <= r < ok1.len(),
        0 <= j,
        kids_wf(ok1, ok1[r], j, lo, hi),
        lo <= hi <= r,
        ok1.len() <= ok2.len(),
        forall|v: int| lo <= v <= r ==> ok2[v] == ok1[v],
    ensures
        kids_wf(ok2, ok1[r], j, lo, hi),
        forall|t: int| j <= t <= ok1[r].len()
            ==> ords_range(ok2, r, t, ok1[r].len() as int, ra) == ords_range(ok1, r, t, ok1[r].len() as int, ra),
        forall|i: int| 0 <= i < ords_range(ok1, r, j, ok1[r].len() as int, ra).len()
            ==> lo <= #[trigger] ords_range(ok1, r, j, ok1[r].len() as int, ra)[i] < hi,
    decreases hi, 0int, ok1[r].len() - j,
{
    let n = ok1[r].len() as int;
    if j >= n {
        if j == n {
            assert(ords_range(ok2, r, n, n, ra) == ords_range(ok1, r, n, n, ra));
        }
    } else {
        match ok1[r][j] {
            None => {
                lemma_frame_kids(ok1, ok2, r, j + 1, lo, hi, ra);
                assert(ok2[r] == ok1[r]);
                assert(ords_range(ok1, r, j + 1, n, ra) == ords_range(ok2, r, j + 1, n, ra));
                assert(ords_range(ok1, r, j, n, ra) == Seq::<int>::empty() + ords_range(ok1, r, j + 1, n, ra));
                assert(ords_range(ok2, r, j, n, ra) == Seq::<int>::empty() + ords_range(ok2, r, j + 1, n, ra));
                assert(ords_range(ok2, r, j, n, ra) == ords_range(ok1, r, j, n, ra));
            },
            Some(c) => {
                lemma_frame_sub(ok1, ok2, c, lo, ra);
                lemma_frame_kids(ok1, ok2, r, j + 1, c + 1, hi, ra);
                assert(ok2[r] == ok1[r]);
                assert(ords_range(ok1, r, j + 1, n, ra) == ords_range(ok2, r, j + 1, n, ra));
                assert(ord(ok2, c, ra) == ord(ok1, c, ra));
                assert(ords_range(ok1, r, j, n, ra) == ord(ok1, c, ra) + ords_range(ok1, r, j + 1, n, ra));
                assert(ords_range(ok2, r, j, n, ra) == ord(ok2, c, ra) + ords_range(ok2, r, j + 1, n, ra));
                assert(ords_range(ok2, r, j, n, ra) == ords_range(ok1, r, j, n, ra));
                assert forall|i: int| 0 <= i < ords_range(ok1, r, j, n, ra).len()
                    implies lo <= #[trigger] ords_range(ok1, r, j, n, ra)[i] < hi by {
                    let cd = ord(ok1, c, ra);
                    if i < cd.len() {
                        assert(ords_range(ok1, r, j, n, ra)[i] == cd[i]);
                    } else {
                        assert(ords_range(ok1, r, j, n, ra)[i] == ords_range(ok1, r, j + 1, n, ra)[i - cd.len()]);
                    }
                }
            },
        }
    }
}

/// Splitting a child range at `m` splits its concatenated order.
pub proof fn lemma_split_range(ok: Seq<Seq<Option<int>>>, r: int, i: int, m: int, j: int, ra: int)
    requires
        i <= m <= j,
    ensures
        ords_range(ok, r, i, j, ra) == ords_range(ok, r, i, m, ra) + ords_range(ok, r, m, j, ra),
    decreases m - i,
{
    if i >= m {
        assert(ords_range(ok, r, i, m, ra) == Seq::<int>::empty());
        assert(ords_range(ok, r, i, m, ra) + ords_range(ok, r, m, j, ra) =~= ords_range(ok, r, m, j, ra));
    } else {
        lemma_split_range(ok, r, i + 1, m, j, ra);
        let head = match ok[r][i] {
            None => Seq::<int>::empty(),
            Some(c) => if 0 <= c < r {
                ord(ok, c, ra)
            } else {
                Seq::empty()
            },
        };
        assert(ords_range(ok, r, i, j, ra) == head + (ords_range(ok, r, i + 1, m, ra) + ords_range(ok, r, m, j, ra)));
        assert(head + (ords_range(ok, r, i + 1, m, ra) + ords_range(ok, r, m, j, ra))
            =~= (head + ords_range(ok, r, i + 1, m, ra)) + ords_range(ok, r, m, j, ra));
    }
}

/// Converting slot `k` of node `x` advances its traversal remainder by
/// the node's own yield (exactly when `k == ra`) followed by the `ra`-
/// order of the `k`-th child's subtree.
pub proof fn lemma_suffix_step(ok: Seq<Seq<Option<int>>>, x: int, k: int, ra: int)
    requires
        0 <= x,
        0 <= k < ok[x].len(),
        0 <= ra <= ok[x].len(),
    ensures
        suffix_ord(ok, x, k, ra) == (if k == ra {
            seq![x]
        } else {
            Seq::empty()
        }) + (match ok[x][k] {
            None => Seq::<int>::empty(),
            Some(c) => if 0 <= c < x {
                ord(ok, c, ra)
            } else {
                Seq::empty()
            },
        }) + suffix_ord(ok, x, k + 1, ra),
{
    let n = ok[x].len() as int;
    let head = match ok[x][k] {
        None => Seq::<int>::empty(),
        Some(c) => if 0 <= c < x {
            ord(ok, c, ra)
        } else {
            Seq::empty()
        },
    };
    if k < ra {
        assert(ords_range(ok, x, k, ra, ra) == head + ords_range(ok, x, k + 1, ra, ra));
        assert(suffix_ord(ok, x, k, ra) == (head + ords_range(ok, x, k + 1, ra, ra)) + seq![x] + ords_range(ok, x, ra, n, ra));
        assert((head + ords_range(ok, x, k + 1, ra, ra)) + seq![x] + ords_range(ok, x, ra, n, ra)
            =~= (Seq::<int>::empty() + head) + (ords_range(ok, x, k + 1, ra, ra) + seq![x] + ords_range(ok, x, ra, n, ra)));
    } else if k == ra {
        assert(ords_range(ok, x, k, ra, ra) =~= Seq::<int>::empty());
        assert(ords_range(ok, x, ra, n, ra) == head + ords_range(ok, x, ra + 1, n, ra));
        assert(suffix_ord(ok, x, k, ra) == Seq::<int>::empty() + seq![x] + (head + ords_range(ok, x, ra + 1, n, ra)));
        assert(suffix_ord(ok, x, k + 1, ra) == ords_range(ok, x, k + 1, n, ra));
        assert(Seq::<int>::empty() + seq![x] + (head + ords_range(ok, x, ra + 1, n, ra))
            =~= (seq![x] + head) + ords_range(ok, x, k + 1, n, ra));
    } else {
        assert(suffix_ord(ok, x, k, ra) == head + ords_range(ok, x, k + 1, n, ra));
        assert(head + ords_range(ok, x, k + 1, n, ra)
            =~= (Seq::<int>::empty() + head) + ords_range(ok, x, k + 1, n, ra));
    }
}

/// A node whose every slot is converted has only its own yield left
/// (exactly when `ra` is the arity).
pub proof fn lemma_suffix_end(ok: Seq<Seq<Option<int>>>, x: int, ra: int)
    requires
        0 <= ra <= ok[x].len(),
    ensures
        suffix_ord(ok, x, ok[x].len() as int, ra) == (if ra == ok[x].len() {
            seq![x]
        } else {
            Seq::empty()
        }),
{
    let n = ok[x].len() as int;
    if ra == n {
        assert(ords_range(ok, x, n, n, ra) =~= Seq::<int>::empty());
        assert(Seq::<int>::empty() + seq![x] + Seq::<int>::empty() =~= seq![x]);
    } else {
        assert(ords_range(ok, x, n, n, ra) =~= Seq::<int>::empty());
    }
}

/// Peeling the head off a known remainder of a sequence.
pub proof fn lemma_skip_head(s: Seq<int>, d: int, e: int, t: Seq<int>)
    requires
        0 <= d <= s.len(),
        s.skip(d) == seq![e] + t,
    ensures
        d < s.len(),
        s[d] == e,
        s.skip(d + 1) == t,
{
    assert(s.skip(d).len() == s.len() - d);
    assert((seq![e] + t).len() == 1 + t.len());
    assert(s.skip(d)[0] == s[d]);
    assert((seq![e] + t)[0] == e);
    assert forall|i: int| 0 <= i < t.len() implies s.skip(d + 1)[i] == t[i] by {
        assert(s.skip(d)[i + 1] == s[d + i + 1]);
        assert((seq![e] + t)[i + 1] == t[i]);
        assert(s.skip(d + 1)[i] == s[d + 1 + i]);
    }
    assert(s.skip(d + 1) =~= t);
}

/// Every child handle in a well-formed subtree lies in the subtree's own
/// range and strictly below its parent.
pub proof fn lemma_kid_bounds_sub(ok: Seq<Seq<Option<int>>>, r: int, lo: int)
    requires
        sub_wf(ok, r, lo),
    ensures
        forall|v: int, i: int| lo <= v <= r && 0 <= i < ok[v].len() && (#[trigger] ok[v][i]) is Some
            ==> lo <= ok[v][i]->Some_0 < v,
    decreases r, 1int, 0int,
{
    lemma_kid_bounds_kids(ok, r, 0, lo, r);
}

/// The same, for the children `kids[j..]` of node `r` owning `lo .. hi`:
/// the nodes of those subtrees are exactly a subset of `lo .. hi`, and
/// node `r`'s own remaining child handles lie in `lo .. hi` too.
pub proof fn lemma_kid_bounds_kids(ok: Seq<Seq<Option<int>>>, r: int, j: int, lo: int, hi: int)
    requires
        0 <= r < ok.len(),
        0 <= j,
        lo <= hi <= r,
        kids_wf(ok, ok[r], j, lo, hi),
    ensures
        forall|v: int, i: int| lo <= v < hi && 0 <= i < ok[v].len() && (#[trigger] ok[v][i]) is Some
            ==> lo <= ok[v][i]->Some_0 < v,
        forall|t: int| j <= t < ok[r].len() && (#[trigger] ok[r][t]) is Some
            ==> lo <= ok[r][t]->Some_0 < hi,
    decreases hi, 0int, ok[r].len() - j,
{
    let n = ok[r].len() as int;
    if j >= n {
    } else {
        match ok[r][j] {
            None => {
                lemma_kid_bounds_kids(ok, r, j + 1, lo, hi);
            },
            Some(c) => {
                lemma_kid_bounds_sub(ok, c, lo);
                lemma_kid_bounds_kids(ok, r, j + 1, c + 1, hi);
            },
        }
    }
}

/// In a well-formed subtree the post-order (`ra` = arity everywhere) is
/// exactly the subtree's handle range in increasing order.
pub proof fn lemma_post_identity(ok: Seq<Seq<Option<int>>>, r: int, lo: int)
    requires
        sub_wf(ok, r, lo),
        forall|v: int| 0 <= v < ok.len() ==> (#[trigger] ok[v]).len() == ok[0].len(),
    ensures
        ord(ok, r, ok[r].len() as int) == int_range(lo, r + 1),
    decreases r, 1int, 0int,
{
    let n = ok[r].len() as int;
    lemma_post_identity_kids(ok, r, 0, lo, r);
    assert(ords_range(ok, r, 0, n, n) + seq![r] =~= int_range(lo, r + 1));
}

/// The concatenated post-orders of `kids[j..]` of node `r` list exactly
/// the handle range those children own, in increasing order.
pub proof fn lemma_post_identity_kids(ok: Seq<Seq<Option<int>>>, r: int, j: int, lo: int, hi: int)
    requires
        0 <= r < ok.len(),
        0 <= j,
        lo <= hi <= r,
        kids_wf(ok, ok[r], j, lo, hi),
        forall|v: int| 0 <= v < ok.len() ==> (#[trigger] ok[v]).len() == ok[0].len(),
    ensures
        ords_range(ok, r, j, ok[r].len() as int, ok[r].len() as int) == int_range(lo, hi),
    decreases hi, 0int, ok[r].len() - j,
{
    let n = ok[r].len() as int;
    if j >= n {
        assert(ords_range(ok, r, j, n, n) =~= int_range(lo, hi));
    } else {
        match ok[r][j] {
            None => {
                lemma_post_identity_kids(ok, r, j + 1, lo, hi);
                assert(Seq::<int>::empty() + ords_range(ok, r, j + 1, n, n)
                    =~= ords_range(ok, r, j + 1, n, n));
            },
            Some(c) => {
                lemma_post_identity(ok, c, lo);
                lemma_post_identity_kids(ok, r, j + 1, c + 1, hi);
                assert(ord(ok, c, n) + ords_range(ok, r, j + 1, n, n) =~= int_range(lo, hi));
            },
        }
    }
}


/// A well-formed subtree's order, at any yield point, lists exactly as
/// many entries as the subtree owns handles.
pub proof fn lemma_ord_len(ok: Seq<Seq<Option<int>>>, r: int, lo: int, ra: int)
    requires
        0 <= ra,
        sub_wf(ok, r, lo),
    ensures
        ord(ok, r, ra).len() == r - lo + 1,
    decreases r, 1int, 0int,
{
    let n = ok[r].len() as int;
    let m = if ra <= n { ra } else { n };
    lemma_ord_len_kids(ok, r, 0, lo, r, ra);
    lemma_split_range(ok, r, 0, m, n, ra);
}

/// The children `kids[j..]` of node `r`, owning `lo .. hi`, contribute
/// exactly `hi - lo` entries to any order.
pub proof fn lemma_ord_len_kids(ok: Seq<Seq<Option<int>>>, r: int, j: int, lo: int, hi: int, ra: int)
    requires
        0 <= ra,
        0 <= r < ok.len(),
        0 <= j,
        lo <= hi <= r,
        kids_wf(ok, ok[r], j, lo, hi),
    ensures
        ords_range(ok, r, j, ok[r].len() as int, ra).len() == hi - lo,
    decreases hi, 0int, ok[r].len() - j,
{
    let n = ok[r].len() as int;
    if j >= n {
    } else {
        match ok[r][j] {
            None => {
                lemma_ord_len_kids(ok, r, j + 1, lo, hi, ra);
            },
            Some(c) => {
                lemma_ord_len(ok, c, lo, ra);
                lemma_ord_len_kids(ok, r, j + 1, c + 1, hi, ra);
            },
        }
    }
}

} // verus!
