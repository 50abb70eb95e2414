//! Deterministic tree fixtures built from raw byte strings, for
//! property testing: one byte becomes a node's value, and a fixed-width
//! split point per non-final child carves the remaining bytes into the
//! children's inputs. Alongside the tree comes its expected pre-order
//! value sequence — which the tree's own traversal is proved to match.
//!
//! The whole construction is restated at the specification level by
//! [`arb_vals`], byte arithmetic and all, so the builder's contract
//! pins its result as a pure function of the input bytes.

use vstd::prelude::*;

use crate::nary_tree::{nwf_kids, ovals_kids, Node, Tree};

verus! {

/// `ovals_kids` reads only the entries in `i .. j`, so any two child
/// lists agreeing there agree on it.
proof fn lemma_ovals_kids_agree<T, const N: usize>(
    ck1: Seq<Option<Box<Node<T, N>>>>,
    ck2: Seq<Option<Box<Node<T, N>>>>,
    i: int,
    j: int,
    ra: int,
)
    requires
        0 <= i,
        j <= ck1.len(),
        j <= ck2.len(),
        forall|t: int| i <= t < j ==> ck2[t] == ck1[t],
    ensures
        ovals_kids(ck2, i, j, ra) == ovals_kids(ck1, i, j, ra),
    decreases j - i,
{
    if i < j {
        lemma_ovals_kids_agree(ck1, ck2, i + 1, j, ra);
        assert(ck2[i] == ck1[i]);
    }
}

/// A child list whose members below `j` are all well formed is well
/// formed from `j` on.
proof fn lemma_nwf_kids_from<T, const N: usize>(ck: Seq<Option<Box<Node<T, N>>>>, j: int)
    requires
        0 <= j,
        forall|t: int| j <= t < ck.len() ==> ((#[trigger] ck[t]) matches Some(c) ==> c.nwf()),
    ensures
        nwf_kids(ck, j),
    decreases ck.len() - j,
{
    if j < ck.len() {
        lemma_nwf_kids_from(ck, j + 1);
    }
}

/// Absent children contribute no values.
proof fn lemma_ovals_kids_none<T, const N: usize>(ck: Seq<Option<Box<Node<T, N>>>>, i: int, j: int, ra: int)
    requires
        0 <= i,
        j <= ck.len(),
        forall|t: int| i <= t < j ==> (#[trigger] ck[t]) is None,
    ensures
        ovals_kids(ck, i, j, ra) == Seq::<T>::empty(),
    decreases j - i,
{
    if i < j {
        lemma_ovals_kids_none(ck, i + 1, j, ra);
        assert(ovals_kids(ck, i, j, ra) =~= Seq::<T>::empty());
    } else {
        assert(ovals_kids(ck, i, j, ra) =~= Seq::<T>::empty());
    }
}

/// Are the entries in ascending order?
spec fn fences_sorted(s: Seq<usize>) -> bool {
    forall|a: int, b: int| 0 <= a < b < s.len() ==> s[a] <= s[b]
}

/// `x` placed into a sorted sequence, before the first entry not below
/// it.
pub open spec fn insert_sorted(x: usize, s: Seq<usize>) -> Seq<usize>
    decreases s.len(),
{
    if s.len() == 0 {
        seq![x]
    } else if x <= s[0] {
        seq![x] + s
    } else {
        seq![s[0]] + insert_sorted(x, s.drop_first())
    }
}

/// The first `i` entries of `s`, sorted by inserting them left to
/// right.
pub open spec fn sort_upto(s: Seq<usize>, i: int) -> Seq<usize>
    decreases i,
{
    if i <= 0 {
        Seq::empty()
    } else {
        insert_sorted(s[i - 1], sort_upto(s, i - 1))
    }
}

/// The sequence sorted ascending.
pub open spec fn sort_seq(s: Seq<usize>) -> Seq<usize> {
    sort_upto(s, s.len() as int)
}

/// Inserting at the position scanned for — everything before it below
/// `x`, the entry at it (if any) not — is exactly `insert_sorted`.
proof fn lemma_insert_sorted_at(x: usize, s: Seq<usize>, p: int)
    requires
        fences_sorted(s),
        0 <= p <= s.len(),
        forall|t: int| 0 <= t < p ==> s[t] < x,
        p == s.len() || s[p] >= x,
    ensures
        insert_sorted(x, s) == s.take(p) + seq![x] + s.skip(p),
    decreases p,
{
    if p == 0 {
        if s.len() == 0 {
            assert(insert_sorted(x, s) =~= s.take(0) + seq![x] + s.skip(0));
        } else {
            assert(x <= s[0]);
            assert(seq![x] + s =~= s.take(0) + seq![x] + s.skip(0));
        }
    } else {
        assert(s[0] < x);
        let d = s.drop_first();
        assert(fences_sorted(d));
        lemma_insert_sorted_at(x, d, p - 1);
        assert(seq![s[0]] + (d.take(p - 1) + seq![x] + d.skip(p - 1))
            =~= s.take(p) + seq![x] + s.skip(p));
    }
}

/// Sorts the split points: the result is exactly `sort_seq` of the
/// input, ascending, with every entry still within its bound.
#[verifier::loop_isolation(false)]
fn sort_fences(f: &Vec<usize>, bound: Ghost<int>) -> (out: Vec<usize>)
    requires
        forall|t: int| 0 <= t < f@.len() ==> f@[t] <= bound@,
    ensures
        out@ == sort_seq(f@),
        out@.len() == f@.len(),
        forall|t: int| 0 <= t < out@.len() ==> out@[t] <= bound@,
        fences_sorted(out@),
{
    let mut out: Vec<usize> = Vec::new();
    let mut i: usize = 0;
    while i < f.len()
        invariant
            i <= f@.len(),
            out@ == sort_upto(f@, i as int),
            out@.len() == i,
            forall|t: int| 0 <= t < out@.len() ==> out@[t] <= bound@,
            fences_sorted(out@),
        decreases f@.len() - i,
    {
        let x = f[i];
        let mut pos: usize = 0;
        while pos < out.len() && out[pos] < x
            invariant
                pos <= out@.len(),
                forall|t: int| 0 <= t < pos ==> out@[t] < x,
            decreases out@.len() - pos,
        {
            pos = pos + 1;
        }
        let ghost before = out@;
        out.insert(pos, x);
        proof {
            lemma_insert_sorted_at(x, before, pos as int);
            assert(out@ =~= before.take(pos as int) + seq![x] + before.skip(pos as int));
            assert(out@ == insert_sorted(x, before));
            assert(out@ == sort_upto(f@, i as int + 1));
            assert forall|t: int| 0 <= t < out@.len() implies out@[t] <= bound@ by {
                if t < pos as int {
                    assert(out@[t] == before[t]);
                } else if t == pos as int {
                    assert(out@[t] == x);
                } else {
                    assert(out@[t] == before[t - 1]);
                }
            }
            assert(fences_sorted(out@)) by {
                assert forall|a: int, b: int| 0 <= a < b < out@.len() implies out@[a] <= out@[b] by {
                    if a < pos && b == pos {
                        assert(out@[a] == before[a]);
                    } else if a == pos && b > pos {
                        assert(out@[b] == before[b - 1]);
                        assert(before[b - 1] >= x) by {
                            if b - 1 > pos as int - 1 && (pos as int) < before.len() {
                                assert(before[pos as int] <= before[b - 1] || pos as int == b - 1);
                            }
                        }
                    }
                }
            }
        }
        i = i + 1;
    }
    out
}

/// The split points one non-leaf node reads: 0 first, then, for each
/// other child, two bytes little-endian reduced into the remaining
/// length — all sorted ascending.
pub open spec fn fences_spec<const N: usize>(data: Seq<u8>, body: int, rest_len: int) -> Seq<usize> {
    sort_seq(
        Seq::new(N as nat, |t: int| if t == 0 {
            0usize
        } else {
            (((data[body + 2 * (t - 1)] as int) + 256 * (data[body + 2 * (t - 1) + 1] as int)) % (rest_len + 1)) as usize
        }),
    )
}

/// The `ra`-order value sequence of the tree that the byte range
/// `start .. end` builds: empty range, no node; otherwise the first
/// byte is the node's value, and — when enough bytes follow to carve
/// children — the split points delimit the children's byte ranges.
pub open spec fn arb_vals<const N: usize>(data: Seq<u8>, start: int, end: int, ra: int) -> Seq<u8>
    decreases end - start, 0int, 0int,
{
    if start < 0 || start >= end || end > data.len() || N < 1 {
        Seq::empty()
    } else {
        let val = data[start];
        let body = start + 1;
        let avail = end - body;
        if avail < 2 * (N - 1) {
            seq![val]
        } else {
            let rest_start = body + 2 * (N - 1);
            let rest_len = end - rest_start;
            let fences = fences_spec::<N>(data, body, rest_len);
            let m = if ra <= N { ra } else { N as int };
            arb_kids::<N>(data, rest_start, end, fences, 0, m, ra) + seq![val]
                + arb_kids::<N>(data, rest_start, end, fences, m, N as int, ra)
        }
    }
}

/// The concatenated `ra`-order values of the children `i .. j`, whose
/// byte ranges neighbouring split points delimit (the last child runs
/// to the end of the node's range).
pub open spec fn arb_kids<const N: usize>(data: Seq<u8>, rest_start: int, end: int, fences: Seq<usize>, i: int, j: int, ra: int) -> Seq<u8>
    decreases end - rest_start, 1int, j - i,
{
    if i >= j || rest_start > end || rest_start < 0 {
        Seq::empty()
    } else {
        let lo = rest_start + fences[i] as int;
        let hi = if i + 1 < N {
            rest_start + fences[i + 1] as int
        } else {
            end
        };
        (if lo <= hi <= end {
            arb_vals::<N>(data, lo, hi, ra)
        } else {
            Seq::empty()
        }) + arb_kids::<N>(data, rest_start, end, fences, i + 1, j, ra)
    }
}

/// Splitting a child range splits its concatenated mirror values.
proof fn lemma_arb_kids_split<const N: usize>(data: Seq<u8>, rest_start: int, end: int, fences: Seq<usize>, i: int, m: int, j: int, ra: int)
    requires
        i <= m <= j,
    ensures
        arb_kids::<N>(data, rest_start, end, fences, i, j, ra)
            == arb_kids::<N>(data, rest_start, end, fences, i, m, ra)
                + arb_kids::<N>(data, rest_start, end, fences, m, j, ra),
    decreases m - i,
{
    if i >= m {
        assert(arb_kids::<N>(data, rest_start, end, fences, i, m, ra) =~= Seq::<u8>::empty());
        assert(Seq::<u8>::empty() + arb_kids::<N>(data, rest_start, end, fences, m, j, ra)
            =~= arb_kids::<N>(data, rest_start, end, fences, m, j, ra));
    } else {
        lemma_arb_kids_split::<N>(data, rest_start, end, fences, i + 1, m, j, ra);
        if rest_start > end || rest_start < 0 {
            assert(arb_kids::<N>(data, rest_start, end, fences, i, j, ra) =~= Seq::<u8>::empty());
            assert(arb_kids::<N>(data, rest_start, end, fences, i, m, ra) =~= Seq::<u8>::empty());
            assert(arb_kids::<N>(data, rest_start, end, fences, m, j, ra) =~= Seq::<u8>::empty());
            assert(Seq::<u8>::empty() + Seq::<u8>::empty() =~= Seq::<u8>::empty());
        } else {
            let lo = rest_start + fences[i] as int;
            let hi = if i + 1 < N {
                rest_start + fences[i + 1] as int
            } else {
                end
            };
            let head = if lo <= hi <= end {
                arb_vals::<N>(data, lo, hi, ra)
            } else {
                Seq::<u8>::empty()
            };
            assert(head + (arb_kids::<N>(data, rest_start, end, fences, i + 1, m, ra)
                    + arb_kids::<N>(data, rest_start, end, fences, m, j, ra))
                =~= (head + arb_kids::<N>(data, rest_start, end, fences, i + 1, m, ra))
                    + arb_kids::<N>(data, rest_start, end, fences, m, j, ra));
        }
    }
}

/// One built child mirrors its byte range: an absent child's range
/// yields nothing, a present child's `ra`-order values are exactly the
/// mirror's for that range.
spec fn kid_mirror<const N: usize>(
    data: Seq<u8>,
    rest_start: int,
    end: int,
    fences: Seq<usize>,
    ck: Seq<Option<Box<Node<u8, N>>>>,
    w: int,
    ra: int,
) -> bool {
    let clo = rest_start + fences[w] as int;
    let chi = if w + 1 < N {
        rest_start + fences[w + 1] as int
    } else {
        end
    };
    match ck[w] {
        None => arb_vals::<N>(data, clo, chi, ra) == Seq::<u8>::empty(),
        Some(c) => c.ovals(ra) == arb_vals::<N>(data, clo, chi, ra),
    }
}

/// The per-child facts gathered while building children left to right
/// assemble into the mirror's concatenated child values.
proof fn lemma_arb_assemble<const N: usize>(
    data: Seq<u8>,
    rest_start: int,
    end: int,
    fences: Seq<usize>,
    ck: Seq<Option<Box<Node<u8, N>>>>,
    j: int,
    ra: int,
)
    requires
        1 <= N,
        0 <= j <= N,
        ck.len() == N,
        fences.len() == N,
        0 <= rest_start <= end,
        forall|t: int| 0 <= t < N ==> rest_start + (#[trigger] fences[t]) as int <= end,
        forall|a: int, b: int| 0 <= a < b < N ==> fences[a] <= fences[b],
        forall|t: int| 0 <= t < N ==> kid_mirror::<N>(data, rest_start, end, fences, ck, t, ra),
    ensures
        ovals_kids(ck, j, N as int, ra) == arb_kids::<N>(data, rest_start, end, fences, j, N as int, ra),
    decreases N - j,
{
    let nn = N as int;
    if j == nn {
        assert(ovals_kids(ck, j, nn, ra) =~= Seq::<u8>::empty());
        assert(arb_kids::<N>(data, rest_start, end, fences, j, nn, ra) =~= Seq::<u8>::empty());
    } else {
        lemma_arb_assemble::<N>(data, rest_start, end, fences, ck, j + 1, ra);
        assert(kid_mirror::<N>(data, rest_start, end, fences, ck, j, ra));
        let lo = rest_start + fences[j] as int;
        let hi = if j + 1 < nn {
            rest_start + fences[j + 1] as int
        } else {
            end
        };
        assert(lo <= hi <= end);
        match ck[j] {
            None => {
                assert(ovals_kids(ck, j, nn, ra) == Seq::<u8>::empty() + ovals_kids(ck, j + 1, nn, ra));
                assert(arb_kids::<N>(data, rest_start, end, fences, j, nn, ra)
                    == Seq::<u8>::empty() + arb_kids::<N>(data, rest_start, end, fences, j + 1, nn, ra));
            },
            Some(c) => {
                assert(ovals_kids(ck, j, nn, ra) == c.ovals(ra) + ovals_kids(ck, j + 1, nn, ra));
                assert(arb_kids::<N>(data, rest_start, end, fences, j, nn, ra)
                    == arb_vals::<N>(data, lo, hi, ra) + arb_kids::<N>(data, rest_start, end, fences, j + 1, nn, ra));
            },
        }
    }
}

/// A nonempty byte range always yields its first byte first.
pub proof fn lemma_arb_head<const N: usize>(data: Seq<u8>, start: int, end: int)
    requires
        1 <= N,
        0 <= start < end <= data.len(),
    ensures
        arb_vals::<N>(data, start, end, 0).len() >= 1,
        arb_vals::<N>(data, start, end, 0)[0] == data[start],
{
    let val = data[start];
    let body = start + 1;
    let avail = end - body;
    if avail < 2 * (N - 1) {
    } else {
        let rest_start = body + 2 * (N - 1);
        let rest_len = end - rest_start;
        let fences = fences_spec::<N>(data, body, rest_len);
        assert(arb_kids::<N>(data, rest_start, end, fences, 0, 0, 0) =~= Seq::<u8>::empty());
        assert((Seq::<u8>::empty() + seq![val]
            + arb_kids::<N>(data, rest_start, end, fences, 0, N as int, 0))[0] == val);
    }
}

/// Builds one node from the byte range `start .. end`: the first byte is
/// its value, the next two bytes per non-final child encode a split
/// point, and each resulting sub-range builds one child. The values are
/// appended in pre-order as construction goes.
#[verifier::loop_isolation(false)]
#[verifier::rlimit(60)]
fn node_from_arbitrary<const N: usize>(data: &[u8], start: usize, end: usize, values: &mut Vec<u8>) -> (r: Option<Box<Node<u8, N>>>)
    requires
        1 <= N,
        start <= end,
        end <= data@.len(),
    ensures
        r is None <==> start == end,
        r is None ==> final(values)@ == old(values)@,
        r matches Some(nd) ==> nd.nwf() && nd.val == data@[start as int]
            && final(values)@ == old(values)@ + nd.ovals(0)
            && forall|ra: int| 0 <= ra <= N
                ==> nd.ovals(ra) == arb_vals::<N>(data@, start as int, end as int, ra),
        final(values)@.len() <= old(values)@.len() + (end - start),
    decreases end - start,
{
    if start >= end {
        return None;
    }
    let ghost v0 = values@;
    let val = *vstd::slice::slice_index_get(data, start);
    values.push(val);
    let body = start + 1;
    let avail = end - body;
    if avail / 2 < N - 1 {
        // too few bytes to carve children: a leaf with N empty slots
        let mut children: Vec<Option<Box<Node<u8, N>>>> = Vec::new();
        let mut t: usize = 0;
        while t < N
            invariant
                t <= N,
                children@.len() == t,
                forall|u: int| 0 <= u < t ==> (#[trigger] children@[u]) is None,
            decreases N - t,
        {
            children.push(None);
            t = t + 1;
        }
        let nd = Node::boxed(val, children);
        proof {
            lemma_nwf_kids_from(nd.children@, 0);
            lemma_ovals_kids_none::<u8, N>(nd.children@, 0, N as int, 0);
            assert(nd.ovals(0) =~= seq![val]);
            assert(values@ =~= v0 + nd.ovals(0));
            assert(avail < 2 * (N - 1));
            assert forall|ra: int| 0 <= ra <= N
                implies nd.ovals(ra) == arb_vals::<N>(data@, start as int, end as int, ra) by {
                let m = if ra <= N { ra } else { N as int };
                lemma_ovals_kids_none::<u8, N>(nd.children@, 0, m, ra);
                lemma_ovals_kids_none::<u8, N>(nd.children@, m, N as int, ra);
                assert(nd.ovals(ra) =~= seq![val]);
                assert(arb_vals::<N>(data@, start as int, end as int, ra) == seq![val]);
            }
        }
        return Some(nd);
    }
    // read the split points, then clip and order them
    let ghost rl = end - (body + 2 * (N - 1)) as int;
    let ghost rawf: Seq<usize> = Seq::new(N as nat, |q: int| if q == 0 {
        0usize
    } else {
        (((data@[body + 2 * (q - 1)] as int) + 256 * (data@[body + 2 * (q - 1) + 1] as int)) % (rl + 1)) as usize
    });
    let mut fences: Vec<usize> = Vec::new();
    fences.push(0);
    let mut off = body;
    let mut t: usize = 1;
    while t < N
        invariant
            1 <= t <= N,
            off == body + 2 * (t - 1),
            body + 2 * (N - 1) <= end,
            fences@.len() == t,
            forall|u: int| 0 <= u < t ==> #[trigger] fences@[u] == rawf[u],
            forall|u: int| 0 <= u < t ==> #[trigger] fences@[u] <= end - (body + 2 * (N - 1)),
        decreases N - t,
    {
        let lo_byte = *vstd::slice::slice_index_get(data, off);
        let hi_byte = *vstd::slice::slice_index_get(data, off + 1);
        let raw = lo_byte as usize + 256 * (hi_byte as usize);
        let rest_len = end - (body + 2 * (N - 1));
        fences.push(raw % (rest_len + 1));
        proof {
            assert(fences@.last() == rawf[t as int]);
        }
        off = off + 2;
        t = t + 1;
    }
    let rest_start = off;
    let rest_len = end - rest_start;
    proof {
        assert(fences@ =~= rawf);
        assert(rl == rest_len as int);
    }
    let fences = sort_fences(&fences, Ghost(rest_len as int));
    proof {
        assert(fences@ == fences_spec::<N>(data@, body as int, rest_len as int));
    }
    // each pair of neighbouring split points bounds one child's bytes
    let mut children: Vec<Option<Box<Node<u8, N>>>> = Vec::new();
    let mut u: usize = 0;
    while u < N
        invariant
            u <= N,
            fences@.len() == N,
            rest_start == body + 2 * (N - 1),
            start + 1 == body,
            body + 2 * (N - 1) <= end <= data@.len(),
            rest_len == end - rest_start,
            forall|a: int| 0 <= a < N ==> #[trigger] fences@[a] <= rest_len,
            forall|a: int, b: int| 0 <= a < b < N ==> fences@[a] <= fences@[b],
            children@.len() == u,
            fences@ == fences_spec::<N>(data@, body as int, rest_len as int),
            forall|w: int| 0 <= w < u ==> ((#[trigger] children@[w]) matches Some(c) ==> c.nwf()),
            forall|w: int, ra: int| 0 <= w < u && 0 <= ra <= N
                ==> #[trigger] kid_mirror::<N>(data@, rest_start as int, end as int, fences@, children@, w, ra),
            values@ == v0 + seq![val] + ovals_kids(children@, 0, u as int, 0),
            values@.len() <= v0.len() + 1 + (if u < N {
                fences@[u as int] as int
            } else {
                rest_len as int
            }),
        decreases N - u,
    {
        let lo = rest_start + fences[u];
        let hi = if u + 1 < N {
            rest_start + fences[u + 1]
        } else {
            end
        };
        let ghost ck_before = children@;
        let kid = node_from_arbitrary(data, lo, hi, values);
        let ghost kidg = kid;
        children.push(kid);
        proof {
            lemma_ovals_kids_agree(ck_before, children@, 0, u as int, 0);
            crate::nary_tree::lemma_ovals_kids_split(children@, 0, u as int, u as int + 1, 0);
            assert(ovals_kids(children@, u as int, u as int + 1, 0) == (match children@[u as int] {
                None => Seq::<u8>::empty(),
                Some(c) => c.ovals(0),
            }) + ovals_kids(children@, u as int + 1, u as int + 1, 0));
            match kidg {
                None => {
                    assert(ovals_kids(children@, u as int, u as int + 1, 0) =~= Seq::<u8>::empty());
                    assert(values@ =~= (v0 + seq![val] + ovals_kids(ck_before, 0, u as int, 0))
                        + ovals_kids(children@, u as int, u as int + 1, 0));
                },
                Some(nd) => {
                    assert(ovals_kids(children@, u as int, u as int + 1, 0) =~= nd.ovals(0));
                    assert(values@ =~= (v0 + seq![val] + ovals_kids(ck_before, 0, u as int, 0))
                        + ovals_kids(children@, u as int, u as int + 1, 0));
                },
            }
            assert(values@ == v0 + seq![val] + ovals_kids(children@, 0, u as int + 1, 0));
            // record how this child's values mirror its byte range
            assert forall|w: int, ra: int| 0 <= w < u + 1 && 0 <= ra <= N
                implies #[trigger] kid_mirror::<N>(data@, rest_start as int, end as int, fences@, children@, w, ra) by {
                if w < u {
                    assert(kid_mirror::<N>(data@, rest_start as int, end as int, fences@, ck_before, w, ra));
                    assert(children@[w] == ck_before[w]);
                } else {
                    assert(children@[w] == kidg);
                    match kidg {
                        None => {
                            assert(lo == hi);
                        },
                        Some(c) => {},
                    }
                }
            }
        }
        u = u + 1;
    }
    let nd = Node::boxed(val, children);
    proof {
        lemma_nwf_kids_from(nd.children@, 0);
        assert(nd.ovals(0) == ovals_kids(nd.children@, 0, 0, 0) + seq![val] + ovals_kids(nd.children@, 0, N as int, 0));
        assert(ovals_kids(nd.children@, 0, 0, 0) =~= Seq::<u8>::empty());
        assert(values@ =~= v0 + nd.ovals(0));
        // each child mirrors its byte range, so the whole node mirrors its own
        let si = start as int;
        let ei = end as int;
        let rsi = rest_start as int;
        assert(avail >= 2 * (N - 1));
        assert forall|ra: int| 0 <= ra <= N
            implies nd.ovals(ra) == arb_vals::<N>(data@, si, ei, ra) by {
            let nn = N as int;
            let m = if ra <= N { ra } else { nn };
            assert forall|w: int| 0 <= w < nn
                implies kid_mirror::<N>(data@, rsi, ei, fences@, nd.children@, w, ra) by {
                assert(kid_mirror::<N>(data@, rsi, ei, fences@, children@, w, ra));
            }
            lemma_arb_assemble::<N>(data@, rsi, ei, fences@, nd.children@, 0, ra);
            lemma_arb_assemble::<N>(data@, rsi, ei, fences@, nd.children@, m, ra);
            crate::nary_tree::lemma_ovals_kids_split(nd.children@, 0, m, nn, ra);
            lemma_arb_kids_split::<N>(data@, rsi, ei, fences@, 0, m, nn, ra);
            crate::order::lemma_cancel_right::<u8>(
                ovals_kids(nd.children@, 0, m, ra),
                ovals_kids(nd.children@, m, nn, ra),
                arb_kids::<N>(data@, rsi, ei, fences@, 0, m, ra),
                arb_kids::<N>(data@, rsi, ei, fences@, m, nn, ra),
            );
            assert(nd.ovals(ra) == ovals_kids(nd.children@, 0, m, ra) + seq![val] + ovals_kids(nd.children@, m, nn, ra));
            assert(arb_vals::<N>(data@, si, ei, ra)
                == arb_kids::<N>(data@, rsi, ei, fences@, 0, m, ra) + seq![val]
                    + arb_kids::<N>(data@, rsi, ei, fences@, m, nn, ra));
        }
    }
    Some(nd)
}

impl<const N: usize> Tree<u8, N> {
    /// Builds a tree and its expected pre-order value sequence from an
    /// arbitrary byte string: the whole construction is mirrored by the
    /// specification function [`arb_vals`], so the result is a pure
    /// function of the bytes — the same input always gives the same
    /// tree. The tree's own traversals are proved to read off exactly
    /// the mirrored orders; in particular the returned sequence is its
    /// pre-order, one node per consumed byte at most, rooted at the
    /// input's first byte.
    pub fn arbitrary(data: &[u8]) -> (r: (Tree<u8, N>, Vec<u8>))
        requires
            1 <= N,
            data@.len() < 65535,
        ensures
            r.0.at_rest(),
            r.0.order_vals(0) == r.1@,
            r.1@ == arb_vals::<N>(data@, 0, data@.len() as int, 0),
            forall|ra: int| 0 <= ra <= N
                ==> r.0.order_vals(ra) == arb_vals::<N>(data@, 0, data@.len() as int, ra),
            r.1@.len() == r.0.size(),
            r.1@.len() <= data@.len(),
            r.0.size() == 0 <==> data@.len() == 0,
            data@.len() > 0 ==> r.1@.len() >= 1 && r.1@[0] == data@[0],
    {
        let mut values: Vec<u8> = Vec::new();
        let root = node_from_arbitrary::<N>(data, 0, data.len(), &mut values);
        let ghost rootg = root;
        proof {
            match rootg {
                None => {},
                Some(nd) => {
                    assert(values@ == Seq::<u8>::empty() + nd.ovals(0));
                    assert(Seq::<u8>::empty() + nd.ovals(0) =~= nd.ovals(0));
                },
            }
        }
        let tree = Tree::new(root);
        proof {
            let dl = data@.len() as int;
            match rootg {
                None => {
                    assert(values@ =~= Seq::<u8>::empty());
                    assert forall|ra: int| 0 <= ra <= N
                        implies tree.order_vals(ra) == arb_vals::<N>(data@, 0, dl, ra) by {
                        assert(arb_vals::<N>(data@, 0, dl, ra) == Seq::<u8>::empty());
                    }
                },
                Some(nd) => {
                    assert forall|ra: int| 0 <= ra <= N
                        implies tree.order_vals(ra) == arb_vals::<N>(data@, 0, dl, ra) by {
                        assert(tree.order_vals(ra) == nd.ovals(ra));
                    }
                    assert(nd.ovals(0).len() >= 1);
                    lemma_arb_head::<N>(data@, 0, dl);
                },
            }
            crate::nary_tree::lemma_order_counts_nodes(tree, 0);
        }
        (tree, values)
    }
}

} // verus!
