//! Mathematical model of the grid and of the deduction rules.
//!
//! A grid is modeled as the row-major sequence of its 81 cells. Everything
//! the executable code promises is stated over these functions.

use vstd::prelude::*;

verus! {

/// The value of the cell in row `r`, column `c` (both `0..9`).
pub open spec fn cell(g: Seq<u8>, r: int, c: int) -> u8 {
    g[r * 9 + c]
}

/// The nine values of row `r`, left to right.
pub open spec fn row_seq(g: Seq<u8>, r: int) -> Seq<u8> {
    Seq::new(9, |c: int| cell(g, r, c))
}

/// The nine values of column `c`, top to bottom.
pub open spec fn col_seq(g: Seq<u8>, c: int) -> Seq<u8> {
    Seq::new(9, |r: int| cell(g, r, c))
}

/// The index (`0..9`, in row-major block order) of the 3x3 sector that
/// contains the cell at row `r`, column `c`.
pub open spec fn sec_of(r: int, c: int) -> int {
    (r / 3) * 3 + c / 3
}

/// The nine values of sector `k`, scanned row by row within the block.
pub open spec fn sec_seq(g: Seq<u8>, k: int) -> Seq<u8> {
    Seq::new(9, |p: int| cell(g, (k / 3) * 3 + p / 3, (k % 3) * 3 + p % 3))
}

/// Does value `v` occur in row `r`?
pub open spec fn in_row(g: Seq<u8>, r: int, v: u8) -> bool {
    row_seq(g, r).contains(v)
}

/// Does value `v` occur in column `c`?
pub open spec fn in_col(g: Seq<u8>, c: int, v: u8) -> bool {
    col_seq(g, c).contains(v)
}

/// Does value `v` occur in the sector of the cell at (`r`, `c`)?
pub open spec fn in_sec(g: Seq<u8>, r: int, c: int, v: u8) -> bool {
    sec_seq(g, sec_of(r, c)).contains(v)
}

/// No cell of the grid is empty.
pub open spec fn solved(g: Seq<u8>) -> bool {
    forall|i: int| 0 <= i < 81 ==> g[i] != 0
}

/// No value `1..=9` occurs twice in the group `s`; empty cells and
/// out-of-range values are ignored.
pub open spec fn dup_free(s: Seq<u8>) -> bool {
    forall|i: int, j: int|
        0 <= i < j < s.len() ==> !(#[trigger] s[i] == #[trigger] s[j] && 1 <= s[i] <= 9)
}

/// The grid is a valid puzzle state: every cell holds `0..=9`, and no row,
/// column or sector repeats a nonzero value.
pub open spec fn spec_valid(g: Seq<u8>) -> bool {
    &&& forall|i: int| 0 <= i < 81 ==> #[trigger] g[i] <= 9
    &&& forall|r: int| 0 <= r < 9 ==> dup_free(#[trigger] row_seq(g, r))
    &&& forall|c: int| 0 <= c < 9 ==> dup_free(#[trigger] col_seq(g, c))
    &&& forall|k: int| 0 <= k < 9 ==> dup_free(#[trigger] sec_seq(g, k))
}

/// Value `v` is a candidate for the cell at (`r`, `c`): the cell is empty
/// and none of its three groups already holds `v`.
pub open spec fn cand(g: Seq<u8>, r: int, c: int, v: u8) -> bool {
    &&& cell(g, r, c) == 0
    &&& 1 <= v <= 9
    &&& !in_row(g, r, v)
    &&& !in_col(g, c, v)
    &&& !in_sec(g, r, c, v)
}

/// The values in `v..=9` that satisfy `f`, in ascending order.
pub open spec fn asc_filter_from(f: spec_fn(u8) -> bool, v: int) -> Seq<u8>
    decreases 10 - v,
{
    if v < 1 || v >= 10 {
        Seq::empty()
    } else if f(v as u8) {
        seq![v as u8] + asc_filter_from(f, v + 1)
    } else {
        asc_filter_from(f, v + 1)
    }
}

/// The values in `1..=9` that satisfy `f`, in ascending order.
pub open spec fn asc_vals(f: spec_fn(u8) -> bool) -> Seq<u8> {
    asc_filter_from(f, 1)
}

/// The candidate set of the cell at (`r`, `c`), as an ascending sequence.
/// For a filled cell it is empty.
pub open spec fn cand_seq(g: Seq<u8>, r: int, c: int) -> Seq<u8> {
    asc_vals(|v: u8| cand(g, r, c, v))
}

/// The tail of the candidate sequence that considers only values `v..=9`.
pub open spec fn cand_seq_suffix(g: Seq<u8>, r: int, c: int, v: int) -> Seq<u8> {
    asc_filter_from(|w: u8| cand(g, r, c, w), v)
}

/// Unfolding rules for `cand_seq_suffix`, in the shape an ascending scan of
/// the values `1..=9` follows.
pub proof fn lemma_cand_seq_suffix(g: Seq<u8>, r: int, c: int, v: int)
    ensures
        cand_seq_suffix(g, r, c, 1) == cand_seq(g, r, c),
        v >= 10 ==> cand_seq_suffix(g, r, c, v) == Seq::<u8>::empty(),
        1 <= v <= 9 && cand(g, r, c, v as u8) ==> cand_seq_suffix(g, r, c, v) == seq![v as u8]
            + cand_seq_suffix(g, r, c, v + 1),
        1 <= v <= 9 && !cand(g, r, c, v as u8) ==> cand_seq_suffix(g, r, c, v)
            == cand_seq_suffix(g, r, c, v + 1),
{
}

/// Shape of every ascending filter: its members are exactly the values in
/// `v..=9` satisfying `f`, and it is strictly increasing.
pub proof fn lemma_asc_filter_from_props(f: spec_fn(u8) -> bool, v: int)
    requires
        1 <= v <= 10,
    ensures
        forall|w: u8| #[trigger] asc_filter_from(f, v).contains(w) <==> (f(w) && v <= w <= 9),
        forall|i: int|
            0 <= i < asc_filter_from(f, v).len() ==> v <= #[trigger] asc_filter_from(f, v)[i] <= 9
                && f(asc_filter_from(f, v)[i]),
        forall|i: int, j: int|
            0 <= i < j < asc_filter_from(f, v).len() ==> asc_filter_from(f, v)[i]
                < asc_filter_from(f, v)[j],
    decreases 10 - v,
{
    let s = asc_filter_from(f, v);
    if v == 10 {
        assert(forall|w: u8| s.contains(w) ==> 0 <= choose|i: int| 0 <= i < s.len() && s[i] == w);
    } else {
        lemma_asc_filter_from_props(f, v + 1);
        let rest = asc_filter_from(f, v + 1);
        if f(v as u8) {
            assert(s == seq![v as u8] + rest);
            assert(s[0] == v as u8);
            assert(forall|i: int| 0 < i < s.len() ==> s[i] == rest[i - 1]);
            assert forall|w: u8| #[trigger] s.contains(w) implies (f(w) && v <= w <= 9) by {
                let i = choose|i: int| 0 <= i < s.len() && s[i] == w;
                if i > 0 {
                    assert(rest.contains(w));
                }
            }
            assert forall|w: u8| (f(w) && v <= w <= 9) implies #[trigger] s.contains(w) by {
                if w == v {
                    assert(s[0] == w);
                } else {
                    assert(rest.contains(w));
                    let i = choose|i: int| 0 <= i < rest.len() && rest[i] == w;
                    assert(s[i + 1] == w);
                }
            }
        } else {
            assert(s == rest);
            assert forall|w: u8| (f(w) && v <= w <= 9) implies #[trigger] s.contains(w) by {
                if w == v {
                    assert(false);
                } else {
                    assert(rest.contains(w));
                }
            }
        }
    }
}

/// The row of the cell at position `p` (`0..9`) of sector `k`.
pub open spec fn sec_row(k: int, p: int) -> int {
    (k / 3) * 3 + p / 3
}

/// The column of the cell at position `p` (`0..9`) of sector `k`.
pub open spec fn sec_col(k: int, p: int) -> int {
    (k % 3) * 3 + p % 3
}

/// Some other cell of row `r` could still take `v`.
pub open spec fn row_peer_cand(g: Seq<u8>, r: int, c: int, v: u8) -> bool {
    exists|c2: int| 0 <= c2 < 9 && c2 != c && cand(g, r, c2, v)
}

/// Some other cell of column `c` could still take `v`.
pub open spec fn col_peer_cand(g: Seq<u8>, r: int, c: int, v: u8) -> bool {
    exists|r2: int| 0 <= r2 < 9 && r2 != r && cand(g, r2, c, v)
}

/// Some other cell of the sector of (`r`, `c`) could still take `v`.
pub open spec fn sec_peer_cand(g: Seq<u8>, r: int, c: int, v: u8) -> bool {
    exists|p: int|
        0 <= p < 9 && !(sec_row(sec_of(r, c), p) == r && sec_col(sec_of(r, c), p) == c) && cand(
            g,
            sec_row(sec_of(r, c), p),
            sec_col(sec_of(r, c), p),
            v,
        )
}

/// Value `v` is kept by the hidden-single filter for the cell at (`r`, `c`):
/// it is a candidate there, and in at least one of the cell's three groups
/// no other cell could still take it.
pub open spec fn ucand(g: Seq<u8>, r: int, c: int, v: u8) -> bool {
    &&& cand(g, r, c, v)
    &&& (!row_peer_cand(g, r, c, v) || !col_peer_cand(g, r, c, v) || !sec_peer_cand(g, r, c, v))
}

/// The hidden-single values of the cell at (`r`, `c`), ascending.
pub open spec fn ucand_seq(g: Seq<u8>, r: int, c: int) -> Seq<u8> {
    asc_vals(|v: u8| ucand(g, r, c, v))
}

/// The tail of the hidden-single sequence that considers only values `v..=9`.
pub open spec fn ucand_seq_suffix(g: Seq<u8>, r: int, c: int, v: int) -> Seq<u8> {
    asc_filter_from(|w: u8| ucand(g, r, c, w), v)
}

/// Unfolding rules for `ucand_seq_suffix`.
pub proof fn lemma_ucand_seq_suffix(g: Seq<u8>, r: int, c: int, v: int)
    ensures
        ucand_seq_suffix(g, r, c, 1) == ucand_seq(g, r, c),
        v >= 10 ==> ucand_seq_suffix(g, r, c, v) == Seq::<u8>::empty(),
        1 <= v <= 9 && ucand(g, r, c, v as u8) ==> ucand_seq_suffix(g, r, c, v) == seq![v as u8]
            + ucand_seq_suffix(g, r, c, v + 1),
        1 <= v <= 9 && !ucand(g, r, c, v as u8) ==> ucand_seq_suffix(g, r, c, v)
            == ucand_seq_suffix(g, r, c, v + 1),
{
}

/// Every member of a hidden-single sequence passes the filter.
pub proof fn lemma_ucand_seq_props(g: Seq<u8>, r: int, c: int)
    ensures
        forall|w: u8| #[trigger] ucand_seq(g, r, c).contains(w) <==> ucand(g, r, c, w),
        forall|i: int|
            0 <= i < ucand_seq(g, r, c).len() ==> ucand(g, r, c, #[trigger] ucand_seq(g, r, c)[i]),
{
    let f = |v: u8| ucand(g, r, c, v);
    lemma_asc_filter_from_props(f, 1);
    assert forall|i: int|
        0 <= i < ucand_seq(g, r, c).len() implies ucand(
        g,
        r,
        c,
        #[trigger] ucand_seq(g, r, c)[i],
    ) by {
        assert(f(ucand_seq(g, r, c)[i]));
    }
}

/// `s` is strictly increasing.
pub open spec fn strictly_sorted(s: Seq<u8>) -> bool {
    forall|i: int, j: int| 0 <= i < j < s.len() ==> s[i] < s[j]
}

/// `s` with every occurrence of `v` removed; the order of the rest is kept.
pub open spec fn remove_all(s: Seq<u8>, v: u8) -> Seq<u8>
    decreases s.len(),
{
    if s.len() == 0 {
        Seq::empty()
    } else if s[0] == v {
        remove_all(s.drop_first(), v)
    } else {
        seq![s[0]] + remove_all(s.drop_first(), v)
    }
}

/// Removal keeps exactly the other members and keeps the order strict.
pub proof fn lemma_remove_all_props(s: Seq<u8>, v: u8)
    requires
        strictly_sorted(s),
    ensures
        forall|w: u8| #[trigger] remove_all(s, v).contains(w) <==> (s.contains(w) && w != v),
        strictly_sorted(remove_all(s, v)),
    decreases s.len(),
{
    let out = remove_all(s, v);
    if s.len() == 0 {
        assert(forall|w: u8| !(#[trigger] s.contains(w)));
        assert(forall|w: u8| !(#[trigger] out.contains(w)));
    } else {
        let tail = s.drop_first();
        assert(strictly_sorted(tail));
        lemma_remove_all_props(tail, v);
        assert forall|w: u8| #[trigger] s.contains(w) <==> (w == s[0] || tail.contains(w)) by {
            if s.contains(w) {
                let i = choose|i: int| 0 <= i < s.len() && s[i] == w;
                if i > 0 {
                    assert(tail[i - 1] == w);
                }
            }
            if tail.contains(w) {
                let i = choose|i: int| 0 <= i < tail.len() && tail[i] == w;
                assert(s[i + 1] == w);
            }
        }
        if s[0] == v {
            assert forall|w: u8| #[trigger] out.contains(w) <==> (s.contains(w) && w != v) by {}
        } else {
            let rest = remove_all(tail, v);
            assert(out == seq![s[0]] + rest);
            assert forall|w: u8| #[trigger] out.contains(w) <==> (w == s[0] || rest.contains(w)) by {
                if out.contains(w) {
                    let i = choose|i: int| 0 <= i < out.len() && out[i] == w;
                    if i > 0 {
                        assert(rest[i - 1] == w);
                    }
                }
                if w == s[0] {
                    assert(out[0] == w);
                }
                if rest.contains(w) {
                    let i = choose|i: int| 0 <= i < rest.len() && rest[i] == w;
                    assert(out[i + 1] == w);
                }
            }
            assert forall|i: int, j: int| 0 <= i < j < out.len() implies out[i] < out[j] by {
                if i == 0 {
                    assert(rest.contains(rest[j - 1]));
                    assert(tail.contains(out[j]));
                    let k = choose|k: int| 0 <= k < tail.len() && tail[k] == out[j];
                    assert(s[0] < s[k + 1]);
                } else {
                    assert(rest[i - 1] < rest[j - 1]);
                }
            }
        }
    }
}

/// Two strictly increasing sequences with the same members are equal.
pub proof fn lemma_strictly_sorted_unique(s: Seq<u8>, t: Seq<u8>)
    requires
        strictly_sorted(s),
        strictly_sorted(t),
        forall|w: u8| #![trigger s.contains(w)] #![trigger t.contains(w)] s.contains(w)
            <==> t.contains(w),
    ensures
        s == t,
    decreases s.len(),
{
    if s.len() == 0 {
        if t.len() > 0 {
            let w0 = t[0];
            assert(t[0] == w0);
            assert(t.contains(w0));
        }
        assert(s =~= t);
    } else {
        let ws = s[0];
        let wt = t[0];
        assert(s[0] == ws && t[0] == wt);
        assert(s.contains(ws));
        assert(t.contains(wt));
        let i = choose|i: int| 0 <= i < t.len() && t[i] == s[0];
        let j = choose|j: int| 0 <= j < s.len() && s[j] == t[0];
        assert(t[0] <= t[i] && s[0] <= s[j]);
        assert(s[0] == t[0]);
        let s2 = s.drop_first();
        let t2 = t.drop_first();
        assert(strictly_sorted(s2) && strictly_sorted(t2));
        assert forall|w: u8| #[trigger] s2.contains(w) <==> #[trigger] t2.contains(w) by {
            if s2.contains(w) {
                let a = choose|a: int| 0 <= a < s2.len() && s2[a] == w;
                assert(s[a + 1] == w && s[0] < s[a + 1]);
                assert(t.contains(w));
                let b = choose|b: int| 0 <= b < t.len() && t[b] == w;
                assert(b > 0);
                assert(t2[b - 1] == w);
            }
            if t2.contains(w) {
                let a = choose|a: int| 0 <= a < t2.len() && t2[a] == w;
                assert(t[a + 1] == w && t[0] < t[a + 1]);
                assert(s.contains(w));
                let b = choose|b: int| 0 <= b < s.len() && s[b] == w;
                assert(b > 0);
                assert(s2[b - 1] == w);
            }
        }
        lemma_strictly_sorted_unique(s2, t2);
        assert forall|k: int| 0 <= k < s.len() implies s[k] == t[k] by {
            if k > 0 {
                assert(s2[k - 1] == t2[k - 1]);
            }
        }
        assert(s =~= t);
    }
}

/// The grid `g` with value `v` placed in the cell at (`r`, `c`).
pub open spec fn place(g: Seq<u8>, r: int, c: int, v: u8) -> Seq<u8> {
    g.update(r * 9 + c, v)
}

/// The two cells share a row, a column or a sector.
pub open spec fn same_group(r: int, c: int, r2: int, c2: int) -> bool {
    r2 == r || c2 == c || sec_of(r2, c2) == sec_of(r, c)
}

/// A cached candidate entry after one value is struck from it.
pub open spec fn entry_remove(e: Option<Seq<u8>>, v: u8) -> Option<Seq<u8>> {
    match e {
        Some(s) => Some(remove_all(s, v)),
        None => None,
    }
}

/// How placing `v` at (`r`, `c`) changes each group-membership test.
#[verifier::rlimit(60)]
proof fn lemma_place_groups(g: Seq<u8>, r: int, c: int, v: u8)
    requires
        g.len() == 81,
        0 <= r < 9,
        0 <= c < 9,
        1 <= v <= 9,
        cell(g, r, c) == 0,
    ensures
        cell(place(g, r, c, v), r, c) == v,
        forall|r3: int, c3: int|
            0 <= r3 < 9 && 0 <= c3 < 9 && !(r3 == r && c3 == c) ==> #[trigger] cell(
                place(g, r, c, v),
                r3,
                c3,
            ) == cell(g, r3, c3),
        forall|w: u8|
            1 <= w <= 9 ==> (#[trigger] in_row(place(g, r, c, v), r, w) <==> (in_row(g, r, w) || w
                == v)),
        forall|r3: int, w: u8|
            0 <= r3 < 9 && r3 != r ==> (#[trigger] in_row(place(g, r, c, v), r3, w) <==> in_row(
                g,
                r3,
                w,
            )),
        forall|w: u8|
            1 <= w <= 9 ==> (#[trigger] in_col(place(g, r, c, v), c, w) <==> (in_col(g, c, w) || w
                == v)),
        forall|c3: int, w: u8|
            0 <= c3 < 9 && c3 != c ==> (#[trigger] in_col(place(g, r, c, v), c3, w) <==> in_col(
                g,
                c3,
                w,
            )),
        forall|r3: int, c3: int, w: u8|
            0 <= r3 < 9 && 0 <= c3 < 9 && sec_of(r3, c3) == sec_of(r, c) && 1 <= w <= 9 ==> (
            #[trigger] in_sec(place(g, r, c, v), r3, c3, w) <==> (in_sec(g, r3, c3, w) || w == v)),
        forall|r3: int, c3: int, w: u8|
            0 <= r3 < 9 && 0 <= c3 < 9 && sec_of(r3, c3) != sec_of(r, c) ==> (#[trigger] in_sec(
                place(g, r, c, v),
                r3,
                c3,
                w,
            ) <==> in_sec(g, r3, c3, w)),
{
    let g2 = place(g, r, c, v);
    assert forall|r3: int, c3: int|
        0 <= r3 < 9 && 0 <= c3 < 9 && !(r3 == r && c3 == c) implies #[trigger] cell(g2, r3, c3)
        == cell(g, r3, c3) by {
        assert(r3 * 9 + c3 != r * 9 + c);
    }
    assert forall|w: u8| 1 <= w <= 9 implies (#[trigger] in_row(g2, r, w) <==> (in_row(g, r, w) || w
        == v)) by {
        if in_row(g2, r, w) {
            let c3 = choose|c3: int| 0 <= c3 < 9 && row_seq(g2, r)[c3] == w;
            if c3 != c {
                assert(row_seq(g, r)[c3] == w);
            }
        }
        if in_row(g, r, w) {
            let c3 = choose|c3: int| 0 <= c3 < 9 && row_seq(g, r)[c3] == w;
            assert(c3 != c);
            assert(row_seq(g2, r)[c3] == w);
        }
        if w == v {
            assert(row_seq(g2, r)[c] == w);
        }
    }
    assert forall|r3: int, w: u8| 0 <= r3 < 9 && r3 != r implies (#[trigger] in_row(g2, r3, w)
        <==> in_row(g, r3, w)) by {
        assert(row_seq(g2, r3) =~= row_seq(g, r3));
    }
    assert forall|w: u8| 1 <= w <= 9 implies (#[trigger] in_col(g2, c, w) <==> (in_col(g, c, w) || w
        == v)) by {
        if in_col(g2, c, w) {
            let r3 = choose|r3: int| 0 <= r3 < 9 && col_seq(g2, c)[r3] == w;
            if r3 != r {
                assert(col_seq(g, c)[r3] == w);
            }
        }
        if in_col(g, c, w) {
            let r3 = choose|r3: int| 0 <= r3 < 9 && col_seq(g, c)[r3] == w;
            assert(r3 != r);
            assert(col_seq(g2, c)[r3] == w);
        }
        if w == v {
            assert(col_seq(g2, c)[r] == w);
        }
    }
    assert forall|c3: int, w: u8| 0 <= c3 < 9 && c3 != c implies (#[trigger] in_col(g2, c3, w)
        <==> in_col(g, c3, w)) by {
        assert(col_seq(g2, c3) =~= col_seq(g, c3));
    }
    let k = sec_of(r, c);
    let p0 = (r % 3) * 3 + c % 3;
    assert(sec_seq(g2, k)[p0] == v);
    assert forall|r3: int, c3: int, w: u8|
        0 <= r3 < 9 && 0 <= c3 < 9 && sec_of(r3, c3) == k && 1 <= w <= 9 implies (#[trigger] in_sec(
        g2,
        r3,
        c3,
        w,
    ) <==> (in_sec(g, r3, c3, w) || w == v)) by {
        if in_sec(g2, r3, c3, w) {
            let p = choose|p: int| 0 <= p < 9 && sec_seq(g2, k)[p] == w;
            if p != p0 {
                assert(sec_seq(g, k)[p] == w);
            }
        }
        if in_sec(g, r3, c3, w) {
            let p = choose|p: int| 0 <= p < 9 && sec_seq(g, k)[p] == w;
            assert(p != p0);
            assert(sec_seq(g2, k)[p] == w);
        }
        if w == v {
            assert(sec_seq(g2, k)[p0] == w);
        }
    }
    assert forall|r3: int, c3: int, w: u8|
        0 <= r3 < 9 && 0 <= c3 < 9 && sec_of(r3, c3) != k implies (#[trigger] in_sec(
        g2,
        r3,
        c3,
        w,
    ) <==> in_sec(g, r3, c3, w)) by {
        let k2 = sec_of(r3, c3);
        assert forall|p: int| 0 <= p < 9 implies sec_seq(g2, k2)[p] == sec_seq(g, k2)[p] by {
            let rp = (k2 / 3) * 3 + p / 3;
            let cp = (k2 % 3) * 3 + p % 3;
            assert(!(rp == r && cp == c));
        }
        assert(sec_seq(g2, k2) =~= sec_seq(g, k2));
    }
}

/// How placing `v` at (`r`, `c`) changes another cell's candidate values:
/// a cell sharing a group loses exactly `v`; any other cell is untouched.
pub proof fn lemma_place_cand(g: Seq<u8>, r: int, c: int, v: u8, r2: int, c2: int)
    requires
        g.len() == 81,
        0 <= r < 9,
        0 <= c < 9,
        0 <= r2 < 9,
        0 <= c2 < 9,
        1 <= v <= 9,
        cell(g, r, c) == 0,
        !(r2 == r && c2 == c),
    ensures
        same_group(r, c, r2, c2) ==> forall|w: u8|
            #[trigger] cand(place(g, r, c, v), r2, c2, w) <==> (cand(g, r2, c2, w) && w != v),
        !same_group(r, c, r2, c2) ==> forall|w: u8|
            #[trigger] cand(place(g, r, c, v), r2, c2, w) <==> cand(g, r2, c2, w),
{
    let g2 = place(g, r, c, v);
    lemma_place_groups(g, r, c, v);
    assert(cell(g2, r2, c2) == cell(g, r2, c2));
    if same_group(r, c, r2, c2) {
        assert forall|w: u8| #[trigger] cand(g2, r2, c2, w) <==> (cand(g, r2, c2, w) && w != v) by {
            if 1 <= w <= 9 {
                if w == v {
                    if r2 == r {
                        assert(in_row(g2, r, v));
                    } else if c2 == c {
                        assert(in_col(g2, c, v));
                    } else {
                        assert(in_sec(g2, r2, c2, v));
                    }
                }
            }
        }
    } else {
        assert forall|w: u8| #[trigger] cand(g2, r2, c2, w) <==> cand(g, r2, c2, w) by {}
    }
}

/// How a placement changes another cell's whole candidate sequence.
pub proof fn lemma_place_cand_seq(g: Seq<u8>, r: int, c: int, v: u8, r2: int, c2: int)
    requires
        g.len() == 81,
        0 <= r < 9,
        0 <= c < 9,
        0 <= r2 < 9,
        0 <= c2 < 9,
        1 <= v <= 9,
        cell(g, r, c) == 0,
        !(r2 == r && c2 == c),
    ensures
        same_group(r, c, r2, c2) ==> cand_seq(place(g, r, c, v), r2, c2) == remove_all(
            cand_seq(g, r2, c2),
            v,
        ),
        !same_group(r, c, r2, c2) ==> cand_seq(place(g, r, c, v), r2, c2) == cand_seq(g, r2, c2),
{
    let g2 = place(g, r, c, v);
    lemma_place_cand(g, r, c, v, r2, c2);
    lemma_cand_seq_props(g, r2, c2);
    lemma_cand_seq_props(g2, r2, c2);
    if same_group(r, c, r2, c2) {
        lemma_remove_all_props(cand_seq(g, r2, c2), v);
        lemma_strictly_sorted_unique(cand_seq(g2, r2, c2), remove_all(cand_seq(g, r2, c2), v));
    } else {
        lemma_strictly_sorted_unique(cand_seq(g2, r2, c2), cand_seq(g, r2, c2));
    }
}

/// Number of empty cells among the first `n` values of group `s`.
pub open spec fn zeros_upto(s: Seq<u8>, n: int) -> nat
    decreases n,
{
    if n <= 0 {
        0
    } else {
        zeros_upto(s, n - 1) + (if s[n - 1] == 0 {
            1nat
        } else {
            0nat
        })
    }
}

/// Number of empty cells in the nine-value group `s`.
pub open spec fn group_zero_count(s: Seq<u8>) -> nat {
    zeros_upto(s, 9)
}

/// Position of the first empty cell of group `s` at or after `p`; 9 if none.
pub open spec fn first_zero_from(s: Seq<u8>, p: int) -> int
    decreases 9 - p,
{
    if p < 0 || p >= 9 {
        9
    } else if s[p] == 0 {
        p
    } else {
        first_zero_from(s, p + 1)
    }
}

/// Position of the first empty cell of group `s`; 9 if none.
pub open spec fn first_zero(s: Seq<u8>) -> int {
    first_zero_from(s, 0)
}

/// The least value in `v..=9` that does not occur in group `s`, if any.
pub open spec fn first_absent_from(s: Seq<u8>, v: int) -> Option<u8>
    decreases 10 - v,
{
    if v < 1 || v >= 10 {
        None
    } else if !s.contains(v as u8) {
        Some(v as u8)
    } else {
        first_absent_from(s, v + 1)
    }
}

/// The least value `1..=9` that does not occur in group `s`, if any.
pub open spec fn first_absent(s: Seq<u8>) -> Option<u8> {
    first_absent_from(s, 1)
}

/// The first row at or below `r` with exactly one empty cell whose missing
/// value is a full candidate of that cell (so placing it cannot break the
/// cell's column or sector), with that cell and that value.
pub open spec fn easy_row_from(g: Seq<u8>, r: int) -> Option<(int, int, u8)>
    decreases 9 - r,
{
    if r < 0 || r >= 9 {
        None
    } else if group_zero_count(row_seq(g, r)) == 1 && first_absent(row_seq(g, r)) is Some && cand(
        g,
        r,
        first_zero(row_seq(g, r)),
        first_absent(row_seq(g, r))->0,
    ) {
        Some((r, first_zero(row_seq(g, r)), first_absent(row_seq(g, r))->0))
    } else {
        easy_row_from(g, r + 1)
    }
}

/// The placement named by the single-gap row rule, if any.
pub open spec fn easy_row(g: Seq<u8>) -> Option<(int, int, u8)> {
    easy_row_from(g, 0)
}

/// The first column at or right of `c` with exactly one empty cell whose
/// missing value is a full candidate of that cell, with that cell and that
/// value.
pub open spec fn easy_col_from(g: Seq<u8>, c: int) -> Option<(int, int, u8)>
    decreases 9 - c,
{
    if c < 0 || c >= 9 {
        None
    } else if group_zero_count(col_seq(g, c)) == 1 && first_absent(col_seq(g, c)) is Some && cand(
        g,
        first_zero(col_seq(g, c)),
        c,
        first_absent(col_seq(g, c))->0,
    ) {
        Some((first_zero(col_seq(g, c)), c, first_absent(col_seq(g, c))->0))
    } else {
        easy_col_from(g, c + 1)
    }
}

/// The placement named by the single-gap column rule, if any.
pub open spec fn easy_col(g: Seq<u8>) -> Option<(int, int, u8)> {
    easy_col_from(g, 0)
}

/// The first sector at or after `k` (row-major block order) with exactly one
/// empty cell whose missing value is a full candidate of that cell, with
/// that cell and that value.
pub open spec fn easy_sec_from(g: Seq<u8>, k: int) -> Option<(int, int, u8)>
    decreases 9 - k,
{
    if k < 0 || k >= 9 {
        None
    } else if group_zero_count(sec_seq(g, k)) == 1 && first_absent(sec_seq(g, k)) is Some && cand(
        g,
        sec_row(k, first_zero(sec_seq(g, k))),
        sec_col(k, first_zero(sec_seq(g, k))),
        first_absent(sec_seq(g, k))->0,
    ) {
        Some(
            (
                sec_row(k, first_zero(sec_seq(g, k))),
                sec_col(k, first_zero(sec_seq(g, k))),
                first_absent(sec_seq(g, k))->0,
            ),
        )
    } else {
        easy_sec_from(g, k + 1)
    }
}

/// The placement named by the single-gap sector rule, if any.
pub open spec fn easy_sec(g: Seq<u8>) -> Option<(int, int, u8)> {
    easy_sec_from(g, 0)
}

/// The first cell (row-major, from flat index `i`) with exactly one
/// candidate, with that candidate.
pub open spec fn naked_from(g: Seq<u8>, i: int) -> Option<(int, int, u8)>
    decreases 81 - i,
{
    if i < 0 || i >= 81 {
        None
    } else if cand_seq(g, i / 9, i % 9).len() == 1 {
        Some((i / 9, i % 9, cand_seq(g, i / 9, i % 9)[0]))
    } else {
        naked_from(g, i + 1)
    }
}

/// The placement named by the naked-single rule, if any.
pub open spec fn naked_single(g: Seq<u8>) -> Option<(int, int, u8)> {
    naked_from(g, 0)
}

/// The first cell (row-major, from flat index `i`) whose hidden-single
/// filter keeps some value, with the least such value.
pub open spec fn hidden_from(g: Seq<u8>, i: int) -> Option<(int, int, u8)>
    decreases 81 - i,
{
    if i < 0 || i >= 81 {
        None
    } else if ucand_seq(g, i / 9, i % 9).len() > 0 {
        Some((i / 9, i % 9, ucand_seq(g, i / 9, i % 9)[0]))
    } else {
        hidden_from(g, i + 1)
    }
}

/// The placement named by the hidden-single rule, if any.
pub open spec fn hidden_single(g: Seq<u8>) -> Option<(int, int, u8)> {
    hidden_from(g, 0)
}

/// The placement the solver commits to next: the five rules are consulted
/// in their fixed priority order.
pub open spec fn spec_step(g: Seq<u8>) -> Option<(int, int, u8)> {
    if easy_row(g) is Some {
        easy_row(g)
    } else if easy_col(g) is Some {
        easy_col(g)
    } else if easy_sec(g) is Some {
        easy_sec(g)
    } else if naked_single(g) is Some {
        naked_single(g)
    } else {
        hidden_single(g)
    }
}

/// Number of empty cells in the whole grid.
pub open spec fn empty_count(g: Seq<u8>) -> nat {
    zeros_upto(g, 81)
}

/// A group with no empty cell among its first `n` values counts none.
pub proof fn lemma_zeros_upto_none(s: Seq<u8>, n: int)
    requires
        forall|q: int| 0 <= q < n ==> s[q] != 0,
    ensures
        zeros_upto(s, n) == 0,
    decreases n,
{
    if n > 0 {
        lemma_zeros_upto_none(s, n - 1);
    }
}

/// At most `n` of the first `n` values are empty.
pub proof fn lemma_zeros_upto_bound(s: Seq<u8>, n: int)
    requires
        n >= 0,
    ensures
        zeros_upto(s, n) <= n,
    decreases n,
{
    if n > 0 {
        lemma_zeros_upto_bound(s, n - 1);
    }
}

/// Filling one empty cell lowers the count of the first `n` cells by one if
/// the cell lies among them, and leaves it alone otherwise.
pub proof fn lemma_zeros_upto_update(g: Seq<u8>, idx: int, v: u8, n: int)
    requires
        0 <= idx < g.len(),
        n <= g.len(),
        g[idx] == 0,
        v != 0,
    ensures
        n <= idx ==> zeros_upto(g.update(idx, v), n) == zeros_upto(g, n),
        n > idx ==> zeros_upto(g.update(idx, v), n) + 1 == zeros_upto(g, n),
    decreases n,
{
    if n > 0 {
        lemma_zeros_upto_update(g, idx, v, n - 1);
        if n - 1 == idx {
            assert(g.update(idx, v)[n - 1] == v);
        } else {
            assert(g.update(idx, v)[n - 1] == g[n - 1]);
        }
    }
}

/// Where the first empty cell of a group lies, and what lies before it.
pub proof fn lemma_first_zero_props(s: Seq<u8>, p: int)
    requires
        0 <= p <= 9,
    ensures
        p <= first_zero_from(s, p) <= 9,
        first_zero_from(s, p) < 9 ==> s[first_zero_from(s, p)] == 0,
        forall|q: int| p <= q < first_zero_from(s, p) ==> s[q] != 0,
    decreases 9 - p,
{
    if p < 9 && s[p] != 0 {
        lemma_first_zero_props(s, p + 1);
    }
}

/// A missing value reported for a group really is in range and absent.
pub proof fn lemma_first_absent_props(s: Seq<u8>, v: int)
    requires
        1 <= v <= 10,
    ensures
        first_absent_from(s, v) matches Some(w) ==> v <= w <= 9 && !s.contains(w),
    decreases 10 - v,
{
    if 1 <= v <= 9 && s.contains(v as u8) {
        lemma_first_absent_props(s, v + 1);
    }
}

/// Any placement named by the single-gap row rule fills an empty cell with
/// a candidate value of that cell.
pub proof fn lemma_easy_row_props(g: Seq<u8>, r: int)
    requires
        g.len() == 81,
        0 <= r <= 9,
    ensures
        easy_row_from(g, r) matches Some(p) ==> r <= p.0 < 9 && 0 <= p.1 < 9 && cand(
            g,
            p.0,
            p.1,
            p.2,
        ),
    decreases 9 - r,
{
    if r < 9 {
        let s = row_seq(g, r);
        if group_zero_count(s) == 1 && first_absent(s) is Some && cand(
            g,
            r,
            first_zero(s),
            first_absent(s)->0,
        ) {
            lemma_first_zero_props(s, 0);
            if first_zero(s) == 9 {
                lemma_zeros_upto_none(s, 9);
            }
        } else {
            lemma_easy_row_props(g, r + 1);
        }
    }
}

/// Any placement named by the single-gap column rule fills an empty cell
/// with a candidate value of that cell.
pub proof fn lemma_easy_col_props(g: Seq<u8>, c: int)
    requires
        g.len() == 81,
        0 <= c <= 9,
    ensures
        easy_col_from(g, c) matches Some(p) ==> 0 <= p.0 < 9 && c <= p.1 < 9 && cand(
            g,
            p.0,
            p.1,
            p.2,
        ),
    decreases 9 - c,
{
    if c < 9 {
        let s = col_seq(g, c);
        if group_zero_count(s) == 1 && first_absent(s) is Some && cand(
            g,
            first_zero(s),
            c,
            first_absent(s)->0,
        ) {
            lemma_first_zero_props(s, 0);
            if first_zero(s) == 9 {
                lemma_zeros_upto_none(s, 9);
            }
        } else {
            lemma_easy_col_props(g, c + 1);
        }
    }
}

/// Any placement named by the single-gap sector rule fills an empty cell
/// with a candidate value of that cell.
pub proof fn lemma_easy_sec_props(g: Seq<u8>, k: int)
    requires
        g.len() == 81,
        0 <= k <= 9,
    ensures
        easy_sec_from(g, k) matches Some(p) ==> 0 <= p.0 < 9 && 0 <= p.1 < 9 && cand(
            g,
            p.0,
            p.1,
            p.2,
        ),
    decreases 9 - k,
{
    if k < 9 {
        let s = sec_seq(g, k);
        if group_zero_count(s) == 1 && first_absent(s) is Some && cand(
            g,
            sec_row(k, first_zero(s)),
            sec_col(k, first_zero(s)),
            first_absent(s)->0,
        ) {
            lemma_first_zero_props(s, 0);
            if first_zero(s) == 9 {
                lemma_zeros_upto_none(s, 9);
            }
        } else {
            lemma_easy_sec_props(g, k + 1);
        }
    }
}

/// Any placement named by the naked-single rule is that cell's only
/// candidate.
pub proof fn lemma_naked_props(g: Seq<u8>, i: int)
    requires
        0 <= i <= 81,
    ensures
        naked_from(g, i) matches Some(p) ==> 0 <= p.0 < 9 && 0 <= p.1 < 9 && cand(g, p.0, p.1, p.2),
    decreases 81 - i,
{
    if i < 81 {
        if cand_seq(g, i / 9, i % 9).len() == 1 {
            lemma_cand_seq_props(g, i / 9, i % 9);
        } else {
            lemma_naked_props(g, i + 1);
        }
    }
}

/// Any placement named by the hidden-single rule is a candidate of its cell
/// that passes the hidden-single filter.
pub proof fn lemma_hidden_props(g: Seq<u8>, i: int)
    requires
        0 <= i <= 81,
    ensures
        hidden_from(g, i) matches Some(p) ==> 0 <= p.0 < 9 && 0 <= p.1 < 9 && ucand(
            g,
            p.0,
            p.1,
            p.2,
        ),
    decreases 81 - i,
{
    if i < 81 {
        if ucand_seq(g, i / 9, i % 9).len() > 0 {
            lemma_ucand_seq_props(g, i / 9, i % 9);
        } else {
            lemma_hidden_props(g, i + 1);
        }
    }
}

/// Whatever rule fires, the named placement fills an empty cell of the grid
/// with one of that cell's candidate values.
pub proof fn lemma_spec_step_props(g: Seq<u8>)
    requires
        g.len() == 81,
    ensures
        spec_step(g) matches Some(p) ==> 0 <= p.0 < 9 && 0 <= p.1 < 9 && cand(g, p.0, p.1, p.2),
{
    lemma_easy_row_props(g, 0);
    lemma_easy_col_props(g, 0);
    lemma_easy_sec_props(g, 0);
    lemma_naked_props(g, 0);
    lemma_hidden_props(g, 0);
}

/// The grid the solve loop reaches from `g`: `Some` of the solved grid, or
/// `None` when the rules run out before the grid is full.
pub open spec fn spec_solve_loop(g: Seq<u8>) -> Option<Seq<u8>>
    decreases empty_count(g)
        when g.len() == 81
        via spec_solve_loop_decreases
{
    if solved(g) {
        Some(g)
    } else {
        match spec_step(g) {
            Some(p) => spec_solve_loop(place(g, p.0, p.1, p.2)),
            None => None,
        }
    }
}

#[via_fn]
proof fn spec_solve_loop_decreases(g: Seq<u8>) {
    if !solved(g) && spec_step(g) is Some {
        let p = spec_step(g)->0;
        lemma_spec_step_props(g);
        lemma_zeros_upto_update(g, p.0 * 9 + p.1, p.2, 81);
    }
}

/// The grid state left behind when the solve loop stops, solved or stuck.
pub open spec fn spec_solve_final(g: Seq<u8>) -> Seq<u8>
    decreases empty_count(g)
        when g.len() == 81
        via spec_solve_final_decreases
{
    if solved(g) {
        g
    } else {
        match spec_step(g) {
            Some(p) => spec_solve_final(place(g, p.0, p.1, p.2)),
            None => g,
        }
    }
}

#[via_fn]
proof fn spec_solve_final_decreases(g: Seq<u8>) {
    if !solved(g) && spec_step(g) is Some {
        let p = spec_step(g)->0;
        lemma_spec_step_props(g);
        lemma_zeros_upto_update(g, p.0 * 9 + p.1, p.2, 81);
    }
}

/// How many placements the solve loop makes from `g`.
pub open spec fn spec_solve_steps(g: Seq<u8>) -> nat
    decreases empty_count(g)
        when g.len() == 81
        via spec_solve_steps_decreases
{
    if solved(g) {
        0
    } else {
        match spec_step(g) {
            Some(p) => 1 + spec_solve_steps(place(g, p.0, p.1, p.2)),
            None => 0,
        }
    }
}

#[via_fn]
proof fn spec_solve_steps_decreases(g: Seq<u8>) {
    if !solved(g) && spec_step(g) is Some {
        let p = spec_step(g)->0;
        lemma_spec_step_props(g);
        lemma_zeros_upto_update(g, p.0 * 9 + p.1, p.2, 81);
    }
}

/// The candidate sequence of a filled cell is empty, and every member of a
/// candidate sequence is a candidate value.
pub proof fn lemma_cand_seq_props(g: Seq<u8>, r: int, c: int)
    ensures
        forall|w: u8| #[trigger] cand_seq(g, r, c).contains(w) <==> cand(g, r, c, w),
        forall|i: int|
            0 <= i < cand_seq(g, r, c).len() ==> cand(g, r, c, #[trigger] cand_seq(g, r, c)[i]),
        forall|i: int, j: int|
            0 <= i < j < cand_seq(g, r, c).len() ==> cand_seq(g, r, c)[i] < cand_seq(g, r, c)[j],
        cell(g, r, c) != 0 ==> cand_seq(g, r, c) == Seq::<u8>::empty(),
{
    let f = |v: u8| cand(g, r, c, v);
    lemma_asc_filter_from_props(f, 1);
    assert forall|i: int|
        0 <= i < cand_seq(g, r, c).len() implies cand(
        g,
        r,
        c,
        #[trigger] cand_seq(g, r, c)[i],
    ) by {
        assert(f(cand_seq(g, r, c)[i]));
    }
    if cell(g, r, c) != 0 {
        if cand_seq(g, r, c).len() > 0 {
            assert(f(cand_seq(g, r, c)[0]));
        }
        assert(cand_seq(g, r, c) =~= Seq::<u8>::empty());
    }
}

} // verus!
