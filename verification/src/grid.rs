//! The grid with its candidate cache, and the executable solver operations.

use vstd::prelude::*;

use crate::model::{cell, cand, cand_seq, cand_seq_suffix, lemma_cand_seq_suffix,
    lemma_cand_seq_props, row_seq, col_seq, sec_of, sec_row, sec_col, sec_seq, solved, dup_free,
    spec_valid, remove_all, entry_remove, same_group, ucand, ucand_seq, ucand_seq_suffix,
    lemma_ucand_seq_suffix, row_peer_cand, col_peer_cand, sec_peer_cand, group_zero_count,
    zeros_upto, first_zero, first_zero_from, first_absent, first_absent_from, easy_row,
    easy_row_from, easy_col, easy_col_from, easy_sec, easy_sec_from, naked_single, naked_from,
    hidden_single, hidden_from, spec_step, place, spec_solve_loop, spec_solve_final,
    empty_count,
    lemma_spec_step_props, lemma_place_cand_seq, lemma_zeros_upto_update, lemma_first_zero_props,
    lemma_zeros_upto_none, lemma_first_absent_props};

verus! {

/// A 9x9 grid of values `0..=9` (`0` means empty), together with a cache of
/// candidate sets computed so far. The cache is a derived structure: a cached
/// entry always equals the candidate set freshly computed from the grid.
#[derive(Debug)]
pub struct GridContent {
    grid: Vec<u8>,
    missing_numbers_cache: Vec<Option<Vec<u8>>>,
}

impl View for GridContent {
    type V = Seq<u8>;

    closed spec fn view(&self) -> Seq<u8> {
        self.grid@
    }
}

impl GridContent {
    /// The cached candidate set of the cell with row-major index `i`, if any.
    pub closed spec fn cache_entry(&self, i: int) -> Option<Seq<u8>> {
        match self.missing_numbers_cache@[i] {
            Some(e) => Some(e@),
            None => None,
        }
    }

    /// Both backing vectors have their fixed size.
    pub closed spec fn dims_ok(&self) -> bool {
        &&& self.grid@.len() == 81
        &&& self.missing_numbers_cache@.len() == 81
    }

    /// Well-formed: fixed sizes, and every cached entry agrees with the
    /// candidate set recomputed from the current grid.
    pub closed spec fn wf(&self) -> bool {
        &&& self.dims_ok()
        &&& forall|i: int|
            0 <= i < 81 ==> ((#[trigger] self.cache_entry(i)) matches Some(e) ==> e == cand_seq(
                self.grid@,
                i / 9,
                i % 9,
            ))
    }

    /// A well-formed grid has its fixed sizes; callers outside this module
    /// see `wf` only as an opaque predicate and learn the sizes from here.
    pub proof fn lemma_wf_dims(&self)
        ensures
            self.wf() ==> (self.dims_ok() && self@.len() == 81),
    {
    }

    /// A well-formed grid's cache is coherent: whatever entry is cached for
    /// a cell equals the candidate set recomputed from the current grid.
    /// Callers outside this module learn that half of `wf` from here.
    pub proof fn lemma_wf_cache_coherent(&self)
        ensures
            self.wf() ==> forall|i: int|
                0 <= i < 81 ==> ((#[trigger] self.cache_entry(i)) matches Some(e) ==> e
                    == cand_seq(self@, i / 9, i % 9)),
    {
    }

    /// A cache with no entry computed yet.
    fn empty_cache() -> (c: Vec<Option<Vec<u8>>>)
        ensures
            c@.len() == 81,
            forall|j: int| 0 <= j < 81 ==> c@[j] is None,
    {
        let mut out: Vec<Option<Vec<u8>>> = Vec::new();
        let mut i: usize = 0;
        while i < 81
            invariant
                i <= 81,
                out@.len() == i,
                forall|j: int| 0 <= j < i ==> out@[j] is None,
            decreases 81 - i,
        {
            out.push(None);
            i += 1;
        }
        out
    }

    /// Builds a grid from caller-supplied values; the cache starts empty.
    pub fn new(values: [[u8; 9]; 9]) -> (g: GridContent)
        ensures
            g.wf(),
            g@.len() == 81,
            forall|r: int, c: int| 0 <= r < 9 && 0 <= c < 9 ==> cell(g@, r, c) == values@[r]@[c],
    {
        let mut grid: Vec<u8> = Vec::new();
        let mut r: usize = 0;
        while r < 9
            invariant
                r <= 9,
                grid@.len() == r * 9,
                forall|r2: int, c2: int|
                    0 <= r2 < r && 0 <= c2 < 9 ==> grid@[r2 * 9 + c2] == values@[r2]@[c2],
            decreases 9 - r,
        {
            let mut c: usize = 0;
            while c < 9
                invariant
                    r < 9,
                    c <= 9,
                    grid@.len() == r * 9 + c,
                    forall|r2: int, c2: int|
                        0 <= r2 < r && 0 <= c2 < 9 ==> grid@[r2 * 9 + c2] == values@[r2]@[c2],
                    forall|c2: int| 0 <= c2 < c ==> grid@[r * 9 + c2] == values@[r as int]@[c2],
                decreases 9 - c,
            {
                grid.push(values[r][c]);
                c += 1;
            }
            r += 1;
        }
        let g = GridContent { grid, missing_numbers_cache: Self::empty_cache() };
        assert forall|i: int| 0 <= i < 81 implies !((#[trigger] g.cache_entry(i)) is Some) by {
            assert(g.missing_numbers_cache@[i] is None);
        }
        g
    }

    /// The nine values of row `index`.
    pub fn row(&self, index: usize) -> (r: [u8; 9])
        requires
            index < 9,
            self@.len() == 81,
        ensures
            r@ == row_seq(self@, index as int),
    {
        let mut out = [0u8; 9];
        let mut c: usize = 0;
        while c < 9
            invariant
                c <= 9,
                index < 9,
                self@.len() == 81,
                out@.len() == 9,
                forall|c2: int| 0 <= c2 < c ==> out@[c2] == cell(self@, index as int, c2),
            decreases 9 - c,
        {
            out[c] = self.grid[index * 9 + c];
            c += 1;
        }
        assert(out@ =~= row_seq(self@, index as int));
        out
    }

    /// The nine values of column `index`.
    pub fn col(&self, index: usize) -> (r: [u8; 9])
        requires
            index < 9,
            self@.len() == 81,
        ensures
            r@ == col_seq(self@, index as int),
    {
        let mut out = [0u8; 9];
        let mut rr: usize = 0;
        while rr < 9
            invariant
                rr <= 9,
                index < 9,
                self@.len() == 81,
                out@.len() == 9,
                forall|r2: int| 0 <= r2 < rr ==> out@[r2] == cell(self@, r2, index as int),
            decreases 9 - rr,
        {
            out[rr] = self.grid[rr * 9 + index];
            rr += 1;
        }
        assert(out@ =~= col_seq(self@, index as int));
        out
    }

    /// The 3x3 block of values in block row `row_index`, block column
    /// `col_index` (both `0..3`).
    pub fn sec(&self, row_index: usize, col_index: usize) -> (s: [[u8; 3]; 3])
        requires
            row_index < 3,
            col_index < 3,
            self@.len() == 81,
        ensures
            forall|i: int, j: int|
                0 <= i < 3 && 0 <= j < 3 ==> s@[i]@[j] == cell(
                    self@,
                    3 * row_index + i,
                    3 * col_index + j,
                ),
    {
        let mut out = [[0u8; 3]; 3];
        let mut i: usize = 0;
        while i < 3
            invariant
                i <= 3,
                row_index < 3,
                col_index < 3,
                self@.len() == 81,
                out@.len() == 3,
                forall|i2: int| 0 <= i2 < 3 ==> out@[i2]@.len() == 3,
                forall|i2: int, j2: int|
                    0 <= i2 < i && 0 <= j2 < 3 ==> out@[i2]@[j2] == cell(
                        self@,
                        3 * row_index + i2,
                        3 * col_index + j2,
                    ),
            decreases 3 - i,
        {
            let mut line = [0u8; 3];
            let mut j: usize = 0;
            while j < 3
                invariant
                    j <= 3,
                    i < 3,
                    row_index < 3,
                    col_index < 3,
                    self@.len() == 81,
                    line@.len() == 3,
                    forall|j2: int|
                        0 <= j2 < j ==> line@[j2] == cell(
                            self@,
                            3 * row_index + i,
                            3 * col_index + j2,
                        ),
                decreases 3 - j,
            {
                line[j] = self.grid[(row_index * 3 + i) * 9 + col_index * 3 + j];
                j += 1;
            }
            out[i] = line;
            i += 1;
        }
        out
    }

    /// The nine values of sector `k` (`0..9`, row-major block order), flat.
    fn sec_vals(&self, k: usize) -> (s: [u8; 9])
        requires
            k < 9,
            self@.len() == 81,
        ensures
            s@ == sec_seq(self@, k as int),
    {
        let mut out = [0u8; 9];
        let mut p: usize = 0;
        while p < 9
            invariant
                p <= 9,
                k < 9,
                self@.len() == 81,
                out@.len() == 9,
                forall|p2: int| 0 <= p2 < p ==> out@[p2] == sec_seq(self@, k as int)[p2],
            decreases 9 - p,
        {
            out[p] = self.grid[((k / 3) * 3 + p / 3) * 9 + (k % 3) * 3 + p % 3];
            p += 1;
        }
        assert(out@ =~= sec_seq(self@, k as int));
        out
    }

    /// True iff no cell is empty.
    pub fn is_solved(&self) -> (r: bool)
        requires
            self@.len() == 81,
        ensures
            r == solved(self@),
    {
        let mut i: usize = 0;
        while i < 81
            invariant
                i <= 81,
                self@.len() == 81,
                forall|j: int| 0 <= j < i ==> self@[j] != 0,
            decreases 81 - i,
        {
            if self.grid[i] == 0 {
                return false;
            }
            i += 1;
        }
        true
    }

    /// True iff no value `1..=9` occurs twice among `values`.
    pub fn is_valid(values: &[u8]) -> (r: bool)
        ensures
            r == dup_free(values@),
    {
        let mut seen: Vec<bool> = Vec::new();
        let mut s: usize = 0;
        while s < 10
            invariant
                s <= 10,
                seen@.len() == s,
                forall|w: int| 0 <= w < s ==> !seen@[w],
            decreases 10 - s,
        {
            seen.push(false);
            s += 1;
        }
        let mut i: usize = 0;
        while i < values.len()
            invariant
                i <= values@.len(),
                seen@.len() == 10,
                forall|w: u8|
                    1 <= w <= 9 ==> (#[trigger] seen@[w as int] <==> exists|j: int|
                        0 <= j < i && values@[j] == w),
                forall|a: int, b: int|
                    0 <= a < b < i ==> !(#[trigger] values@[a] == #[trigger] values@[b] && 1
                        <= values@[a] <= 9),
            decreases values@.len() - i,
        {
            let v = values[i];
            if v >= 1 && v <= 9 {
                if seen[v as usize] {
                    proof {
                        let j = choose|j: int| 0 <= j < i && values@[j] == v;
                        assert(!(values@[j] == values@[i as int] && 1 <= values@[j] <= 9) ==> !dup_free(
                            values@,
                        ));
                    }
                    return false;
                }
                seen[v as usize] = true;
            }
            i += 1;
        }
        true
    }

    /// True iff `v` occurs among `values`.
    fn has_value(values: &[u8], v: u8) -> (r: bool)
        ensures
            r == values@.contains(v),
    {
        let mut i: usize = 0;
        while i < values.len()
            invariant
                i <= values@.len(),
                forall|j: int| 0 <= j < i ==> values@[j] != v,
            decreases values@.len() - i,
        {
            if values[i] == v {
                assert(values@[i as int] == v);
                return true;
            }
            i += 1;
        }
        false
    }

    /// A fresh vector with the same values.
    fn copy_values(values: &Vec<u8>) -> (out: Vec<u8>)
        ensures
            out@ == values@,
    {
        let mut out: Vec<u8> = Vec::new();
        let mut i: usize = 0;
        while i < values.len()
            invariant
                i <= values@.len(),
                out@ == values@.subrange(0, i as int),
            decreases values@.len() - i,
        {
            out.push(values[i]);
            assert(out@ =~= values@.subrange(0, i + 1));
            i += 1;
        }
        assert(out@ =~= values@);
        out
    }

    /// The candidate set of the cell at (`row`, `col`): the values `1..=9`
    /// absent from its row, column and sector, ascending; empty for a filled
    /// cell. The result is served from the cache when present, and cached
    /// otherwise; no other cell's entry is touched either way.
    pub fn missing_numbers(&mut self, row: usize, col: usize) -> (m: Vec<u8>)
        requires
            row < 9,
            col < 9,
            old(self).wf(),
        ensures
            final(self).wf(),
            final(self)@ == old(self)@,
            m@ == cand_seq(old(self)@, row as int, col as int),
            final(self).cache_entry(row * 9 + col) == Some(
                cand_seq(old(self)@, row as int, col as int),
            ),
            forall|i: int|
                0 <= i < 81 && i != row * 9 + col ==> #[trigger] final(self).cache_entry(i) == old(
                    self,
                ).cache_entry(i),
    {
        let idx = row * 9 + col;
        if self.missing_numbers_cache[idx].is_some() {
            let m = Self::copy_values(self.missing_numbers_cache[idx].as_ref().unwrap());
            assert(self.cache_entry(idx as int) matches Some(e) && e == m@);
            return m;
        }
        if self.grid[idx] != 0 {
            self.missing_numbers_cache[idx] = Some(Vec::new());
            proof {
                lemma_cand_seq_props(self@, row as int, col as int);
                assert forall|i: int| 0 <= i < 81 && i != idx implies self.cache_entry(i)
                    == old(self).cache_entry(i) by {}
            }
            return Vec::new();
        }
        let row_vals = self.row(row);
        let col_vals = self.col(col);
        let sector_vals = self.sec_vals((row / 3) * 3 + col / 3);
        let ghost g = self@;
        let ghost r_ = row as int;
        let ghost c_ = col as int;
        proof {
            lemma_cand_seq_suffix(g, r_, c_, 1);
        }
        let mut out: Vec<u8> = Vec::new();
        let mut v: u8 = 1;
        while v <= 9
            invariant
                1 <= v <= 10,
                row < 9,
                col < 9,
                g == self@,
                g.len() == 81,
                r_ == row as int,
                c_ == col as int,
                cell(g, r_, c_) == 0,
                row_vals@ == row_seq(g, r_),
                col_vals@ == col_seq(g, c_),
                sector_vals@ == sec_seq(g, sec_of(r_, c_)),
                cand_seq(g, r_, c_) == out@ + cand_seq_suffix(g, r_, c_, v as int),
            decreases 10 - v,
        {
            let present = Self::has_value(row_vals.as_slice(), v) || Self::has_value(
                col_vals.as_slice(),
                v,
            ) || Self::has_value(sector_vals.as_slice(), v);
            proof {
                lemma_cand_seq_suffix(g, r_, c_, v as int);
                assert(cand(g, r_, c_, v) <==> !present);
            }
            if !present {
                let ghost out0 = out@;
                out.push(v);
                proof {
                    assert(out@ =~= out0 + seq![v]);
                    assert((out0 + seq![v]) + cand_seq_suffix(g, r_, c_, v as int + 1) =~= out0 + (
                    seq![v] + cand_seq_suffix(g, r_, c_, v as int + 1)));
                }
            }
            v += 1;
        }
        proof {
            lemma_cand_seq_suffix(g, r_, c_, 10);
            assert(out@ + Seq::<u8>::empty() =~= out@);
        }
        let cached = Self::copy_values(&out);
        self.missing_numbers_cache[idx] = Some(cached);
        proof {
            assert forall|i: int| 0 <= i < 81 && i != idx implies self.cache_entry(i) == old(
                self,
            ).cache_entry(i) by {}
        }
        out
    }

    /// A fresh vector holding `values` with every occurrence of `v` removed.
    fn remove_value(values: &Vec<u8>, v: u8) -> (out: Vec<u8>)
        ensures
            out@ == remove_all(values@, v),
    {
        let mut out: Vec<u8> = Vec::new();
        proof {
            assert(values@.skip(0) =~= values@);
            assert(Seq::<u8>::empty() + remove_all(values@, v) =~= remove_all(values@, v));
        }
        let mut i: usize = 0;
        while i < values.len()
            invariant
                i <= values@.len(),
                remove_all(values@, v) == out@ + remove_all(values@.skip(i as int), v),
            decreases values@.len() - i,
        {
            let x = values[i];
            proof {
                assert(values@.skip(i as int)[0] == x);
                assert(values@.skip(i as int).drop_first() =~= values@.skip(i + 1));
            }
            if x != v {
                let ghost out0 = out@;
                out.push(x);
                proof {
                    assert(out@ =~= out0 + seq![x]);
                    assert((out0 + seq![x]) + remove_all(values@.skip(i + 1), v) =~= out0 + (
                    seq![x] + remove_all(values@.skip(i + 1), v)));
                }
            }
            i += 1;
        }
        proof {
            assert(values@.skip(values@.len() as int) =~= Seq::<u8>::empty());
            assert(out@ + Seq::<u8>::empty() =~= out@);
        }
        out
    }

    /// Strikes `number` from the cached entry at `idx`, if one exists.
    fn remove_from_entry(&mut self, idx: usize, number: u8)
        requires
            idx < 81,
            old(self).dims_ok(),
        ensures
            final(self).dims_ok(),
            final(self)@ == old(self)@,
            final(self).cache_entry(idx as int) == entry_remove(
                old(self).cache_entry(idx as int),
                number,
            ),
            forall|i: int|
                0 <= i < 81 && i != idx ==> #[trigger] final(self).cache_entry(i) == old(
                    self,
                ).cache_entry(i),
    {
        if self.missing_numbers_cache[idx].is_some() {
            let kept = Self::remove_value(
                self.missing_numbers_cache[idx].as_ref().unwrap(),
                number,
            );
            self.missing_numbers_cache[idx] = Some(kept);
        }
    }

    /// Marks in `flags[1..=9]` every value occurring in `m`.
    fn mark_values(flags: &mut [bool; 10], m: &Vec<u8>)
        requires
            forall|i: int| 0 <= i < m@.len() ==> 1 <= #[trigger] m@[i] <= 9,
        ensures
            forall|w: u8|
                1 <= w <= 9 ==> (#[trigger] final(flags)@[w as int] <==> (old(flags)@[w as int]
                    || m@.contains(w))),
    {
        let mut i: usize = 0;
        while i < m.len()
            invariant
                i <= m@.len(),
                forall|j: int| 0 <= j < m@.len() ==> 1 <= #[trigger] m@[j] <= 9,
                forall|w: u8|
                    1 <= w <= 9 ==> (#[trigger] flags@[w as int] <==> (old(flags)@[w as int]
                        || exists|j: int| 0 <= j < i && m@[j] == w)),
            decreases m@.len() - i,
        {
            let x = m[i];
            flags[x as usize] = true;
            proof {
                assert(m@[i as int] == x);
            }
            i += 1;
        }
        assert forall|w: u8|
            1 <= w <= 9 implies (#[trigger] final(flags)@[w as int] <==> (old(flags)@[w as int]
            || m@.contains(w))) by {
            if m@.contains(w) {
                let j = choose|j: int| 0 <= j < m@.len() && m@[j] == w;
                assert(0 <= j < m@.len() && m@[j] == w);
            }
        }
    }

    /// The hidden-single values for the cell at (`row`, `col`): those of its
    /// own candidates that no other cell of its row, or no other cell of its
    /// column, or no other cell of its sector, could still take. Ascending;
    /// empty for a filled cell. Peer candidate sets are computed (and
    /// cached) on the way.
    #[verifier::rlimit(100)]
    pub fn unique_missing_numbers(&mut self, row: usize, col: usize) -> (u: Vec<u8>)
        requires
            row < 9,
            col < 9,
            old(self).wf(),
        ensures
            final(self).wf(),
            final(self)@ == old(self)@,
            u@ == ucand_seq(old(self)@, row as int, col as int),
            forall|i: int|
                0 <= i < 81 && same_group(row as int, col as int, i / 9, i % 9)
                    ==> #[trigger] final(self).cache_entry(i) == Some(
                    cand_seq(old(self)@, i / 9, i % 9),
                ),
            forall|i: int|
                0 <= i < 81 && !same_group(row as int, col as int, i / 9, i % 9)
                    ==> #[trigger] final(self).cache_entry(i) == old(self).cache_entry(i),
    {
        let ghost g = old(self)@;
        let ghost r_ = row as int;
        let ghost c_ = col as int;
        let own = self.missing_numbers(row, col);
        proof {
            lemma_cand_seq_props(g, r_, c_);
        }
        let mut own_flags = [false; 10];
        Self::mark_values(&mut own_flags, &own);

        let mut row_flags = [false; 10];
        let mut c2: usize = 0;
        while c2 < 9
            invariant
                row < 9,
                col < 9,
                c2 <= 9,
                self.wf(),
                self@ == g,
                r_ == row as int,
                c_ == col as int,
                forall|w: u8|
                    1 <= w <= 9 ==> (#[trigger] row_flags@[w as int] <==> exists|cc: int|
                        0 <= cc < c2 && cc != c_ && cand(g, r_, cc, w)),
                forall|i: int|
                    0 <= i < 81 ==> #[trigger] self.cache_entry(i) == (
                    if i == r_ * 9 + c_ || (i / 9 == r_ && i % 9 < c2 && i % 9 != c_) {
                        Some(cand_seq(g, i / 9, i % 9))
                    } else {
                        old(self).cache_entry(i)
                    }),
            decreases 9 - c2,
        {
            if c2 != col {
                let m = self.missing_numbers(row, c2);
                proof {
                    lemma_cand_seq_props(g, r_, c2 as int);
                }
                Self::mark_values(&mut row_flags, &m);
            }
            c2 += 1;
        }

        let mut col_flags = [false; 10];
        let mut r2: usize = 0;
        while r2 < 9
            invariant
                row < 9,
                col < 9,
                r2 <= 9,
                self.wf(),
                self@ == g,
                r_ == row as int,
                c_ == col as int,
                forall|w: u8|
                    1 <= w <= 9 ==> (#[trigger] col_flags@[w as int] <==> exists|rr: int|
                        0 <= rr < r2 && rr != r_ && cand(g, rr, c_, w)),
                forall|i: int|
                    0 <= i < 81 ==> #[trigger] self.cache_entry(i) == (
                    if i == r_ * 9 + c_ || (i / 9 == r_ && i % 9 != c_) || (i % 9 == c_ && i / 9
                        < r2 && i / 9 != r_) {
                        Some(cand_seq(g, i / 9, i % 9))
                    } else {
                        old(self).cache_entry(i)
                    }),
            decreases 9 - r2,
        {
            if r2 != row {
                let m = self.missing_numbers(r2, col);
                proof {
                    lemma_cand_seq_props(g, r2 as int, c_);
                }
                Self::mark_values(&mut col_flags, &m);
            }
            r2 += 1;
        }

        let mut sec_flags = [false; 10];
        let ghost k = sec_of(r_, c_);
        let mut p: usize = 0;
        while p < 9
            invariant
                row < 9,
                col < 9,
                p <= 9,
                self.wf(),
                self@ == g,
                r_ == row as int,
                c_ == col as int,
                k == sec_of(r_, c_),
                forall|w: u8|
                    1 <= w <= 9 ==> (#[trigger] sec_flags@[w as int] <==> exists|pp: int|
                        0 <= pp < p && !(sec_row(k, pp) == r_ && sec_col(k, pp) == c_) && cand(
                            g,
                            sec_row(k, pp),
                            sec_col(k, pp),
                            w,
                        )),
                forall|i: int|
                    0 <= i < 81 ==> #[trigger] self.cache_entry(i) == (
                    if i == r_ * 9 + c_ || (i / 9 == r_ && i % 9 != c_) || (i % 9 == c_ && i / 9
                        != r_) || (sec_of(i / 9, i % 9) == k && ((i / 9) % 3) * 3 + (i % 9) % 3
                        < p) {
                        Some(cand_seq(g, i / 9, i % 9))
                    } else {
                        old(self).cache_entry(i)
                    }),
            decreases 9 - p,
        {
            let rr = (row / 3) * 3 + p / 3;
            let cc = (col / 3) * 3 + p % 3;
            proof {
                assert(rr == sec_row(k, p as int) && cc == sec_col(k, p as int));
            }
            if !(rr == row && cc == col) {
                let m = self.missing_numbers(rr, cc);
                proof {
                    lemma_cand_seq_props(g, rr as int, cc as int);
                }
                Self::mark_values(&mut sec_flags, &m);
            }
            p += 1;
        }

        proof {
            assert forall|w: u8| 1 <= w <= 9 implies (#[trigger] own_flags@[w as int] <==> cand(
                g,
                r_,
                c_,
                w,
            )) by {}
            assert forall|w: u8|
                1 <= w <= 9 implies (#[trigger] row_flags@[w as int] <==> row_peer_cand(
                g,
                r_,
                c_,
                w,
            )) by {}
            assert forall|w: u8|
                1 <= w <= 9 implies (#[trigger] col_flags@[w as int] <==> col_peer_cand(
                g,
                r_,
                c_,
                w,
            )) by {}
            assert forall|w: u8|
                1 <= w <= 9 implies (#[trigger] sec_flags@[w as int] <==> sec_peer_cand(
                g,
                r_,
                c_,
                w,
            )) by {}
            lemma_ucand_seq_suffix(g, r_, c_, 1);
        }
        let mut out: Vec<u8> = Vec::new();
        let mut v: u8 = 1;
        while v <= 9
            invariant
                1 <= v <= 10,
                r_ == row as int,
                c_ == col as int,
                forall|w: u8| 1 <= w <= 9 ==> (#[trigger] own_flags@[w as int] <==> cand(g, r_, c_, w)),
                forall|w: u8|
                    1 <= w <= 9 ==> (#[trigger] row_flags@[w as int] <==> row_peer_cand(g, r_, c_, w)),
                forall|w: u8|
                    1 <= w <= 9 ==> (#[trigger] col_flags@[w as int] <==> col_peer_cand(g, r_, c_, w)),
                forall|w: u8|
                    1 <= w <= 9 ==> (#[trigger] sec_flags@[w as int] <==> sec_peer_cand(g, r_, c_, w)),
                ucand_seq(g, r_, c_) == out@ + ucand_seq_suffix(g, r_, c_, v as int),
            decreases 10 - v,
        {
            let keep = own_flags[v as usize] && (!row_flags[v as usize] || !col_flags[v as usize]
                || !sec_flags[v as usize]);
            proof {
                lemma_ucand_seq_suffix(g, r_, c_, v as int);
                assert(ucand(g, r_, c_, v) <==> keep);
            }
            if keep {
                let ghost out0 = out@;
                out.push(v);
                proof {
                    assert(out@ =~= out0 + seq![v]);
                    assert((out0 + seq![v]) + ucand_seq_suffix(g, r_, c_, v as int + 1) =~= out0 + (
                    seq![v] + ucand_seq_suffix(g, r_, c_, v as int + 1)));
                }
            }
            v += 1;
        }
        proof {
            lemma_ucand_seq_suffix(g, r_, c_, 10);
            assert(out@ + Seq::<u8>::empty() =~= out@);
        }
        out
    }

    /// Records the assignment of `number` to the cell at (`row`, `col`) in
    /// the cache: that cell's entry becomes empty, and `number` is struck
    /// from every already-cached entry of a cell sharing a row, column or
    /// sector. No new entries are created.
    pub fn remove_number_from_related_cells(&mut self, row: usize, col: usize, number: u8)
        requires
            row < 9,
            col < 9,
            old(self).dims_ok(),
        ensures
            final(self).dims_ok(),
            final(self)@ == old(self)@,
            final(self).cache_entry((row * 9 + col) as int) == Some(Seq::<u8>::empty()),
            forall|i: int|
                0 <= i < 81 && i != row * 9 + col && same_group(
                    row as int,
                    col as int,
                    i / 9,
                    i % 9,
                ) ==> #[trigger] final(self).cache_entry(i) == entry_remove(
                    old(self).cache_entry(i),
                    number,
                ),
            forall|i: int|
                0 <= i < 81 && !same_group(row as int, col as int, i / 9, i % 9)
                    ==> #[trigger] final(self).cache_entry(i) == old(self).cache_entry(i),
    {
        let idx0 = row * 9 + col;
        self.missing_numbers_cache[idx0] = Some(Vec::new());
        proof {
            assert forall|i: int| 0 <= i < 81 && i != idx0 implies self.cache_entry(i) == old(
                self,
            ).cache_entry(i) by {}
        }
        let mut j: usize = 0;
        while j < 81
            invariant
                row < 9,
                col < 9,
                j <= 81,
                idx0 == row * 9 + col,
                self.dims_ok(),
                self@ == old(self)@,
                self.cache_entry(idx0 as int) == Some(Seq::<u8>::empty()),
                forall|i: int|
                    0 <= i < 81 && i != idx0 && i < j && same_group(
                        row as int,
                        col as int,
                        i / 9,
                        i % 9,
                    ) ==> #[trigger] self.cache_entry(i) == entry_remove(
                        old(self).cache_entry(i),
                        number,
                    ),
                forall|i: int|
                    0 <= i < 81 && i != idx0 && (i >= j || !same_group(
                        row as int,
                        col as int,
                        i / 9,
                        i % 9,
                    )) ==> #[trigger] self.cache_entry(i) == old(self).cache_entry(i),
            decreases 81 - j,
        {
            if j != idx0 && (j / 9 == row || j % 9 == col || ((j / 9) / 3 == row / 3 && (j % 9) / 3
                == col / 3)) {
                self.remove_from_entry(j, number);
            }
            j += 1;
        }
    }

    /// True iff the grid is a valid puzzle state: every cell in `0..=9`, and
    /// all 27 groups free of repeated nonzero values.
    pub fn is_valid_sudoku(&self) -> (r: bool)
        requires
            self@.len() == 81,
        ensures
            r == spec_valid(self@),
    {
        let mut i: usize = 0;
        while i < 81
            invariant
                i <= 81,
                self@.len() == 81,
                forall|j: int| 0 <= j < i ==> #[trigger] self@[j] <= 9,
            decreases 81 - i,
        {
            if self.grid[i] > 9 {
                return false;
            }
            i += 1;
        }
        let mut r: usize = 0;
        while r < 9
            invariant
                r <= 9,
                self@.len() == 81,
                forall|r2: int| 0 <= r2 < r ==> dup_free(#[trigger] row_seq(self@, r2)),
            decreases 9 - r,
        {
            let vals = self.row(r);
            if !Self::is_valid(vals.as_slice()) {
                return false;
            }
            r += 1;
        }
        let mut c: usize = 0;
        while c < 9
            invariant
                c <= 9,
                self@.len() == 81,
                forall|c2: int| 0 <= c2 < c ==> dup_free(#[trigger] col_seq(self@, c2)),
            decreases 9 - c,
        {
            let vals = self.col(c);
            if !Self::is_valid(vals.as_slice()) {
                return false;
            }
            c += 1;
        }
        let mut k: usize = 0;
        while k < 9
            invariant
                k <= 9,
                self@.len() == 81,
                forall|k2: int| 0 <= k2 < k ==> dup_free(#[trigger] sec_seq(self@, k2)),
            decreases 9 - k,
        {
            let vals = self.sec_vals(k);
            if !Self::is_valid(vals.as_slice()) {
                return false;
            }
            k += 1;
        }
        true
    }

    /// Number of empty cells in the nine-value group.
    fn count_zeros(values: &[u8; 9]) -> (n: usize)
        ensures
            n == group_zero_count(values@),
    {
        let mut n: usize = 0;
        let mut p: usize = 0;
        while p < 9
            invariant
                p <= 9,
                n <= p,
                n == zeros_upto(values@, p as int),
            decreases 9 - p,
        {
            if values[p] == 0 {
                n += 1;
            }
            p += 1;
        }
        n
    }

    /// Position of the first empty cell of the group, or 9 if it is full.
    fn first_zero_pos(values: &[u8; 9]) -> (p: usize)
        ensures
            p == first_zero(values@),
    {
        let mut p: usize = 0;
        while p < 9
            invariant
                p <= 9,
                first_zero(values@) == first_zero_from(values@, p as int),
            decreases 9 - p,
        {
            if values[p] == 0 {
                return p;
            }
            p += 1;
        }
        9
    }

    /// The least value `1..=9` absent from the group, if any.
    fn first_absent_val(values: &[u8; 9]) -> (a: Option<u8>)
        ensures
            a == first_absent(values@),
    {
        let mut v: u8 = 1;
        while v <= 9
            invariant
                1 <= v <= 10,
                first_absent(values@) == first_absent_from(values@, v as int),
            decreases 10 - v,
        {
            if !Self::has_value(values.as_slice(), v) {
                return Some(v);
            }
            v += 1;
        }
        None
    }

    /// Scans rows top to bottom for the first with exactly one empty cell
    /// whose missing value is a full candidate of that cell; names that cell
    /// and that value.
    pub fn find_easy_row(&self) -> (r: Option<(usize, usize, u8)>)
        requires
            self@.len() == 81,
        ensures
            r matches Some(p) ==> easy_row(self@) == Some((p.0 as int, p.1 as int, p.2)),
            r is None ==> easy_row(self@) is None,
    {
        let mut row: usize = 0;
        while row < 9
            invariant
                row <= 9,
                self@.len() == 81,
                easy_row(self@) == easy_row_from(self@, row as int),
            decreases 9 - row,
        {
            let vals = self.row(row);
            if Self::count_zeros(&vals) == 1 {
                let a = Self::first_absent_val(&vals);
                if let Some(v) = a {
                    let zp = Self::first_zero_pos(&vals);
                    proof {
                        lemma_first_zero_props(vals@, 0);
                        if first_zero(vals@) == 9 {
                            lemma_zeros_upto_none(vals@, 9);
                        }
                        lemma_first_absent_props(vals@, 1);
                    }
                    let col_vals = self.col(zp);
                    let sector_vals = self.sec_vals((row / 3) * 3 + zp / 3);
                    if !Self::has_value(col_vals.as_slice(), v) && !Self::has_value(
                        sector_vals.as_slice(),
                        v,
                    ) {
                        proof {
                            assert(cand(self@, row as int, zp as int, v));
                        }
                        return Some((row, zp, v));
                    }
                    proof {
                        assert(!cand(self@, row as int, zp as int, v));
                    }
                }
            }
            row += 1;
        }
        None
    }

    /// Scans columns left to right for the first with exactly one empty
    /// cell whose missing value is a full candidate of that cell; names that
    /// cell and that value.
    pub fn find_easy_col(&self) -> (r: Option<(usize, usize, u8)>)
        requires
            self@.len() == 81,
        ensures
            r matches Some(p) ==> easy_col(self@) == Some((p.0 as int, p.1 as int, p.2)),
            r is None ==> easy_col(self@) is None,
    {
        let mut col: usize = 0;
        while col < 9
            invariant
                col <= 9,
                self@.len() == 81,
                easy_col(self@) == easy_col_from(self@, col as int),
            decreases 9 - col,
        {
            let vals = self.col(col);
            if Self::count_zeros(&vals) == 1 {
                let a = Self::first_absent_val(&vals);
                if let Some(v) = a {
                    let zp = Self::first_zero_pos(&vals);
                    proof {
                        lemma_first_zero_props(vals@, 0);
                        if first_zero(vals@) == 9 {
                            lemma_zeros_upto_none(vals@, 9);
                        }
                        lemma_first_absent_props(vals@, 1);
                    }
                    let row_vals = self.row(zp);
                    let sector_vals = self.sec_vals((zp / 3) * 3 + col / 3);
                    if !Self::has_value(row_vals.as_slice(), v) && !Self::has_value(
                        sector_vals.as_slice(),
                        v,
                    ) {
                        proof {
                            assert(cand(self@, zp as int, col as int, v));
                        }
                        return Some((zp, col, v));
                    }
                    proof {
                        assert(!cand(self@, zp as int, col as int, v));
                    }
                }
            }
            col += 1;
        }
        None
    }

    /// Scans sectors in row-major block order for the first with exactly one
    /// empty cell whose missing value is a full candidate of that cell;
    /// names that cell and that value.
    pub fn find_easy_sec(&self) -> (r: Option<(usize, usize, u8)>)
        requires
            self@.len() == 81,
        ensures
            r matches Some(p) ==> easy_sec(self@) == Some((p.0 as int, p.1 as int, p.2)),
            r is None ==> easy_sec(self@) is None,
    {
        let mut k: usize = 0;
        while k < 9
            invariant
                k <= 9,
                self@.len() == 81,
                easy_sec(self@) == easy_sec_from(self@, k as int),
            decreases 9 - k,
        {
            let vals = self.sec_vals(k);
            if Self::count_zeros(&vals) == 1 {
                let a = Self::first_absent_val(&vals);
                if let Some(v) = a {
                    let zp = Self::first_zero_pos(&vals);
                    proof {
                        lemma_first_zero_props(vals@, 0);
                        if first_zero(vals@) == 9 {
                            lemma_zeros_upto_none(vals@, 9);
                        }
                        lemma_first_absent_props(vals@, 1);
                        assert((k / 3) * 3 + zp / 3 == sec_row(k as int, zp as int));
                        assert((k % 3) * 3 + zp % 3 == sec_col(k as int, zp as int));
                    }
                    let rr = (k / 3) * 3 + zp / 3;
                    let cc = (k % 3) * 3 + zp % 3;
                    let row_vals = self.row(rr);
                    let col_vals = self.col(cc);
                    if !Self::has_value(row_vals.as_slice(), v) && !Self::has_value(
                        col_vals.as_slice(),
                        v,
                    ) {
                        proof {
                            assert(sec_of(rr as int, cc as int) == k as int);
                            assert(cand(self@, rr as int, cc as int, v));
                        }
                        return Some((rr, cc, v));
                    }
                    proof {
                        assert(sec_of(rr as int, cc as int) == k as int);
                        assert(!cand(self@, rr as int, cc as int, v));
                    }
                }
            }
            k += 1;
        }
        None
    }

    /// Scans cells in row-major order for the first whose candidate set has
    /// exactly one value; names that cell and value.
    pub fn find_cell_with_one_missing(&mut self) -> (r: Option<(usize, usize, u8)>)
        requires
            old(self).wf(),
        ensures
            final(self).wf(),
            final(self)@ == old(self)@,
            r matches Some(p) ==> naked_single(old(self)@) == Some((p.0 as int, p.1 as int, p.2)),
            r is None ==> naked_single(old(self)@) is None,
    {
        let ghost g = old(self)@;
        let mut row: usize = 0;
        while row < 9
            invariant
                row <= 9,
                self.wf(),
                self@ == g,
                g == old(self)@,
                naked_single(g) == naked_from(g, row as int * 9),
            decreases 9 - row,
        {
            let mut col: usize = 0;
            while col < 9
                invariant
                    row < 9,
                    col <= 9,
                    self.wf(),
                    self@ == g,
                    g == old(self)@,
                    naked_single(g) == naked_from(g, row as int * 9 + col as int),
                decreases 9 - col,
            {
                let m = self.missing_numbers(row, col);
                proof {
                    assert((row as int * 9 + col as int) / 9 == row as int);
                    assert((row as int * 9 + col as int) % 9 == col as int);
                }
                if m.len() == 1 {
                    return Some((row, col, m[0]));
                }
                col += 1;
            }
            row += 1;
        }
        None
    }

    /// Scans cells in row-major order for the first whose hidden-single
    /// filter keeps some value; names that cell and the least kept value.
    pub fn find_cell_with_unique_missing(&mut self) -> (r: Option<(usize, usize, u8)>)
        requires
            old(self).wf(),
        ensures
            final(self).wf(),
            final(self)@ == old(self)@,
            r matches Some(p) ==> hidden_single(old(self)@) == Some((p.0 as int, p.1 as int, p.2)),
            r is None ==> hidden_single(old(self)@) is None,
    {
        let ghost g = old(self)@;
        let mut row: usize = 0;
        while row < 9
            invariant
                row <= 9,
                self.wf(),
                self@ == g,
                g == old(self)@,
                hidden_single(g) == hidden_from(g, row as int * 9),
            decreases 9 - row,
        {
            let mut col: usize = 0;
            while col < 9
                invariant
                    row < 9,
                    col <= 9,
                    self.wf(),
                    self@ == g,
                    g == old(self)@,
                    hidden_single(g) == hidden_from(g, row as int * 9 + col as int),
                decreases 9 - col,
            {
                let m = self.unique_missing_numbers(row, col);
                proof {
                    assert((row as int * 9 + col as int) / 9 == row as int);
                    assert((row as int * 9 + col as int) % 9 == col as int);
                }
                if m.len() > 0 {
                    return Some((row, col, m[0]));
                }
                col += 1;
            }
            row += 1;
        }
        None
    }

    /// The placement the solver commits to next, trying the five rules in
    /// priority order.
    fn next_placement(&mut self) -> (r: Option<(usize, usize, u8)>)
        requires
            old(self).wf(),
        ensures
            final(self).wf(),
            final(self)@ == old(self)@,
            r matches Some(p) ==> spec_step(old(self)@) == Some((p.0 as int, p.1 as int, p.2)),
            r is None ==> spec_step(old(self)@) is None,
    {
        if let Some(p) = self.find_easy_row() {
            return Some(p);
        }
        if let Some(p) = self.find_easy_col() {
            return Some(p);
        }
        if let Some(p) = self.find_easy_sec() {
            return Some(p);
        }
        if let Some(p) = self.find_cell_with_one_missing() {
            return Some(p);
        }
        if let Some(p) = self.find_cell_with_unique_missing() {
            return Some(p);
        }
        None
    }

    /// A fresh grid with the same cell values and no cached entries.
    fn snapshot(&self) -> (g: GridContent)
        requires
            self.wf(),
        ensures
            g.wf(),
            g@ == self@,
    {
        let g = GridContent {
            grid: Self::copy_values(&self.grid),
            missing_numbers_cache: Self::empty_cache(),
        };
        assert forall|i: int| 0 <= i < 81 implies !((#[trigger] g.cache_entry(i)) is Some) by {
            assert(g.missing_numbers_cache@[i] is None);
        }
        g
    }

    /// Solves the grid by deduction alone. Checks validity once up front;
    /// then repeatedly commits the highest-priority placement, mutating the
    /// grid in place, until the grid is full (a fresh copy of it is
    /// returned) or no rule fires (the grid keeps its partial state). Every
    /// placement is a candidate of its cell, so a valid grid stays valid
    /// throughout, and a successful output is solved and valid.
    pub fn solve(&mut self) -> (res: Result<GridContent, String>)
        requires
            old(self).wf(),
        ensures
            final(self).wf(),
            !spec_valid(old(self)@) ==> (res matches Err(m) && m@ == "Not valid"@ && final(self)@
                == old(self)@),
            spec_valid(old(self)@) ==> final(self)@ == spec_solve_final(old(self)@),
            spec_valid(old(self)@) ==> spec_valid(final(self)@),
            spec_valid(old(self)@) ==> (res matches Ok(out) ==> solved(out@) && spec_valid(out@)),
            spec_valid(old(self)@) ==> (spec_solve_loop(old(self)@) matches Some(s) ==> (
            res matches Ok(out) && out@ == s && final(self)@ == s)),
            spec_valid(old(self)@) ==> (spec_solve_loop(old(self)@) is None ==> (res matches Err(m)
                && m@ == "Cannot find next move"@)),
    {
        let ghost g0 = old(self)@;
        if !self.is_valid_sudoku() {
            return Err("Not valid".to_owned());
        }
        proof {
            crate::laws::lemma_solve_preserves_validity(g0);
        }
        while !self.is_solved()
            invariant
                self.wf(),
                g0 == old(self)@,
                g0.len() == 81,
                spec_valid(g0),
                spec_valid(spec_solve_final(g0)),
                spec_solve_loop(g0) == spec_solve_loop(self@),
                spec_solve_final(g0) == spec_solve_final(self@),
            decreases empty_count(self@),
        {
            let ghost g_pre = self@;
            let placement = self.next_placement();
            match placement {
                Some((row, col, val)) => {
                    proof {
                        lemma_spec_step_props(g_pre);
                    }
                    let ghost pre = *self;
                    let idx = row * 9 + col;
                    self.grid[idx] = val;
                    proof {
                        assert(self@ == place(g_pre, row as int, col as int, val));
                        assert forall|i: int|
                            0 <= i < 81 implies #[trigger] self.cache_entry(i) == pre.cache_entry(
                            i,
                        ) by {}
                    }
                    let ghost mid = *self;
                    self.remove_number_from_related_cells(row, col, val);
                    proof {
                        let gp = place(g_pre, row as int, col as int, val);
                        assert forall|i: int|
                            0 <= i < 81 implies ((#[trigger] self.cache_entry(i)) matches Some(e)
                            ==> e == cand_seq(gp, i / 9, i % 9)) by {
                            let r2 = i / 9;
                            let c2 = i % 9;
                            if i == idx {
                                lemma_cand_seq_props(gp, r2, c2);
                            } else {
                                assert(!(r2 == row as int && c2 == col as int));
                                lemma_place_cand_seq(g_pre, row as int, col as int, val, r2, c2);
                                assert(mid.cache_entry(i) == pre.cache_entry(i));
                            }
                        }
                        assert(self.wf());
                        lemma_zeros_upto_update(g_pre, idx as int, val, 81);
                    }
                },
                None => {
                    return Err("Cannot find next move".to_owned());
                },
            }
        }
        let out = self.snapshot();
        Ok(out)
    }
}

} // verus!
