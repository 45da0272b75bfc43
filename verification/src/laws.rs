//! Library-wide laws, stated and proved over the model.

use vstd::prelude::*;

use crate::model::{cell, cand, cand_seq, in_row, in_col, in_sec, row_seq, col_seq, sec_of,
    sec_seq, spec_valid, place, solved, spec_solve_loop, spec_solve_final, spec_solve_steps,
    spec_step, empty_count, lemma_cand_seq_props, lemma_spec_step_props, lemma_zeros_upto_bound,
    lemma_zeros_upto_update};

verus! {

/// A cell's candidate set holds exactly the values `1..=9` found in none of
/// the cell's three groups, whenever the cell is empty.
pub proof fn lemma_candidates_are_missing_values(g: Seq<u8>, r: int, c: int, v: u8)
    requires
        cell(g, r, c) == 0,
    ensures
        cand_seq(g, r, c).contains(v) <==> (1 <= v <= 9 && !in_row(g, r, v) && !in_col(g, c, v)
            && !in_sec(g, r, c, v)),
{
    lemma_cand_seq_props(g, r, c);
}

/// Placing a candidate value in its cell keeps the grid valid: no group
/// gains a repeated nonzero value, and the placed value is in range.
#[verifier::rlimit(60)]
pub proof fn lemma_placement_preserves_validity(g: Seq<u8>, r: int, c: int, v: u8)
    requires
        g.len() == 81,
        0 <= r < 9,
        0 <= c < 9,
        spec_valid(g),
        cand(g, r, c, v),
    ensures
        spec_valid(place(g, r, c, v)),
{
    let g2 = place(g, r, c, v);
    assert forall|i: int| 0 <= i < 81 implies #[trigger] g2[i] <= 9 by {
        if i != r * 9 + c {
            assert(g2[i] == g[i]);
        }
    }
    assert forall|r3: int, c3: int|
        0 <= r3 < 9 && 0 <= c3 < 9 && !(r3 == r && c3 == c) implies #[trigger] cell(g2, r3, c3)
        == cell(g, r3, c3) by {
        assert(r3 * 9 + c3 != r * 9 + c);
    }
    assert forall|r3: int| 0 <= r3 < 9 implies crate::model::dup_free(
        #[trigger] row_seq(g2, r3),
    ) by {
        if r3 != r {
            assert(row_seq(g2, r3) =~= row_seq(g, r3));
        } else {
            let s = row_seq(g2, r);
            let s0 = row_seq(g, r);
            assert forall|i: int, j: int|
                0 <= i < j < 9 implies !(#[trigger] s[i] == #[trigger] s[j] && 1 <= s[i] <= 9) by {
                if i != c && j != c {
                    assert(s[i] == s0[i] && s[j] == s0[j]);
                } else if i == c {
                    if s[j] == v && 1 <= v <= 9 {
                        assert(s0[j] == v);
                        assert(in_row(g, r, v));
                    }
                } else {
                    if s[i] == v && 1 <= v <= 9 {
                        assert(s0[i] == v);
                        assert(in_row(g, r, v));
                    }
                }
            }
        }
    }
    assert forall|c3: int| 0 <= c3 < 9 implies crate::model::dup_free(
        #[trigger] col_seq(g2, c3),
    ) by {
        if c3 != c {
            assert(col_seq(g2, c3) =~= col_seq(g, c3));
        } else {
            let s = col_seq(g2, c);
            let s0 = col_seq(g, c);
            assert forall|i: int, j: int|
                0 <= i < j < 9 implies !(#[trigger] s[i] == #[trigger] s[j] && 1 <= s[i] <= 9) by {
                if i != r && j != r {
                    assert(s[i] == s0[i] && s[j] == s0[j]);
                } else if i == r {
                    if s[j] == v && 1 <= v <= 9 {
                        assert(s0[j] == v);
                        assert(in_col(g, c, v));
                    }
                } else {
                    if s[i] == v && 1 <= v <= 9 {
                        assert(s0[i] == v);
                        assert(in_col(g, c, v));
                    }
                }
            }
        }
    }
    let k0 = sec_of(r, c);
    let p0 = (r % 3) * 3 + c % 3;
    assert forall|k: int| 0 <= k < 9 implies crate::model::dup_free(#[trigger] sec_seq(g2, k)) by {
        if k != k0 {
            assert forall|p: int| 0 <= p < 9 implies sec_seq(g2, k)[p] == sec_seq(g, k)[p] by {
                let rp = (k / 3) * 3 + p / 3;
                let cp = (k % 3) * 3 + p % 3;
                assert(!(rp == r && cp == c));
            }
            assert(sec_seq(g2, k) =~= sec_seq(g, k));
        } else {
            let s = sec_seq(g2, k0);
            let s0 = sec_seq(g, k0);
            assert(s[p0] == v);
            assert forall|p: int| 0 <= p < 9 && p != p0 implies s[p] == s0[p] by {
                let rp = (k0 / 3) * 3 + p / 3;
                let cp = (k0 % 3) * 3 + p % 3;
                assert(!(rp == r && cp == c));
            }
            assert forall|i: int, j: int|
                0 <= i < j < 9 implies !(#[trigger] s[i] == #[trigger] s[j] && 1 <= s[i] <= 9) by {
                if i != p0 && j != p0 {
                    assert(s[i] == s0[i] && s[j] == s0[j]);
                } else if i == p0 {
                    if s[j] == v && 1 <= v <= 9 {
                        assert(s0[j] == v);
                        assert(in_sec(g, r, c, v));
                    }
                } else {
                    if s[i] == v && 1 <= v <= 9 {
                        assert(s0[i] == v);
                        assert(in_sec(g, r, c, v));
                    }
                }
            }
        }
    }
}

/// Whichever of the five rules fires, the placement the solver commits to
/// is a candidate of its cell: the value is absent from all three of the
/// cell's groups.
pub proof fn lemma_step_is_candidate(g: Seq<u8>)
    requires
        g.len() == 81,
    ensures
        spec_step(g) matches Some(p) ==> 0 <= p.0 < 9 && 0 <= p.1 < 9 && cand(g, p.0, p.1, p.2),
{
    lemma_spec_step_props(g);
}

/// Validity preservation, one step: applying the placement the solver
/// commits to leaves a valid grid valid.
pub proof fn lemma_step_preserves_validity(g: Seq<u8>)
    requires
        g.len() == 81,
        spec_valid(g),
    ensures
        spec_step(g) matches Some(p) ==> spec_valid(place(g, p.0, p.1, p.2)),
{
    lemma_spec_step_props(g);
    if spec_step(g) is Some {
        let p = spec_step(g)->0;
        lemma_placement_preserves_validity(g, p.0, p.1, p.2);
    }
}

/// Validity preservation, whole run: from a valid grid the solve loop keeps
/// the grid valid after every placement, so its final state — solved or
/// stuck — is valid, and so is any successful output.
pub proof fn lemma_solve_preserves_validity(g: Seq<u8>)
    requires
        g.len() == 81,
        spec_valid(g),
    ensures
        spec_valid(spec_solve_final(g)),
        spec_solve_loop(g) matches Some(s) ==> spec_valid(s),
    decreases empty_count(g),
{
    if !solved(g) && spec_step(g) is Some {
        let p = spec_step(g)->0;
        lemma_spec_step_props(g);
        lemma_placement_preserves_validity(g, p.0, p.1, p.2);
        lemma_zeros_upto_update(g, p.0 * 9 + p.1, p.2, 81);
        lemma_solve_preserves_validity(place(g, p.0, p.1, p.2));
    }
}

/// A grid that is already solved is returned unchanged, with no placements.
pub proof fn lemma_solve_idempotent_on_solved(g: Seq<u8>)
    requires
        g.len() == 81,
        solved(g),
    ensures
        spec_solve_loop(g) == Some(g),
        spec_solve_steps(g) == 0,
{
}

/// The solve loop makes at most one placement per empty cell, hence at most
/// 81 placements in all.
pub proof fn lemma_solver_step_bound(g: Seq<u8>)
    requires
        g.len() == 81,
    ensures
        spec_solve_steps(g) <= empty_count(g) <= 81,
    decreases empty_count(g),
{
    lemma_zeros_upto_bound(g, 81);
    if !solved(g) && spec_step(g) is Some {
        let p = spec_step(g)->0;
        lemma_spec_step_props(g);
        lemma_zeros_upto_update(g, p.0 * 9 + p.1, p.2, 81);
        lemma_solver_step_bound(place(g, p.0, p.1, p.2));
    }
}

} // verus!
