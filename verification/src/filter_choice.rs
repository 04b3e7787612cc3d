//! The block filter a heuristic picks, as a function of the block.

use vstd::prelude::*;

use crate::constants::F_NONE;
use crate::error::CafeError;
use crate::filter::{apply_predictive_filter, block_score, coded_block_spec, is_best_code, FilterHeuristic};

verus! {

/// The stored block that `apply_predictive_filter` yields: the block
/// filtered with the best code and prefixed by it, or the lone code
/// `F_NONE` when no filter could be scored.
pub open spec fn best_filtered_block(t: Seq<u8>, h: nat, bpr: int, bpp: int, heuristic: FilterHeuristic, level: i32) -> Seq<u8> {
    if exists|code: u8| is_best_code(t, h, bpr, bpp, heuristic, level, code) {
        coded_block_spec(t, h, bpr, bpp, best_code(t, h, bpr, bpp, heuristic, level))
    } else {
        seq![F_NONE]
    }
}

/// The best filter code, when there is one.
pub open spec fn best_code(t: Seq<u8>, h: nat, bpr: int, bpp: int, heuristic: FilterHeuristic, level: i32) -> u8 {
    choose|code: u8| is_best_code(t, h, bpr, bpp, heuristic, level, code)
}

/// At most one code is the best.
pub proof fn lemma_best_code_unique(t: Seq<u8>, h: nat, bpr: int, bpp: int, heuristic: FilterHeuristic, level: i32, c1: u8, c2: u8)
    requires
        is_best_code(t, h, bpr, bpp, heuristic, level, c1),
        is_best_code(t, h, bpr, bpp, heuristic, level, c2),
    ensures c1 == c2,
{
    let s1 = block_score(t, h, bpr, bpp, heuristic, level, c1);
    let s2 = block_score(t, h, bpr, bpp, heuristic, level, c2);
    assert(s1 is Some && s2 is Some);
}

/// `apply_predictive_filter`, stated as a function of its arguments.
pub fn filter_block_best(
    tile_raw: &[u8],
    tile_height: usize,
    bytes_per_row: usize,
    bpp: usize,
    heuristic: FilterHeuristic,
    level: i32,
) -> (r: Result<Vec<u8>, CafeError>)
    requires
        bytes_per_row + 2 * bpp <= usize::MAX,
    ensures
        match r {
            Ok(v) => tile_height * bytes_per_row <= usize::MAX && tile_raw@.len() >= tile_height * bytes_per_row
                && v@ == best_filtered_block(tile_raw@, tile_height as nat, bytes_per_row as int, bpp as int, heuristic, level),
            Err(e) => e == CafeError::TruncatedFile("apply_predictive_filter: insufficient data for the block's rows")
                && (tile_height * bytes_per_row > usize::MAX || tile_raw@.len() < tile_height * bytes_per_row),
        },
{
    let r = apply_predictive_filter(tile_raw, tile_height, bytes_per_row, bpp, heuristic, level);
    proof {
        let (t, hh, b, p) = (tile_raw@, tile_height as nat, bytes_per_row as int, bpp as int);
        if r is Ok {
            let v = r->Ok_0;
            assert(!(tile_height * bytes_per_row > usize::MAX || tile_raw@.len() < tile_height * bytes_per_row));
            if exists|code: u8| is_best_code(t, hh, b, p, heuristic, level, code) {
                let c = best_code(t, hh, b, p, heuristic, level);
                assert(is_best_code(t, hh, b, p, heuristic, level, c));
                if exists|code: u8| is_best_code(t, hh, b, p, heuristic, level, code)
                    && v@ == #[trigger] coded_block_spec(t, hh, b, p, code) {
                    let c2 = choose|code: u8| is_best_code(t, hh, b, p, heuristic, level, code)
                        && v@ == #[trigger] coded_block_spec(t, hh, b, p, code);
                    lemma_best_code_unique(t, hh, b, p, heuristic, level, c, c2);
                    assert(v@ == best_filtered_block(t, hh, b, p, heuristic, level));
                } else {
                    assert(block_score(t, hh, b, p, heuristic, level, c) is None);
                    assert(false);
                }
            } else {
                assert(v@ == seq![F_NONE]);
            }
        }
    }
    r
}

} // verus!
