//! The order in which `pack.mcmeta` sources are preferred, as a comparison.
use vstd::prelude::*;
use std::cmp::Ordering;
use crate::names::{candidate_lt, candidate_rank, mcmeta_candidate_before};
use crate::text::{lemma_lex_total, lex_lt, lower, seq_eq};

verus! {

/// `candidate_lt` orders any two different names one way or the other,
/// never both.
pub proof fn lemma_candidate_total(a: Seq<char>, b: Seq<char>)
    ensures
        candidate_lt(a, b) || a == b || candidate_lt(b, a),
        !(candidate_lt(a, b) && candidate_lt(b, a)),
        !candidate_lt(a, a),
{
    lemma_lex_total(lower(a), lower(b));
    lemma_lex_total(a, b);
    lemma_lex_total(lower(a), lower(a));
    lemma_lex_total(a, a);
}

/// Compares two `pack.mcmeta` sources: rank, then case-folded name, then
/// exact name.
pub fn mcmeta_candidate_cmp(a: &[char], b: &[char]) -> (r: Ordering)
    ensures
        (r == Ordering::Less) == candidate_lt(a@, b@),
        (r == Ordering::Equal) == (a@ == b@),
        (r == Ordering::Greater) == candidate_lt(b@, a@),
{
    proof {
        lemma_candidate_total(a@, b@);
    }
    if mcmeta_candidate_before(a, b) {
        Ordering::Less
    } else if seq_eq(a, b) {
        Ordering::Equal
    } else {
        Ordering::Greater
    }
}

} // verus!
