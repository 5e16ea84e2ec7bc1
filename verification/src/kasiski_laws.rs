//! What holds of the candidate key lengths for every sequence of distances.

use crate::divisibility::{
    divides, gcd, lemma_divides_transitive, lemma_divisor_at_most, lemma_gcd_is_gcd,
    lemma_gcd_of_divisor,
};
use crate::fragment_laws::{
    has_repeated_trigram, lemma_short_sample, lemma_table_empty_iff, lemma_table_sound, row_of,
};
use crate::fragments::{fragment, repeat_rows};
use crate::kasiski::{
    candidate_set, candidates_after, distances, divisor_set, is_narrowing_of, is_ranking_of,
    narrowed, KasiskiResult,
};
use crate::ranking::{lemma_ranking_unique, votes};
use crate::sorted_set::{lemma_sorted_set_unique, members};
use vstd::prelude::*;

verus! {

/// Every candidate is at least 2 and divides the first distance.
pub proof fn lemma_candidates_divide_first(dists: Seq<nat>, k: int)
    requires
        1 <= k <= dists.len(),
    ensures
        forall|c: nat| #[trigger]
            candidates_after(dists, k).contains(c) ==> c >= 2 && divides(c, dists[0]),
    decreases k,
{
    if k > 1 {
        lemma_candidates_divide_first(dists, k - 1);
        let before = candidates_after(dists, k - 1);
        let d = dists[k - 1];
        assert forall|g: nat| #[trigger] narrowed(before, d).contains(g) implies g >= 2 && divides(
            g,
            dists[0],
        ) by {
            let c = choose|c: nat| before.contains(c) && #[trigger] gcd(c, d) == g;
            lemma_gcd_is_gcd(c, d);
            lemma_divides_transitive(g, c, dists[0]);
        }
    }
}

/// A number from 2 up that divides every distance is among the candidates,
/// however many distances have been taken into account.
pub proof fn lemma_common_divisor_kept(dists: Seq<nat>, m: nat, k: int)
    requires
        1 <= k <= dists.len(),
        m >= 2,
        dists[0] > 0,
        forall|i: int| 0 <= i < dists.len() ==> divides(m, #[trigger] dists[i]),
    ensures
        candidates_after(dists, k).contains(m),
    decreases k,
{
    if k <= 1 {
        lemma_divisor_at_most(m, dists[0]);
    } else {
        lemma_common_divisor_kept(dists, m, k - 1);
        let before = candidates_after(dists, k - 1);
        let d = dists[k - 1];
        lemma_gcd_of_divisor(m, d);
        assert(narrowed(before, d).contains(m));
    }
}

/// The set holds nothing.
pub open spec fn holds_nothing(s: Set<nat>) -> bool {
    forall|c: nat| !s.contains(c)
}

/// No candidate is left exactly when the first distance is below 2: a later
/// distance never takes the last candidates away.
pub proof fn lemma_candidates_empty_iff(dists: Seq<nat>, k: int)
    requires
        1 <= k <= dists.len(),
    ensures
        holds_nothing(candidates_after(dists, k)) <==> dists[0] < 2,
    decreases k,
{
    let first = dists[0];
    let now = candidates_after(dists, k);
    if k <= 1 {
        if first >= 2 {
            assert(first % first == 0) by {
                vstd::arithmetic::div_mod::lemma_mod_self_0(first as int);
            }
            assert(now.contains(first));
        }
    } else {
        lemma_candidates_empty_iff(dists, k - 1);
        let before = candidates_after(dists, k - 1);
        let d = dists[k - 1];
        if exists|g: nat| narrowed(before, d).contains(g) {
            let g = choose|g: nat| narrowed(before, d).contains(g);
            let c = choose|c: nat| before.contains(c) && #[trigger] gcd(c, d) == g;
            assert(before.contains(c));
            assert(!holds_nothing(before));
            assert(now.contains(g));
            assert(!holds_nothing(now));
        } else {
            assert(now == before);
        }
    }
}

/// Every distance of the table of repeated fragments is positive.
pub proof fn lemma_distances_positive(text: Seq<char>, min_occ: nat)
    ensures
        forall|i: int|
            0 <= i < repeat_rows(text, min_occ).len() ==> #[trigger] distances(
                repeat_rows(text, min_occ),
            )[i] >= 1,
{
    lemma_table_sound(text, min_occ);
    let rows = repeat_rows(text, min_occ);
    assert forall|i: int| 0 <= i < rows.len() implies #[trigger] distances(rows)[i] >= 1 by {
        assert(row_of(text, rows[i]));
    }
}

/// Where every distance between neighbouring occurrences of a repeated
/// fragment is a multiple of `m`, as it is when the repeats come from a key
/// whose length `m` divides, `m` is among the candidates.
pub proof fn lemma_period_is_candidate(text: Seq<char>, min_occ: nat, m: nat)
    requires
        m >= 2,
        repeat_rows(text, min_occ).len() > 0,
        forall|i: int|
            0 <= i < repeat_rows(text, min_occ).len() ==> divides(
                m,
                (#[trigger] repeat_rows(text, min_occ)[i]).1,
            ),
    ensures
        candidate_set(distances(repeat_rows(text, min_occ))).contains(m),
{
    let rows = repeat_rows(text, min_occ);
    let dists = distances(rows);
    lemma_distances_positive(text, min_occ);
    assert(dists[0] >= 1);
    assert forall|i: int| 0 <= i < dists.len() implies divides(m, #[trigger] dists[i]) by {
        assert(divides(m, rows[i].1));
    }
    lemma_common_divisor_kept(dists, m, dists.len() as int);
}

/// Narrowing reports an insufficient sample exactly when no fragment of
/// three characters stands at two places of the text.
pub proof fn lemma_insufficient_iff(text: Seq<char>, r: KasiskiResult)
    requires
        is_narrowing_of(text, 2, r),
    ensures
        r is InsufficientSample <==> !has_repeated_trigram(text),
{
    lemma_table_empty_iff(text);
}

/// A text of fewer than six characters, in which no fragment of three
/// characters overlaps a copy of itself, is an insufficient sample.
pub proof fn lemma_short_sample_insufficient(text: Seq<char>, r: KasiskiResult)
    requires
        text.len() < 6,
        forall|p: int, q: int|
            0 <= p < q <= p + 2 && q + 3 <= text.len() ==> #[trigger] fragment(text, p, 3)
                != #[trigger] fragment(text, q, 3),
        is_narrowing_of(text, 2, r),
    ensures
        r is InsufficientSample,
{
    lemma_short_sample(text);
}

/// Where the text has repeated fragments and every distance of the table is
/// a multiple of `m`, narrowing lists `m` among its candidates.
pub proof fn lemma_period_found(text: Seq<char>, min_occ: nat, m: nat, r: KasiskiResult)
    requires
        m >= 2,
        repeat_rows(text, min_occ).len() > 0,
        forall|i: int|
            0 <= i < repeat_rows(text, min_occ).len() ==> divides(
                m,
                (#[trigger] repeat_rows(text, min_occ)[i]).1,
            ),
        is_narrowing_of(text, min_occ, r),
    ensures
        r is Candidates,
        members(r->Candidates_0@).contains(m),
{
    lemma_period_is_candidate(text, min_occ, m);
}

/// Every candidate that narrowing lists is at least 2, and the list is empty
/// exactly when the first distance of the table is 1.
pub proof fn lemma_candidates_listed(text: Seq<char>, min_occ: nat, r: KasiskiResult)
    requires
        is_narrowing_of(text, min_occ, r),
        r is Candidates,
    ensures
        forall|i: int| 0 <= i < r->Candidates_0@.len() ==> #[trigger] r->Candidates_0@[i] >= 2,
        r->Candidates_0@.len() == 0 <==> repeat_rows(text, min_occ)[0].1 == 1,
{
    let rows = repeat_rows(text, min_occ);
    let dists = distances(rows);
    let list = r->Candidates_0@;
    lemma_candidates_divide_first(dists, dists.len() as int);
    lemma_candidates_empty_iff(dists, dists.len() as int);
    lemma_distances_positive(text, min_occ);
    assert(dists[0] >= 1);
    assert forall|i: int| 0 <= i < list.len() implies #[trigger] list[i] >= 2 by {
        assert(members(list).contains(list[i] as nat));
    }
    if list.len() > 0 {
        assert(members(list).contains(list[0] as nat));
    }
    if list.len() == 0 {
        assert forall|c: nat| !members(list).contains(c) by {
            if members(list).contains(c) {
                let i = choose|i: int| 0 <= i < list.len() && #[trigger] list[i] as nat == c;
            }
        }
    }
}

/// Narrowing has one result only.
pub proof fn lemma_narrowing_unique(
    text: Seq<char>,
    min_occ: nat,
    r1: KasiskiResult,
    r2: KasiskiResult,
)
    requires
        is_narrowing_of(text, min_occ, r1),
        is_narrowing_of(text, min_occ, r2),
    ensures
        r1 is InsufficientSample <==> r2 is InsufficientSample,
        r1 is Candidates ==> r2 is Candidates && r1->Candidates_0@ == r2->Candidates_0@,
{
    if r1 is Candidates {
        lemma_sorted_set_unique(r1->Candidates_0@, r2->Candidates_0@);
    }
}

/// Ranking has one result only.
pub proof fn lemma_ranking_of_unique(
    text: Seq<char>,
    min_occ: nat,
    r1: KasiskiResult,
    r2: KasiskiResult,
)
    requires
        is_ranking_of(text, min_occ, r1),
        is_ranking_of(text, min_occ, r2),
    ensures
        r1 is InsufficientSample <==> r2 is InsufficientSample,
        r1 is Ranked ==> r2 is Ranked && r1->Ranked_0@ == r2->Ranked_0@,
{
    if r1 is Ranked {
        lemma_ranking_unique(votes(text, min_occ), r1->Ranked_0@, r2->Ranked_0@);
    }
}

} // verus!
