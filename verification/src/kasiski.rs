//! Kasiski examination: estimating the length of a Vigenère key from the
//! distances between repeated fragments of the ciphertext.

use crate::divisibility::{gcd, is_gcd, lemma_gcd_is_gcd};
use crate::fragments::{repeat_rows, repeated_fragments, rows_view};
use crate::ranking::{fragment_votes, is_ranking, rank_votes, votes, RANKING_MIN_OCCURRENCES};
use crate::sorted_set::{insert_sorted, members, strictly_increasing};
use crate::strings::chars_of;
use crate::vigenere::in_alphabet;
use vstd::arithmetic::div_mod::{lemma_fundamental_div_mod, lemma_fundamental_div_mod_converse};
use vstd::prelude::*;

verus! {

/// Greatest common divisor of `a` and `b`, by Euclid's algorithm.
///
/// The result divides both arguments and is divisible by each of their common
/// divisors; `compute_gcd(a, 0)` and `compute_gcd(0, a)` are `a`.
pub fn compute_gcd(a: usize, b: usize) -> (g: usize)
    ensures
        g == gcd(a as nat, b as nat),
        is_gcd(g as nat, a as nat, b as nat),
{
    let mut x: usize = a;
    let mut y: usize = b;
    while y != 0
        invariant
            gcd(x as nat, y as nat) == gcd(a as nat, b as nat),
        decreases y,
    {
        let r: usize = x % y;
        x = y;
        y = r;
    }
    proof {
        lemma_gcd_is_gcd(a as nat, b as nat);
    }
    x
}

/// The divisors of `n` from 2 up to `n` itself. Empty when `n` is below 2.
pub open spec fn divisor_set(n: nat) -> Set<nat> {
    Set::new(|d: nat| 2 <= d <= n && n % d == 0)
}

/// The divisors of `n` that trial division has met once every trial divisor
/// below `d` was tried: those below `d`, and those whose cofactor is below `d`.
spec fn divisors_tried(n: nat, d: nat) -> Set<nat> {
    Set::new(|e: nat| 2 <= e <= n && n % e == 0 && (e < d || 2 <= n / e < d))
}

/// A divisor `e` of a positive `n` and its cofactor `n / e` multiply to `n`,
/// and the cofactor is a divisor whose own cofactor is `e`.
proof fn lemma_cofactor(n: nat, e: nat)
    requires
        n > 0,
        e > 0,
        n % e == 0,
    ensures
        n == e * (n / e),
        1 <= n / e <= n,
        n % (n / e) == 0,
        n / (n / e) == e,
{
    let k = n / e;
    lemma_fundamental_div_mod(n as int, e as int);
    assert(k >= 1 && k <= n && n == k * e) by (nonlinear_arith)
        requires
            n == e * k,
            n > 0,
            e > 0,
    ;
    lemma_fundamental_div_mod_converse(n as int, k as int, e as int, 0);
}

/// A trial divisor above the quotient of `n` by it has a square above `n`.
proof fn lemma_past_square_root(n: nat, d: nat)
    requires
        d > 0,
        d > n / d,
    ensures
        d * d > n,
{
    lemma_fundamental_div_mod(n as int, d as int);
    let q = n / d;
    let r = n % d;
    assert(d * d > n) by (nonlinear_arith)
        requires
            n == d * q + r,
            r < d,
            q < d,
    ;
}

/// The divisors of `n` that are at least 2, in ascending order, each once.
///
/// Found by trial division up to the square root of `n`, taking both members
/// of each factor pair, and `n` itself. For `n` below 2 the result is empty.
pub fn divisors(n: usize) -> (out: Vec<usize>)
    ensures
        strictly_increasing(out@),
        members(out@) == divisor_set(n as nat),
{
    let mut out: Vec<usize> = Vec::new();
    if n >= 2 {
        let ghost m: nat = n as nat;
        let mut d: usize = 2;
        assert(members(out@) =~= divisors_tried(m, 2));
        while d <= n / d
            invariant
                m == n,
                2 <= d <= n,
                strictly_increasing(out@),
                members(out@) == divisors_tried(m, d as nat),
            decreases n - d,
        {
            let ghost before = members(out@);
            let ghost c: nat = d as nat;
            proof {
                lemma_fundamental_div_mod(n as int, d as int);
                assert(n >= 2 * c) by (nonlinear_arith)
                    requires
                        n == c * (n / d) + n % d,
                        c <= n / d,
                        c >= 2,
                        n % d >= 0,
                ;
            }
            if n % d == 0 {
                let q: usize = n / d;
                proof {
                    lemma_cofactor(m, c);
                }
                insert_sorted(&mut out, d);
                if q != d {
                    insert_sorted(&mut out, q);
                }
                assert(members(out@) =~= before.insert(c).insert(q as nat));
            }
            assert forall|e: nat| #[trigger]
                members(out@).contains(e) == divisors_tried(m, c + 1).contains(e) by {
                if 2 <= e <= m && m % e == 0 {
                    lemma_cofactor(m, e);
                }
            }
            assert(members(out@) =~= divisors_tried(m, c + 1));
            d += 1;
        }
        let ghost before = members(out@);
        let ghost c: nat = d as nat;
        insert_sorted(&mut out, n);
        assert(members(out@) == before.insert(m));
        assert forall|e: nat| #[trigger]
            before.insert(m).contains(e) == divisor_set(m).contains(e) by {
            assert(m % m == 0) by {
                lemma_fundamental_div_mod_converse(m as int, m as int, 1, 0);
            }
            if 2 <= e <= m && m % e == 0 {
                lemma_cofactor(m, e);
                lemma_past_square_root(m, c);
                let k: nat = m / e;
                if k == 1 {
                    assert(e == m) by (nonlinear_arith)
                        requires
                            m == e * k,
                            k == 1,
                    ;
                } else if k >= c && e >= c {
                    assert(e * k >= c * c) by (nonlinear_arith)
                        requires
                            k >= c,
                            e >= c,
                    ;
                }
            }
        }
        assert(members(out@) =~= divisor_set(m));
    } else {
        assert(members(out@) =~= divisor_set(n as nat));
    }
    out
}

/// The fewest occurrences of a fragment that make it count as repeated when
/// candidates are narrowed.
pub const NARROWING_MIN_OCCURRENCES: usize = 2;

/// What an examination of a ciphertext found.
#[derive(Debug, Clone, PartialEq, Eq)]
pub enum KasiskiResult {
    /// No fragment of the text is repeated often enough to be examined.
    InsufficientSample,
    /// The likely key lengths, ascending. An empty list says that the
    /// distances have no common divisor above 1.
    Candidates(Vec<usize>),
    /// The likely key lengths, the one that most fragments suggest first.
    Ranked(Vec<usize>),
}

/// The characters of `text` that belong to the alphabet, in their order.
pub open spec fn printable_part(text: Seq<char>) -> Seq<char> {
    text.filter(|c: char| in_alphabet(c))
}

/// The distances of the rows of a table, in the order of the rows.
pub open spec fn distances(rows: Seq<(Seq<char>, nat)>) -> Seq<nat> {
    Seq::new(rows.len(), |i: int| rows[i].1)
}

/// What is left of the candidates `cands` when the distance `d` is taken
/// into account: the greatest common divisors above 1 of a candidate and `d`.
pub open spec fn narrowed(cands: Set<nat>, d: nat) -> Set<nat> {
    Set::new(|g: nat| g > 1 && exists|c: nat| cands.contains(c) && #[trigger] gcd(c, d) == g)
}

/// One step of narrowing: the candidates narrowed by `d`, or, where nothing
/// would be left, the candidates as they were.
pub open spec fn narrow_step(cands: Set<nat>, d: nat) -> Set<nat> {
    if exists|g: nat| narrowed(cands, d).contains(g) {
        narrowed(cands, d)
    } else {
        cands
    }
}

/// The candidates after the first `k` distances: the divisors of the first
/// distance, narrowed by each of the following ones in turn.
pub open spec fn candidates_after(dists: Seq<nat>, k: int) -> Set<nat>
    decreases k,
{
    if k <= 1 {
        divisor_set(dists[0])
    } else {
        narrow_step(candidates_after(dists, k - 1), dists[k - 1])
    }
}

/// The candidate key lengths that a sequence of distances leaves, which has
/// at least one distance.
pub open spec fn candidate_set(dists: Seq<nat>) -> Set<nat> {
    candidates_after(dists, dists.len() as int)
}

/// The table of the repeated fragments of `message`: one row for each pair
/// of neighbouring occurrences of a fragment that occurs at least twice,
/// holding the fragment and the distance between the two occurrences.
///
/// Fragments have a length from 3 to half the length of the message (3 for
/// a message of fewer than 8 characters). The rows come by the length of
/// the fragment, then by where the fragment first occurs, then by position.
pub fn build_repet_table(message: &str) -> (table: Vec<(String, usize)>)
    ensures
        rows_view(table@) == repeat_rows(message@, 2),
{
    let text = chars_of(message);
    repeated_fragments(&text, NARROWING_MIN_OCCURRENCES)
}

/// The characters of `message` that belong to the alphabet, in their order.
pub fn filter_printable(message: &str) -> (out: String)
    ensures
        out@ == printable_part(message@),
{
    let mut out = String::new();
    assert(message@.take(0) =~= Seq::<char>::empty());
    assert(printable_part(Seq::<char>::empty()) =~= Seq::<char>::empty()) by {
        reveal(Seq::filter);
    }
    for c in it: message.chars()
        invariant
            it.seq() == message@,
            out@ == printable_part(message@.take(it.index() as int)),
    {
        let ghost i = it.index() as int;
        proof {
            message@.take(i).lemma_filter_push(c, |c: char| in_alphabet(c));
            assert(message@.take(i + 1) =~= message@.take(i).push(c));
        }
        if c >= ' ' && c <= '~' {
            out.push(c);
        }
    }
    assert(message@.take(message@.len() as int) =~= message@);
    out
}

/// Narrows the candidates by one distance: each candidate is replaced by its
/// greatest common divisor with the distance, and those that fall to 1 are
/// left out. Where nothing would be left, the candidates stay as they were.
pub fn narrow_candidates(cands: &Vec<usize>, distance: usize) -> (out: Vec<usize>)
    requires
        strictly_increasing(cands@),
    ensures
        strictly_increasing(out@),
        members(out@) == narrow_step(members(cands@), distance as nat),
{
    let ghost d = distance as nat;
    let mut kept: Vec<usize> = Vec::new();
    let mut i: usize = 0;
    while i < cands.len()
        invariant
            i <= cands.len(),
            d == distance,
            strictly_increasing(kept@),
            forall|g: nat|
                members(kept@).contains(g) <==> g > 1 && exists|j: int|
                    0 <= j < i && #[trigger] gcd(cands@[j] as nat, d) == g,
        decreases cands.len() - i,
    {
        let ghost before = members(kept@);
        let g: usize = compute_gcd(cands[i], distance);
        if g > 1 {
            insert_sorted(&mut kept, g);
        }
        assert forall|h: nat|
            members(kept@).contains(h) <==> h > 1 && exists|j: int|
                0 <= j < i + 1 && #[trigger] gcd(cands@[j] as nat, d) == h by {
            if h > 1 && exists|j: int| 0 <= j < i + 1 && #[trigger] gcd(cands@[j] as nat, d) == h {
                let j = choose|j: int| 0 <= j < i + 1 && #[trigger] gcd(cands@[j] as nat, d) == h;
                if j < i {
                    assert(before.contains(h));
                }
            }
            if before.contains(h) {
                let j = choose|j: int| 0 <= j < i && #[trigger] gcd(cands@[j] as nat, d) == h;
                assert(0 <= j < i + 1 && gcd(cands@[j] as nat, d) == h);
            }
            if h == g && g > 1 {
                assert(gcd(cands@[i as int] as nat, d) == h);
            }
        }
        i += 1;
    }
    assert forall|g: nat| members(kept@).contains(g) == narrowed(members(cands@), d).contains(
        g,
    ) by {
        if members(kept@).contains(g) {
            let j = choose|j: int| 0 <= j < cands@.len() && #[trigger] gcd(cands@[j] as nat, d) == g;
            assert(members(cands@).contains(cands@[j] as nat));
        }
        if narrowed(members(cands@), d).contains(g) {
            let c = choose|c: nat| members(cands@).contains(c) && #[trigger] gcd(c, d) == g;
            let j = choose|j: int| 0 <= j < cands@.len() && #[trigger] cands@[j] as nat == c;
            assert(gcd(cands@[j] as nat, d) == g);
        }
    }
    assert(members(kept@) =~= narrowed(members(cands@), d));
    if kept.len() == 0 {
        assert forall|g: nat| !narrowed(members(cands@), d).contains(g) by {
            if members(kept@).contains(g) {
                let j = choose|j: int| 0 <= j < kept@.len() && #[trigger] kept@[j] as nat == g;
            }
        }
        cands.clone()
    } else {
        assert(members(kept@).contains(kept@[0] as nat));
        kept
    }
}

/// The candidate key lengths that a table of repeated fragments leaves.
///
/// The candidates start as the divisors from 2 up of the first distance of
/// the table, and each following distance narrows them. An empty table
/// has no distance to start from: the sample is insufficient.
pub fn analyze_table(table: &Vec<(String, usize)>) -> (r: KasiskiResult)
    ensures
        table@.len() == 0 <==> r is InsufficientSample,
        table@.len() > 0 ==> r is Candidates && strictly_increasing(r->Candidates_0@) && members(
            r->Candidates_0@,
        ) == candidate_set(distances(rows_view(table@))),
{
    if table.len() == 0 {
        return KasiskiResult::InsufficientSample;
    }
    let ghost dists = distances(rows_view(table@));
    let mut cands: Vec<usize> = divisors(table[0].1);
    let mut i: usize = 1;
    while i < table.len()
        invariant
            1 <= i <= table.len(),
            dists == distances(rows_view(table@)),
            strictly_increasing(cands@),
            members(cands@) == candidates_after(dists, i as int),
        decreases table.len() - i,
    {
        cands = narrow_candidates(&cands, table[i].1);
        i += 1;
    }
    KasiskiResult::Candidates(cands)
}

/// How the likely key lengths are worked out from the repeated fragments.
#[derive(Debug, Clone, Copy, PartialEq, Eq)]
pub enum Strategy {
    /// The divisors of the first distance, narrowed by every other distance.
    Narrowing,
    /// The common divisor of the distances of each fragment by itself, and
    /// the key lengths ranked by the number of fragments that suggest them.
    Ranking,
}

/// `r` is what narrowing finds in `text`, where a fragment counts as
/// repeated from `min_occ` occurrences on: an insufficient sample if the
/// table of repeated fragments is empty, and else the candidates that the
/// distances of the table leave, ascending.
pub open spec fn is_narrowing_of(text: Seq<char>, min_occ: nat, r: KasiskiResult) -> bool {
    let rows = repeat_rows(text, min_occ);
    if rows.len() == 0 {
        r is InsufficientSample
    } else {
        &&& r is Candidates
        &&& strictly_increasing(r->Candidates_0@)
        &&& members(r->Candidates_0@) == candidate_set(distances(rows))
    }
}

/// The occurrences that a fragment needs to be ranked: `min_occ`, and at
/// least three.
pub open spec fn ranking_threshold(min_occ: nat) -> nat {
    if min_occ > 3 {
        min_occ
    } else {
        3
    }
}

/// `r` is what ranking finds in `text`: an insufficient sample if no
/// fragment occurs often enough to be ranked, and else the ranking of the
/// key lengths that the fragments suggest.
pub open spec fn is_ranking_of(text: Seq<char>, min_occ: nat, r: KasiskiResult) -> bool {
    if repeat_rows(text, ranking_threshold(min_occ)).len() == 0 {
        r is InsufficientSample
    } else {
        &&& r is Ranked
        &&& is_ranking(votes(text, min_occ), r->Ranked_0@)
    }
}

/// Examines a ciphertext with the given strategy. A fragment counts as
/// repeated when it occurs at least `min_occurrences` times, and in no case
/// with fewer than two occurrences when narrowing, or three when ranking.
///
/// The characters outside the alphabet are left out before anything else.
/// A lower threshold finds more candidates, at the price of more short
/// fragments that repeat by chance.
pub fn analyze(ciphertext: &str, strategy: Strategy, min_occurrences: usize) -> (r: KasiskiResult)
    ensures
        strategy == Strategy::Narrowing ==> is_narrowing_of(
            printable_part(ciphertext@),
            min_occurrences as nat,
            r,
        ),
        strategy == Strategy::Ranking ==> is_ranking_of(
            printable_part(ciphertext@),
            min_occurrences as nat,
            r,
        ),
{
    let filtered = filter_printable(ciphertext);
    let text = chars_of(filtered.as_str());
    match strategy {
        Strategy::Narrowing => {
            let table = repeated_fragments(&text, min_occurrences);
            analyze_table(&table)
        },
        Strategy::Ranking => {
            let threshold: usize = if min_occurrences > RANKING_MIN_OCCURRENCES {
                min_occurrences
            } else {
                RANKING_MIN_OCCURRENCES
            };
            let table = repeated_fragments(&text, threshold);
            if table.len() == 0 {
                KasiskiResult::InsufficientSample
            } else {
                let suggested = fragment_votes(&text, min_occurrences);
                KasiskiResult::Ranked(rank_votes(&suggested))
            }
        },
    }
}

/// Examines a ciphertext and narrows down the likely lengths of its key.
///
/// The characters outside the alphabet are left out first. The table of the
/// fragments that occur at least twice is then built, and its distances
/// narrow the candidates one after the other. The result tells a text
/// without any repeated fragment from one whose distances leave no
/// candidate.
pub fn kasiski(message: &str) -> (r: KasiskiResult)
    ensures
        is_narrowing_of(printable_part(message@), 2, r),
{
    analyze(message, Strategy::Narrowing, NARROWING_MIN_OCCURRENCES)
}

/// Examines a ciphertext and ranks the likely lengths of its key.
///
/// The characters outside the alphabet are left out first. Every fragment
/// that occurs at least three times suggests the greatest common divisor of
/// its distances, where that is above 1. The key lengths are listed by the
/// number of fragments that suggest them, the greatest number first, and of
/// two with the same number the smaller key length first.
pub fn kasiski_ranked(message: &str) -> (r: KasiskiResult)
    ensures
        is_ranking_of(printable_part(message@), 3, r),
{
    analyze(message, Strategy::Ranking, RANKING_MIN_OCCURRENCES)
}

} // verus!
