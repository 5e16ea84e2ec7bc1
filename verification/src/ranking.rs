//! Ranking key lengths by the number of fragments that suggest them.

use crate::divisibility::{divides, gcd, lemma_divides_transitive, lemma_gcd_is_gcd};
use crate::fragments::{
    first_occurrence, fragment, gaps, ints, is_first_occurrence, longest_fragment,
    occurrence_positions, positions,
};
use crate::kasiski::compute_gcd;
use vstd::prelude::*;

verus! {

/// The fewest occurrences of a fragment that let it suggest a key length by
/// itself: three occurrences give the two distances that a common divisor
/// needs.
pub const RANKING_MIN_OCCURRENCES: usize = 3;

/// The greatest common divisor of all numbers of a sequence, 0 for none.
pub open spec fn gcd_all(ds: Seq<nat>) -> nat
    decreases ds.len(),
{
    if ds.len() == 0 {
        0
    } else {
        gcd(gcd_all(ds.drop_last()), ds.last())
    }
}

/// The key length that one fragment suggests: the greatest common divisor
/// of the distances between its neighbouring occurrences. A fragment with
/// fewer than three, or fewer than `min_occ`, occurrences suggests nothing,
/// which is written as 0.
pub open spec fn fragment_vote(text: Seq<char>, frag: Seq<char>, min_occ: nat) -> nat {
    let pos = positions(text, frag);
    if pos.len() >= min_occ && pos.len() >= 3 {
        gcd_all(gaps(pos))
    } else {
        0
    }
}

/// The suggestions above 1 of the fragments of length `len` whose first
/// occurrence is below `end`, in the order of their first occurrences.
pub open spec fn length_votes_below(text: Seq<char>, len: int, min_occ: nat, end: int) -> Seq<nat>
    decreases end,
{
    if end <= 0 {
        Seq::empty()
    } else if first_occurrence(text, end - 1, len) && fragment_vote(
        text,
        fragment(text, end - 1, len),
        min_occ,
    ) > 1 {
        length_votes_below(text, len, min_occ, end - 1).push(
            fragment_vote(text, fragment(text, end - 1, len), min_occ),
        )
    } else {
        length_votes_below(text, len, min_occ, end - 1)
    }
}

/// The suggestions of the fragments of the lengths from 3 up to, not
/// including, `len_end`.
pub open spec fn votes_below_length(text: Seq<char>, min_occ: nat, len_end: int) -> Seq<nat>
    decreases len_end,
{
    if len_end <= 3 {
        Seq::empty()
    } else {
        votes_below_length(text, min_occ, len_end - 1) + length_votes_below(
            text,
            len_end - 1,
            min_occ,
            text.len() - (len_end - 1) + 1,
        )
    }
}

/// The key lengths that the fragments of `text` suggest, one entry for each
/// fragment of an examined length whose distances have a common divisor
/// above 1.
pub open spec fn votes(text: Seq<char>, min_occ: nat) -> Seq<nat> {
    votes_below_length(text, min_occ, longest_fragment(text.len()) as int + 1)
}

/// How many entries of `votes` are `g`.
pub open spec fn support(votes: Seq<nat>, g: nat) -> nat
    decreases votes.len(),
{
    if votes.len() == 0 {
        0
    } else if votes.last() == g {
        support(votes.drop_last(), g) + 1
    } else {
        support(votes.drop_last(), g)
    }
}

/// `a` is ranked before `b`: more fragments suggest it, or as many and it is
/// the smaller.
pub open spec fn ranks_before(votes: Seq<nat>, a: nat, b: nat) -> bool {
    support(votes, a) > support(votes, b) || (support(votes, a) == support(votes, b) && a < b)
}

/// `ranking` lists exactly the key lengths that some fragment suggests, each
/// once, each ranked before all that follow it.
pub open spec fn is_ranking(votes: Seq<nat>, ranking: Seq<usize>) -> bool {
    &&& forall|i: int, j: int|
        0 <= i < j < ranking.len() ==> ranks_before(votes, ranking[i] as nat, ranking[j] as nat)
    &&& forall|i: int| 0 <= i < ranking.len() ==> support(votes, #[trigger] ranking[i] as nat) > 0
    &&& forall|g: nat|
        support(votes, g) > 0 ==> exists|i: int|
            0 <= i < ranking.len() && #[trigger] ranking[i] as nat == g
}

/// A vector of numbers, read as natural numbers.
pub open spec fn nats(s: Seq<usize>) -> Seq<nat> {
    Seq::new(s.len(), |i: int| s[i] as nat)
}

/// The greatest common divisor of the distances between the neighbouring
/// positions of an ascending list. 0 for a list of fewer than two positions.
pub fn gcd_of_gaps(pos: &Vec<usize>) -> (g: usize)
    requires
        forall|i: int, j: int| 0 <= i < j < pos@.len() ==> pos@[i] < pos@[j],
    ensures
        g == gcd_all(gaps(ints(pos@))),
{
    let ghost all = gaps(ints(pos@));
    let mut g: usize = 0;
    if pos.len() == 0 {
        return g;
    }
    let mut i: usize = 1;
    assert(all.take(0) =~= Seq::<nat>::empty());
    while i < pos.len()
        invariant
            1 <= i <= pos.len(),
            all == gaps(ints(pos@)),
            all.len() == pos@.len() - 1,
            forall|a: int, b: int| 0 <= a < b < pos@.len() ==> pos@[a] < pos@[b],
            g == gcd_all(all.take(i - 1)),
        decreases pos.len() - i,
    {
        let d: usize = pos[i] - pos[i - 1];
        assert(all.take(i as int).drop_last() =~= all.take(i - 1));
        assert(all.take(i as int).last() == d);
        g = compute_gcd(g, d);
        i += 1;
    }
    assert(all.take(all.len() as int) =~= all);
    g
}

/// The key lengths that the fragments of `text` suggest: for every fragment
/// of an examined length with at least three, and at least
/// `min_occurrences`, occurrences, the greatest common divisor of its
/// distances, where that is above 1.
pub fn fragment_votes(text: &Vec<char>, min_occurrences: usize) -> (out: Vec<usize>)
    ensures
        nats(out@) == votes(text@, min_occurrences as nat),
{
    let n: usize = text.len();
    let ghost min_occ = min_occurrences as nat;
    let mut out: Vec<usize> = Vec::new();
    let longest: usize = if n / 2 > 3 {
        n / 2
    } else {
        3
    };
    let mut len: usize = 3;
    assert(nats(out@) =~= votes_below_length(text@, min_occ, 3));
    while len <= longest
        invariant
            n == text.len(),
            min_occ == min_occurrences,
            longest == longest_fragment(n as nat),
            3 <= len <= longest + 1,
            nats(out@) == votes_below_length(text@, min_occ, len as int),
        decreases longest + 1 - len,
    {
        let ghost done = nats(out@);
        if len <= n {
            let end: usize = n - len + 1;
            let mut start: usize = 0;
            assert(nats(out@) =~= done + length_votes_below(text@, len as int, min_occ, 0));
            while start < end
                invariant
                    n == text.len(),
                    min_occ == min_occurrences,
                    3 <= len <= n,
                    end == n - len + 1,
                    start <= end,
                    nats(out@) == done + length_votes_below(
                        text@,
                        len as int,
                        min_occ,
                        start as int,
                    ),
                decreases end - start,
            {
                let ghost before = length_votes_below(text@, len as int, min_occ, start as int);
                let ghost frag = fragment(text@, start as int, len as int);
                if is_first_occurrence(text, start, len) {
                    let pos = occurrence_positions(text, start, len);
                    proof {
                        crate::fragment_laws::lemma_positions(text@, frag);
                        assert(pos@.len() == ints(pos@).len());
                        assert forall|i: int, j: int| 0 <= i < j < pos@.len() implies pos@[i]
                            < pos@[j] by {
                            assert(ints(pos@)[i] < ints(pos@)[j]);
                        }
                    }
                    if pos.len() >= min_occurrences && pos.len() >= 3 {
                        let g: usize = gcd_of_gaps(&pos);
                        if g > 1 {
                            let ghost held = nats(out@);
                            out.push(g);
                            assert(nats(out@) =~= held.push(g as nat));
                            assert(nats(out@) =~= done + before.push(g as nat));
                        }
                    }
                }
                start += 1;
            }
        } else {
            assert(nats(out@) =~= done + length_votes_below(
                text@,
                len as int,
                min_occ,
                text@.len() - len + 1,
            ));
        }
        len += 1;
    }
    out
}

/// A tally of votes: one entry for each key length that occurs among the
/// votes, holding the key length and the number of its occurrences.
spec fn is_tally(votes: Seq<nat>, tally: Seq<(usize, usize)>) -> bool {
    &&& forall|i: int, j: int| 0 <= i < j < tally.len() ==> tally[i].0 != tally[j].0
    &&& forall|i: int|
        0 <= i < tally.len() ==> (#[trigger] tally[i]).1 > 0 && tally[i].1 == support(
            votes,
            tally[i].0 as nat,
        )
    &&& forall|g: nat|
        support(votes, g) > 0 ==> exists|i: int|
            0 <= i < tally.len() && (#[trigger] tally[i]).0 as nat == g
}

/// The entry `a` comes before the entry `b`: its count is greater, or the
/// counts are equal and its key length is the smaller.
spec fn entry_before(a: (usize, usize), b: (usize, usize)) -> bool {
    a.1 > b.1 || (a.1 == b.1 && a.0 < b.0)
}

/// Each entry comes before every later one.
spec fn entries_ranked(s: Seq<(usize, usize)>) -> bool {
    forall|i: int, j: int| 0 <= i < j < s.len() ==> entry_before(s[i], s[j])
}

/// No number occurs among the votes more often than there are votes.
pub proof fn lemma_support_at_most(votes: Seq<nat>, g: nat)
    ensures
        support(votes, g) <= votes.len(),
    decreases votes.len(),
{
    if votes.len() > 0 {
        lemma_support_at_most(votes.drop_last(), g);
    }
}

/// One more vote raises the support of its key length by one and leaves
/// every other support as it was.
pub proof fn lemma_support_push(votes: Seq<nat>, v: nat, g: nat)
    ensures
        support(votes.push(v), g) == if g == v {
            support(votes, g) + 1
        } else {
            support(votes, g)
        },
{
    assert(votes.push(v).drop_last() =~= votes);
}

/// Counts how often each key length occurs among the votes.
fn tally_votes(votes: &Vec<usize>) -> (tally: Vec<(usize, usize)>)
    ensures
        is_tally(nats(votes@), tally@),
{
    let ghost all = nats(votes@);
    let mut tally: Vec<(usize, usize)> = Vec::new();
    let mut i: usize = 0;
    assert(all.take(0) =~= Seq::<nat>::empty());
    while i < votes.len()
        invariant
            i <= votes.len(),
            all == nats(votes@),
            is_tally(all.take(i as int), tally@),
        decreases votes.len() - i,
    {
        let v: usize = votes[i];
        let ghost seen = all.take(i as int);
        let ghost old_tally = tally@;
        let ghost now = all.take(i + 1);
        proof {
            assert(now =~= seen.push(v as nat));
            assert forall|g: nat| #[trigger] support(now, g) == if g == v as nat {
                support(seen, g) + 1
            } else {
                support(seen, g)
            } by {
                lemma_support_push(seen, v as nat, g);
            }
            lemma_support_at_most(seen, v as nat);
        }
        let mut j: usize = 0;
        while j < tally.len() && tally[j].0 != v
            invariant
                j <= tally.len(),
                tally@ == old_tally,
                forall|k: int| 0 <= k < j ==> (#[trigger] tally@[k]).0 != v,
            decreases tally.len() - j,
        {
            j += 1;
        }
        if j < tally.len() {
            let count: usize = tally[j].1;
            tally.set(j, (v, count + 1));
            assert forall|g: nat| #[trigger] support(now, g) > 0 implies exists|k: int|
                0 <= k < tally@.len() && (#[trigger] tally@[k]).0 as nat == g by {
                if g == v as nat {
                    assert(tally@[j as int].0 as nat == g);
                } else {
                    let k = choose|k: int|
                        0 <= k < old_tally.len() && (#[trigger] old_tally[k]).0 as nat == g;
                    assert(tally@[k].0 as nat == g);
                }
            }
            assert forall|a: int, b: int| 0 <= a < b < tally@.len() implies tally@[a].0
                != tally@[b].0 by {
                assert(old_tally[a].0 != old_tally[b].0);
            }
            assert forall|k: int| 0 <= k < tally@.len() implies (#[trigger] tally@[k]).1 > 0
                && tally@[k].1 == support(now, tally@[k].0 as nat) by {
                if k != j {
                    assert(old_tally[k].0 != old_tally[j as int].0);
                    assert(old_tally[k].1 > 0);
                }
            }
        } else {
            assert(support(seen, v as nat) == 0) by {
                if support(seen, v as nat) > 0 {
                    let k = choose|k: int|
                        0 <= k < old_tally.len() && (#[trigger] old_tally[k]).0 as nat == v as nat;
                    assert(old_tally[k].0 != v);
                }
            }
            tally.push((v, 1));
            assert forall|g: nat| #[trigger] support(now, g) > 0 implies exists|k: int|
                0 <= k < tally@.len() && (#[trigger] tally@[k]).0 as nat == g by {
                if g == v as nat {
                    assert(tally@[old_tally.len() as int].0 as nat == g);
                } else {
                    let k = choose|k: int|
                        0 <= k < old_tally.len() && (#[trigger] old_tally[k]).0 as nat == g;
                    assert(tally@[k].0 as nat == g);
                }
            }
            assert forall|a: int, b: int| 0 <= a < b < tally@.len() implies tally@[a].0
                != tally@[b].0 by {
                if b < old_tally.len() {
                    assert(old_tally[a].0 != old_tally[b].0);
                } else {
                    assert(old_tally[a].0 != v);
                }
            }
            assert forall|k: int| 0 <= k < tally@.len() implies (#[trigger] tally@[k]).1 > 0
                && tally@[k].1 == support(now, tally@[k].0 as nat) by {
                if k < old_tally.len() {
                    assert(old_tally[k].0 != v);
                    assert(old_tally[k].1 > 0);
                }
            }
        }
        i += 1;
    }
    assert(all.take(all.len() as int) =~= all);
    tally
}

/// Puts an entry into a ranked list, at its place in the order.
fn insert_ranked(list: &mut Vec<(usize, usize)>, entry: (usize, usize))
    requires
        entries_ranked(old(list)@),
        forall|i: int| 0 <= i < old(list)@.len() ==> (#[trigger] old(list)@[i]).0 != entry.0,
    ensures
        entries_ranked(final(list)@),
        exists|k: int|
            0 <= k <= old(list)@.len() && final(list)@ == #[trigger] old(list)@.insert(k, entry),
{
    let mut k: usize = 0;
    while k < list.len() && (list[k].1 > entry.1 || (list[k].1 == entry.1 && list[k].0 < entry.0))
        invariant
            k <= list.len(),
            *list == *old(list),
            forall|i: int| 0 <= i < k ==> entry_before(#[trigger] list@[i], entry),
        decreases list.len() - k,
    {
        k += 1;
    }
    let ghost before = list@;
    list.insert(k, entry);
    assert(list@ == before.insert(k as int, entry));
    assert forall|a: int, b: int| 0 <= a < b < list@.len() implies entry_before(
        list@[a],
        list@[b],
    ) by {
        if b < k {
            assert(entry_before(before[a], before[b]));
        } else if b == k {
            assert(entry_before(before[a], entry));
        } else if a < k {
            assert(entry_before(before[a], before[b - 1]));
        } else if a == k {
            assert(before[k as int].0 != entry.0);
            assert(!entry_before(before[k as int], entry));
            if b - 1 > k {
                assert(entry_before(before[k as int], before[b - 1]));
            }
        } else {
            assert(entry_before(before[a - 1], before[b - 1]));
        }
    }
}

/// What a sequence holds after an insertion: the new element, and what it
/// held before.
proof fn lemma_insert_holds<A>(s: Seq<A>, at: int, e: A)
    requires
        0 <= at <= s.len(),
    ensures
        forall|x: A| #[trigger] s.insert(at, e).contains(x) <==> x == e || s.contains(x),
{
    let t = s.insert(at, e);
    assert forall|x: A| #[trigger] t.contains(x) <==> x == e || s.contains(x) by {
        if t.contains(x) {
            let k = choose|k: int| 0 <= k < t.len() && t[k] == x;
            if k < at {
                assert(s[k] == x);
            } else if k > at {
                assert(s[k - 1] == x);
            }
        }
        if s.contains(x) {
            let k = choose|k: int| 0 <= k < s.len() && s[k] == x;
            if k < at {
                assert(t[k] == x);
            } else {
                assert(t[k + 1] == x);
            }
        }
        if x == e {
            assert(t[at] == x);
        }
    }
}

/// What a sequence holds up to and with the element at `i`: that element,
/// and what it holds before `i`.
proof fn lemma_take_holds<A>(s: Seq<A>, i: int)
    requires
        0 <= i < s.len(),
    ensures
        forall|x: A| #[trigger] s.take(i + 1).contains(x) <==> x == s[i] || s.take(i).contains(x),
{
    let t = s.take(i + 1);
    let u = s.take(i);
    assert forall|x: A| #[trigger] t.contains(x) <==> x == s[i] || u.contains(x) by {
        if t.contains(x) {
            let k = choose|k: int| 0 <= k < t.len() && t[k] == x;
            if k < i {
                assert(u[k] == x);
            }
        }
        if u.contains(x) {
            let k = choose|k: int| 0 <= k < u.len() && u[k] == x;
            assert(t[k] == x);
        }
        if x == s[i] {
            assert(t[i] == x);
        }
    }
}

/// The entries of a tally, the one with the greatest count first, and of
/// two with equal counts the one with the smaller key length first.
fn rank_entries(tally: &Vec<(usize, usize)>) -> (ranked: Vec<(usize, usize)>)
    requires
        forall|i: int, j: int| 0 <= i < j < tally@.len() ==> tally@[i].0 != tally@[j].0,
    ensures
        entries_ranked(ranked@),
        forall|x: (usize, usize)| #[trigger] ranked@.contains(x) <==> tally@.contains(x),
{
    let mut ranked: Vec<(usize, usize)> = Vec::new();
    let mut i: usize = 0;
    while i < tally.len()
        invariant
            i <= tally.len(),
            forall|a: int, b: int| 0 <= a < b < tally@.len() ==> tally@[a].0 != tally@[b].0,
            entries_ranked(ranked@),
            forall|x: (usize, usize)|
                #[trigger] ranked@.contains(x) <==> tally@.take(i as int).contains(x),
        decreases tally.len() - i,
    {
        let ghost before = ranked@;
        let entry = tally[i];
        assert forall|k: int| 0 <= k < before.len() implies (#[trigger] before[k]).0
            != entry.0 by {
            assert(before.contains(before[k]));
            let seen = tally@.take(i as int);
            let m = choose|m: int| 0 <= m < seen.len() && seen[m] == before[k];
            assert(tally@[m].0 != tally@[i as int].0);
        }
        insert_ranked(&mut ranked, entry);
        proof {
            let at = choose|at: int|
                0 <= at <= before.len() && ranked@ == #[trigger] before.insert(at, entry);
            lemma_insert_holds(before, at, entry);
            lemma_take_holds(tally@, i as int);
        }
        i += 1;
    }
    assert(tally@.take(tally@.len() as int) =~= tally@);
    ranked
}

/// The key lengths that occur among the votes, each once: the one with the
/// most votes first, and of two with as many votes the smaller first.
pub fn rank_votes(votes: &Vec<usize>) -> (ranking: Vec<usize>)
    ensures
        is_ranking(nats(votes@), ranking@),
{
    let ghost all = nats(votes@);
    let tally = tally_votes(votes);
    let ranked = rank_entries(&tally);
    let mut ranking: Vec<usize> = Vec::new();
    let mut k: usize = 0;
    while k < ranked.len()
        invariant
            k <= ranked.len(),
            ranking@.len() == k,
            forall|a: int| 0 <= a < k ==> #[trigger] ranking@[a] == ranked@[a].0,
        decreases ranked.len() - k,
    {
        ranking.push(ranked[k].0);
        k += 1;
    }
    proof {
        assert forall|a: int| 0 <= a < ranking@.len() implies support(
            all,
            #[trigger] ranking@[a] as nat,
        ) > 0 && ranked@[a].1 == support(all, ranking@[a] as nat) by {
            assert(ranked@.contains(ranked@[a]));
            let m = choose|m: int| 0 <= m < tally@.len() && tally@[m] == ranked@[a];
            assert(tally@[m].1 > 0);
        }
        assert forall|a: int, b: int| 0 <= a < b < ranking@.len() implies ranks_before(
            all,
            ranking@[a] as nat,
            ranking@[b] as nat,
        ) by {
            assert(entry_before(ranked@[a], ranked@[b]));
        }
        assert forall|g: nat| support(all, g) > 0 implies exists|a: int|
            0 <= a < ranking@.len() && #[trigger] ranking@[a] as nat == g by {
            let m = choose|m: int| 0 <= m < tally@.len() && (#[trigger] tally@[m]).0 as nat == g;
            assert(tally@.contains(tally@[m]));
            assert(ranked@.contains(tally@[m]));
            let a = choose|a: int| 0 <= a < ranked@.len() && ranked@[a] == tally@[m];
            assert(ranking@[a] as nat == g);
        }
    }
    ranking
}

/// The greatest common divisor of a sequence divides each of its numbers, and
/// every number that divides them all divides it.
pub proof fn lemma_gcd_all(ds: Seq<nat>)
    ensures
        forall|i: int| 0 <= i < ds.len() ==> divides(gcd_all(ds), #[trigger] ds[i]),
        forall|d: nat|
            (forall|i: int| 0 <= i < ds.len() ==> divides(d, #[trigger] ds[i])) ==> #[trigger] divides(
                d,
                gcd_all(ds),
            ),
    decreases ds.len(),
{
    if ds.len() > 0 {
        let front = ds.drop_last();
        let g = gcd_all(front);
        let all = gcd_all(ds);
        lemma_gcd_all(front);
        lemma_gcd_is_gcd(g, ds.last());
        assert forall|i: int| 0 <= i < ds.len() implies divides(all, #[trigger] ds[i]) by {
            if i < front.len() {
                assert(divides(g, front[i]));
                lemma_divides_transitive(all, g, ds[i]);
            }
        }
        assert forall|d: nat|
            (forall|i: int| 0 <= i < ds.len() ==> divides(d, #[trigger] ds[i])) implies #[trigger] divides(
            d,
            all,
        ) by {
            assert forall|i: int| 0 <= i < front.len() implies divides(d, #[trigger] front[i]) by {
                assert(divides(d, ds[i]));
            }
            assert(divides(d, g));
            assert(divides(d, ds[ds.len() - 1]));
        }
    }
}

/// A key length with support occurs among the votes.
pub proof fn lemma_support_positive(votes: Seq<nat>, g: nat)
    requires
        support(votes, g) > 0,
    ensures
        votes.contains(g),
    decreases votes.len(),
{
    if votes.last() == g {
        assert(votes[votes.len() - 1] == g);
    } else {
        lemma_support_positive(votes.drop_last(), g);
        let i = choose|i: int| 0 <= i < votes.drop_last().len() && votes.drop_last()[i] == g;
        assert(votes[i] == g);
    }
}

/// Every suggestion of the fragments of one length is above 1.
proof fn lemma_length_votes_above_one(text: Seq<char>, len: int, min_occ: nat, end: int)
    ensures
        forall|i: int|
            0 <= i < length_votes_below(text, len, min_occ, end).len()
                ==> #[trigger] length_votes_below(text, len, min_occ, end)[i] > 1,
    decreases end,
{
    if end > 0 {
        lemma_length_votes_above_one(text, len, min_occ, end - 1);
        let before = length_votes_below(text, len, min_occ, end - 1);
        let now = length_votes_below(text, len, min_occ, end);
        assert forall|i: int| 0 <= i < now.len() implies #[trigger] now[i] > 1 by {
            if i < before.len() {
                assert(now[i] == before[i]);
            }
        }
    }
}

/// Every suggestion of the fragments of the lengths below `len_end` is above
/// 1.
proof fn lemma_votes_below_above_one(text: Seq<char>, min_occ: nat, len_end: int)
    ensures
        forall|i: int|
            0 <= i < votes_below_length(text, min_occ, len_end).len()
                ==> #[trigger] votes_below_length(text, min_occ, len_end)[i] > 1,
    decreases len_end,
{
    if len_end > 3 {
        lemma_votes_below_above_one(text, min_occ, len_end - 1);
        lemma_length_votes_above_one(text, len_end - 1, min_occ, text.len() - (len_end - 1) + 1);
        let before = votes_below_length(text, min_occ, len_end - 1);
        let added = length_votes_below(text, len_end - 1, min_occ, text.len() - (len_end - 1) + 1);
        let now = votes_below_length(text, min_occ, len_end);
        assert forall|i: int| 0 <= i < now.len() implies #[trigger] now[i] > 1 by {
            if i < before.len() {
                assert(now[i] == before[i]);
            } else {
                assert(now[i] == added[i - before.len()]);
            }
        }
    }
}

/// Every key length of a ranking of the suggestions of a text is at least 2.
pub proof fn lemma_ranked_above_one(text: Seq<char>, min_occ: nat, ranking: Seq<usize>)
    requires
        is_ranking(votes(text, min_occ), ranking),
    ensures
        forall|i: int| 0 <= i < ranking.len() ==> #[trigger] ranking[i] >= 2,
{
    let all = votes(text, min_occ);
    lemma_votes_below_above_one(text, min_occ, longest_fragment(text.len()) as int + 1);
    assert forall|i: int| 0 <= i < ranking.len() implies #[trigger] ranking[i] >= 2 by {
        lemma_support_positive(all, ranking[i] as nat);
        let k = choose|k: int| 0 <= k < all.len() && all[k] == ranking[i] as nat;
        assert(all[k] > 1);
    }
}

/// A threshold below 3 selects the suggestions of the fragments of one
/// length that the threshold 3 selects.
proof fn lemma_length_votes_floor(text: Seq<char>, len: int, min_occ: nat, end: int)
    requires
        min_occ <= 3,
    ensures
        length_votes_below(text, len, min_occ, end) == length_votes_below(text, len, 3, end),
    decreases end,
{
    if end > 0 {
        lemma_length_votes_floor(text, len, min_occ, end - 1);
    }
}

/// A threshold below 3 selects the suggestions of the fragments of the
/// lengths below `len_end` that the threshold 3 selects.
proof fn lemma_votes_below_floor(text: Seq<char>, min_occ: nat, len_end: int)
    requires
        min_occ <= 3,
    ensures
        votes_below_length(text, min_occ, len_end) == votes_below_length(text, 3, len_end),
    decreases len_end,
{
    if len_end > 3 {
        lemma_votes_below_floor(text, min_occ, len_end - 1);
        lemma_length_votes_floor(text, len_end - 1, min_occ, text.len() - (len_end - 1) + 1);
    }
}

/// A fragment needs three occurrences to suggest a key length: a threshold
/// below 3 gives the suggestions of the threshold 3.
pub proof fn lemma_votes_threshold_floor(text: Seq<char>, min_occ: nat)
    requires
        min_occ <= 3,
    ensures
        votes(text, min_occ) == votes(text, 3),
{
    lemma_votes_below_floor(text, min_occ, longest_fragment(text.len()) as int + 1);
}

/// Each key length of the list is ranked before every later one.
pub open spec fn ranked_list(votes: Seq<nat>, list: Seq<usize>) -> bool {
    forall|i: int, j: int|
        0 <= i < j < list.len() ==> ranks_before(votes, list[i] as nat, list[j] as nat)
}

/// Two ranked lists of the same key lengths are the same list.
pub proof fn lemma_ranked_lists_equal(votes: Seq<nat>, a: Seq<usize>, b: Seq<usize>)
    requires
        ranked_list(votes, a),
        ranked_list(votes, b),
        forall|x: usize| #[trigger] a.contains(x) <==> b.contains(x),
    ensures
        a == b,
    decreases a.len(),
{
    if a.len() == 0 {
        if b.len() > 0 {
            assert(b.contains(b[0]));
            assert(a.contains(b[0]));
        }
        assert(a =~= b);
    } else if b.len() == 0 {
        assert(a.contains(a[0]));
        assert(b.contains(a[0]));
    } else {
        let la = a.last();
        let lb = b.last();
        assert(a.contains(la));
        assert(b.contains(la));
        assert(b.contains(lb));
        assert(a.contains(lb));
        let i = choose|i: int| 0 <= i < a.len() && a[i] == lb;
        let j = choose|j: int| 0 <= j < b.len() && b[j] == la;
        if la != lb {
            assert(ranks_before(votes, a[i] as nat, a[a.len() - 1] as nat));
            assert(ranks_before(votes, b[j] as nat, b[b.len() - 1] as nat));
        }
        let a0 = a.drop_last();
        let b0 = b.drop_last();
        assert forall|x: usize| #[trigger] a0.contains(x) <==> b0.contains(x) by {
            if a0.contains(x) {
                let k = choose|k: int| 0 <= k < a0.len() && a0[k] == x;
                assert(a[k] == x);
                assert(ranks_before(votes, a[k] as nat, a[a.len() - 1] as nat));
                assert(a.contains(x));
                assert(b.contains(x));
                let m = choose|m: int| 0 <= m < b.len() && b[m] == x;
                assert(b0[m] == x);
            }
            if b0.contains(x) {
                let k = choose|k: int| 0 <= k < b0.len() && b0[k] == x;
                assert(b[k] == x);
                assert(ranks_before(votes, b[k] as nat, b[b.len() - 1] as nat));
                assert(b.contains(x));
                assert(a.contains(x));
                let m = choose|m: int| 0 <= m < a.len() && a[m] == x;
                assert(a0[m] == x);
            }
        }
        lemma_ranked_lists_equal(votes, a0, b0);
        assert(a =~= a0.push(la));
        assert(b =~= b0.push(lb));
    }
}

/// The votes have one ranking only.
pub proof fn lemma_ranking_unique(votes: Seq<nat>, a: Seq<usize>, b: Seq<usize>)
    requires
        is_ranking(votes, a),
        is_ranking(votes, b),
    ensures
        a == b,
{
    assert forall|x: usize| #[trigger] a.contains(x) <==> b.contains(x) by {
        if a.contains(x) {
            let i = choose|i: int| 0 <= i < a.len() && a[i] == x;
            assert(support(votes, a[i] as nat) > 0);
            let j = choose|j: int| 0 <= j < b.len() && #[trigger] b[j] as nat == x as nat;
            assert(b[j] == x);
        }
        if b.contains(x) {
            let i = choose|i: int| 0 <= i < b.len() && b[i] == x;
            assert(support(votes, b[i] as nat) > 0);
            let j = choose|j: int| 0 <= j < a.len() && #[trigger] a[j] as nat == x as nat;
            assert(a[j] == x);
        }
    }
    lemma_ranked_lists_equal(votes, a, b);
}

} // verus!
