//! Fragments of a text: where each one occurs, and the rows of distances
//! between neighbouring occurrences from which a Kasiski examination starts.

use crate::strings::string_of;
use vstd::prelude::*;

verus! {

/// The `len` characters of `text` that start at `start`.
pub open spec fn fragment(text: Seq<char>, start: int, len: int) -> Seq<char> {
    text.subrange(start, start + len)
}

/// `frag` stands in `text` at position `p`.
pub open spec fn occurs_at(text: Seq<char>, frag: Seq<char>, p: int) -> bool {
    &&& 0 <= p
    &&& p + frag.len() <= text.len()
    &&& fragment(text, p, frag.len() as int) == frag
}

/// The positions below `end` at which `frag` occurs in `text`, ascending.
pub open spec fn positions_below(text: Seq<char>, frag: Seq<char>, end: int) -> Seq<int>
    decreases end,
{
    if end <= 0 {
        Seq::empty()
    } else if occurs_at(text, frag, end - 1) {
        positions_below(text, frag, end - 1).push(end - 1)
    } else {
        positions_below(text, frag, end - 1)
    }
}

/// All positions at which `frag` occurs in `text`, ascending.
pub open spec fn positions(text: Seq<char>, frag: Seq<char>) -> Seq<int> {
    positions_below(text, frag, text.len() - frag.len() + 1)
}

/// The differences between each position and the one before it.
pub open spec fn gaps(pos: Seq<int>) -> Seq<nat> {
    if pos.len() == 0 {
        Seq::empty()
    } else {
        Seq::new((pos.len() - 1) as nat, |i: int| (pos[i + 1] - pos[i]) as nat)
    }
}

/// The rows that one fragment gives: one row for each pair of neighbouring
/// occurrences, holding the fragment and the distance between the two. A
/// fragment with fewer than `min_occ` occurrences gives none.
pub open spec fn fragment_rows(text: Seq<char>, frag: Seq<char>, min_occ: nat) -> Seq<
    (Seq<char>, nat),
> {
    let pos = positions(text, frag);
    if pos.len() >= min_occ {
        Seq::new(gaps(pos).len(), |i: int| (frag, gaps(pos)[i]))
    } else {
        Seq::empty()
    }
}

/// The fragment of length `len` at `start` does not occur before `start`.
pub open spec fn first_occurrence(text: Seq<char>, start: int, len: int) -> bool {
    forall|q: int| 0 <= q < start ==> #[trigger] fragment(text, q, len) != fragment(text, start, len)
}

/// The rows of the fragments of length `len` whose first occurrence is below
/// `end`, fragment after fragment in the order of their first occurrences.
pub open spec fn length_rows_below(text: Seq<char>, len: int, min_occ: nat, end: int) -> Seq<
    (Seq<char>, nat),
>
    decreases end,
{
    if end <= 0 {
        Seq::empty()
    } else if first_occurrence(text, end - 1, len) {
        length_rows_below(text, len, min_occ, end - 1) + fragment_rows(
            text,
            fragment(text, end - 1, len),
            min_occ,
        )
    } else {
        length_rows_below(text, len, min_occ, end - 1)
    }
}

/// The rows of all fragments of length `len`.
pub open spec fn length_rows(text: Seq<char>, len: int, min_occ: nat) -> Seq<(Seq<char>, nat)> {
    length_rows_below(text, len, min_occ, text.len() - len + 1)
}

/// The rows of all fragments of the lengths from 3 up to, not including,
/// `len_end`, shorter fragments first.
pub open spec fn rows_below_length(text: Seq<char>, min_occ: nat, len_end: int) -> Seq<
    (Seq<char>, nat),
>
    decreases len_end,
{
    if len_end <= 3 {
        Seq::empty()
    } else {
        rows_below_length(text, min_occ, len_end - 1) + length_rows(text, len_end - 1, min_occ)
    }
}

/// The greatest fragment length that is examined in a text of `n`
/// characters: half of `n`, and at least 3.
pub open spec fn longest_fragment(n: nat) -> nat {
    if n / 2 > 3 {
        n / 2
    } else {
        3
    }
}

/// The table of repeated fragments of `text`: the rows of every fragment of
/// a length from 3 to `longest_fragment` that occurs at least `min_occ`
/// times. Rows are ordered by the length of the fragment, then by where the
/// fragment first occurs, then by position.
pub open spec fn repeat_rows(text: Seq<char>, min_occ: nat) -> Seq<(Seq<char>, nat)> {
    rows_below_length(text, min_occ, longest_fragment(text.len()) as int + 1)
}

/// A table as it is held in memory, read as rows of a fragment and a
/// distance.
pub open spec fn rows_view(table: Seq<(String, usize)>) -> Seq<(Seq<char>, nat)> {
    Seq::new(table.len(), |i: int| (table[i].0@, table[i].1 as nat))
}

/// A vector of positions, read as mathematical integers.
pub open spec fn ints(s: Seq<usize>) -> Seq<int> {
    Seq::new(s.len(), |i: int| s[i] as int)
}

/// Whether the fragments of length `len` at `a` and at `b` are the same.
pub fn same_fragment(text: &Vec<char>, a: usize, b: usize, len: usize) -> (same: bool)
    requires
        a + len <= text.len(),
        b + len <= text.len(),
    ensures
        same == (fragment(text@, a as int, len as int) == fragment(text@, b as int, len as int)),
{
    let mut i: usize = 0;
    while i < len
        invariant
            i <= len,
            a + len <= text.len(),
            b + len <= text.len(),
            forall|k: int|
                0 <= k < i ==> #[trigger] fragment(text@, a as int, len as int)[k] == fragment(
                    text@,
                    b as int,
                    len as int,
                )[k],
        decreases len - i,
    {
        if text[a + i] != text[b + i] {
            assert(fragment(text@, a as int, len as int)[i as int] != fragment(
                text@,
                b as int,
                len as int,
            )[i as int]);
            return false;
        }
        i += 1;
    }
    assert(fragment(text@, a as int, len as int) =~= fragment(text@, b as int, len as int));
    true
}

/// Whether the fragment of length `len` at `start` occurs there for the
/// first time.
pub fn is_first_occurrence(text: &Vec<char>, start: usize, len: usize) -> (first: bool)
    requires
        start + len <= text.len(),
    ensures
        first == first_occurrence(text@, start as int, len as int),
{
    let mut q: usize = 0;
    while q < start
        invariant
            q <= start,
            start + len <= text.len(),
            forall|k: int| 0 <= k < q ==> #[trigger] fragment(text@, k, len as int) != fragment(
                text@,
                start as int,
                len as int,
            ),
        decreases start - q,
    {
        if same_fragment(text, q, start, len) {
            return false;
        }
        q += 1;
    }
    true
}

/// All positions at which the fragment of length `len` at `start` occurs,
/// ascending.
pub fn occurrence_positions(text: &Vec<char>, start: usize, len: usize) -> (pos: Vec<usize>)
    requires
        1 <= len,
        start + len <= text.len(),
    ensures
        ints(pos@) == positions(text@, fragment(text@, start as int, len as int)),
{
    let ghost frag = fragment(text@, start as int, len as int);
    let end: usize = text.len() - len + 1;
    let mut pos: Vec<usize> = Vec::new();
    let mut p: usize = 0;
    assert(ints(pos@) =~= positions_below(text@, frag, 0));
    while p < end
        invariant
            1 <= len,
            start + len <= text.len(),
            end == text.len() - len + 1,
            p <= end,
            frag == fragment(text@, start as int, len as int),
            frag.len() == len,
            ints(pos@) == positions_below(text@, frag, p as int),
        decreases end - p,
    {
        let ghost before = ints(pos@);
        if same_fragment(text, p, start, len) {
            pos.push(p);
            assert(ints(pos@) =~= before.push(p as int));
        }
        p += 1;
    }
    pos
}

/// Each position is below every later one.
pub open spec fn ascending(pos: Seq<int>) -> bool {
    forall|i: int, j: int| 0 <= i < j < pos.len() ==> pos[i] < pos[j]
}

/// The positions below `end` are ascending, and they are exactly the places
/// below `end` at which the fragment occurs.
pub proof fn lemma_positions_below(text: Seq<char>, frag: Seq<char>, end: int)
    ensures
        ascending(positions_below(text, frag, end)),
        forall|i: int|
            0 <= i < positions_below(text, frag, end).len() ==> {
                &&& #[trigger] positions_below(text, frag, end)[i] < end
                &&& occurs_at(text, frag, positions_below(text, frag, end)[i])
            },
        forall|p: int|
            p < end && occurs_at(text, frag, p) ==> #[trigger] positions_below(
                text,
                frag,
                end,
            ).contains(p),
    decreases end,
{
    if end > 0 {
        lemma_positions_below(text, frag, end - 1);
        let before = positions_below(text, frag, end - 1);
        let now = positions_below(text, frag, end);
        assert forall|p: int| p < end && occurs_at(text, frag, p) implies #[trigger] now.contains(
            p,
        ) by {
            if p == end - 1 {
                assert(now[now.len() - 1] == p);
            } else {
                assert(before.contains(p));
                let i = choose|i: int| 0 <= i < before.len() && before[i] == p;
                assert(now[i] == p);
            }
        }
    }
}

/// The rows of the text that are written to the table for one fragment.
fn push_fragment_rows(
    table: &mut Vec<(String, usize)>,
    text: &Vec<char>,
    start: usize,
    len: usize,
    min_occurrences: usize,
)
    requires
        1 <= len,
        start + len <= text.len(),
    ensures
        rows_view(final(table)@) == rows_view(old(table)@) + fragment_rows(
            text@,
            fragment(text@, start as int, len as int),
            min_occurrences as nat,
        ),
{
    let ghost frag = fragment(text@, start as int, len as int);
    let ghost base = rows_view(table@);
    let pos = occurrence_positions(text, start, len);
    let ghost places = positions(text@, frag);
    proof {
        lemma_positions_below(text@, frag, text@.len() - frag.len() + 1);
        assert(pos@.len() == ints(pos@).len());
    }
    if pos.len() >= min_occurrences && pos.len() >= 2 {
        let name = string_of(text, start, len);
        let mut i: usize = 1;
        assert(rows_view(table@) =~= base + Seq::new(0, |k: int| (frag, gaps(places)[k])));
        while i < pos.len()
            invariant
                1 <= i <= pos.len(),
                ints(pos@) == places,
                ascending(places),
                name@ == frag,
                rows_view(table@) == base + Seq::new((i - 1) as nat, |k: int| (frag, gaps(places)[k])),
            decreases pos.len() - i,
        {
            let ghost before = rows_view(table@);
            assert(places[i as int] == pos@[i as int] && places[i - 1] == pos@[i - 1]);
            let distance: usize = pos[i] - pos[i - 1];
            table.push((name.clone(), distance));
            assert(rows_view(table@) =~= before.push((frag, distance as nat)));
            assert(rows_view(table@) =~= base + Seq::new(
                i as nat,
                |k: int| (frag, gaps(places)[k]),
            ));
            i += 1;
        }
        assert(rows_view(table@) =~= base + fragment_rows(text@, frag, min_occurrences as nat));
    } else {
        assert(fragment_rows(text@, frag, min_occurrences as nat) =~= Seq::empty());
        assert(rows_view(table@) =~= base + fragment_rows(text@, frag, min_occurrences as nat));
    }
}

/// The table of the repeated fragments of `text`: for every fragment of a
/// length from 3 to `longest_fragment` that occurs at least
/// `min_occurrences` times, one row for each pair of neighbouring
/// occurrences.
pub fn repeated_fragments(text: &Vec<char>, min_occurrences: usize) -> (table: Vec<(String, usize)>)
    ensures
        rows_view(table@) == repeat_rows(text@, min_occurrences as nat),
{
    let n: usize = text.len();
    let mut table: Vec<(String, usize)> = Vec::new();
    let longest: usize = if n / 2 > 3 {
        n / 2
    } else {
        3
    };
    let mut len: usize = 3;
    assert(rows_view(table@) =~= rows_below_length(text@, min_occurrences as nat, 3));
    while len <= longest
        invariant
            n == text.len(),
            longest == longest_fragment(n as nat),
            3 <= len <= longest + 1,
            rows_view(table@) == rows_below_length(text@, min_occurrences as nat, len as int),
        decreases longest + 1 - len,
    {
        let ghost done = rows_view(table@);
        if len <= n {
            let end: usize = n - len + 1;
            let mut start: usize = 0;
            assert(rows_view(table@) =~= done + length_rows_below(
                text@,
                len as int,
                min_occurrences as nat,
                0,
            ));
            while start < end
                invariant
                    n == text.len(),
                    3 <= len <= n,
                    end == n - len + 1,
                    start <= end,
                    rows_view(table@) == done + length_rows_below(
                        text@,
                        len as int,
                        min_occurrences as nat,
                        start as int,
                    ),
                decreases end - start,
            {
                let ghost before = length_rows_below(
                    text@,
                    len as int,
                    min_occurrences as nat,
                    start as int,
                );
                if is_first_occurrence(text, start, len) {
                    push_fragment_rows(&mut table, text, start, len, min_occurrences);
                    assert(rows_view(table@) =~= done + (before + fragment_rows(
                        text@,
                        fragment(text@, start as int, len as int),
                        min_occurrences as nat,
                    )));
                }
                start += 1;
            }
        } else {
            assert(rows_view(table@) =~= done + length_rows(
                text@,
                len as int,
                min_occurrences as nat,
            ));
        }
        len += 1;
    }
    table
}

} // verus!
