//! What holds of the table of repeated fragments of every text.

use crate::fragments::{
    ascending, first_occurrence, fragment, fragment_rows, gaps, lemma_positions_below,
    length_rows, length_rows_below, longest_fragment, occurs_at, positions, repeat_rows,
    rows_below_length,
};
use vstd::prelude::*;

verus! {

/// `frag` occurs at `p` and at `q`, and nowhere between the two.
pub open spec fn neighbours(text: Seq<char>, frag: Seq<char>, p: int, q: int) -> bool {
    &&& p < q
    &&& occurs_at(text, frag, p)
    &&& occurs_at(text, frag, q)
    &&& forall|r: int| p < r < q ==> !occurs_at(text, frag, r)
}

/// The row holds a fragment of an examined length and the distance between
/// two neighbouring occurrences of it.
pub open spec fn row_of(text: Seq<char>, row: (Seq<char>, nat)) -> bool {
    &&& 3 <= row.0.len() <= longest_fragment(text.len())
    &&& row.1 >= 1
    &&& exists|p: int, q: int| q == p + row.1 && #[trigger] neighbours(text, row.0, p, q)
}

/// Some fragment of three characters stands at two places of the text.
pub open spec fn has_repeated_trigram(text: Seq<char>) -> bool {
    exists|p: int, q: int|
        0 <= p < q && q + 3 <= text.len() && #[trigger] fragment(text, p, 3) == #[trigger] fragment(
            text,
            q,
            3,
        )
}

/// What is in one of two sequences is in the two put together.
proof fn lemma_contains_concat<A>(a: Seq<A>, b: Seq<A>, x: A)
    requires
        a.contains(x) || b.contains(x),
    ensures
        (a + b).contains(x),
{
    if a.contains(x) {
        let i = choose|i: int| 0 <= i < a.len() && a[i] == x;
        assert((a + b)[i] == x);
    } else {
        let i = choose|i: int| 0 <= i < b.len() && b[i] == x;
        assert((a + b)[a.len() + i] == x);
    }
}

/// The positions of a fragment are ascending, each is an occurrence, and
/// every occurrence is among them.
pub proof fn lemma_positions(text: Seq<char>, frag: Seq<char>)
    ensures
        ascending(positions(text, frag)),
        forall|i: int|
            0 <= i < positions(text, frag).len() ==> occurs_at(
                text,
                frag,
                #[trigger] positions(text, frag)[i],
            ),
        forall|p: int| occurs_at(text, frag, p) ==> #[trigger] positions(text, frag).contains(p),
{
    lemma_positions_below(text, frag, text.len() - frag.len() + 1);
}

/// Two positions that follow each other in the list of positions of a
/// fragment are neighbouring occurrences of it.
pub proof fn lemma_positions_neighbours(text: Seq<char>, frag: Seq<char>, i: int)
    requires
        0 <= i,
        i + 1 < positions(text, frag).len(),
    ensures
        neighbours(text, frag, positions(text, frag)[i], positions(text, frag)[i + 1]),
{
    lemma_positions(text, frag);
    let pos = positions(text, frag);
    assert forall|r: int| pos[i] < r < pos[i + 1] implies !occurs_at(text, frag, r) by {
        if occurs_at(text, frag, r) {
            assert(pos.contains(r));
            let j = choose|j: int| 0 <= j < pos.len() && pos[j] == r;
            if j <= i {
                assert(j == i || pos[j] < pos[i]);
            } else {
                assert(j == i + 1 || pos[i + 1] < pos[j]);
            }
        }
    }
}

/// Two neighbouring occurrences of a fragment follow each other in the list
/// of its positions.
pub proof fn lemma_neighbours_positions(text: Seq<char>, frag: Seq<char>, p: int, q: int) -> (i:
    int)
    requires
        neighbours(text, frag, p, q),
    ensures
        0 <= i,
        i + 1 < positions(text, frag).len(),
        positions(text, frag)[i] == p,
        positions(text, frag)[i + 1] == q,
{
    lemma_positions(text, frag);
    let pos = positions(text, frag);
    assert(pos.contains(p));
    assert(pos.contains(q));
    let i = choose|i: int| 0 <= i < pos.len() && pos[i] == p;
    let j = choose|j: int| 0 <= j < pos.len() && pos[j] == q;
    if j <= i {
        assert(j == i || pos[j] < pos[i]);
    }
    if j > i + 1 {
        assert(pos[i] < pos[i + 1] < pos[j]);
        assert(occurs_at(text, frag, pos[i + 1]));
    }
    i
}

/// Every row that a fragment of an examined length gives is a row of the
/// text.
pub proof fn lemma_fragment_rows_sound(text: Seq<char>, frag: Seq<char>, min_occ: nat)
    requires
        3 <= frag.len() <= longest_fragment(text.len()),
    ensures
        forall|i: int|
            0 <= i < fragment_rows(text, frag, min_occ).len() ==> row_of(
                text,
                #[trigger] fragment_rows(text, frag, min_occ)[i],
            ),
{
    let rows = fragment_rows(text, frag, min_occ);
    let pos = positions(text, frag);
    assert forall|i: int| 0 <= i < rows.len() implies row_of(text, #[trigger] rows[i]) by {
        lemma_positions_neighbours(text, frag, i);
        assert(rows[i] == (frag, gaps(pos)[i]));
        assert(neighbours(text, frag, pos[i], pos[i + 1]));
        assert(pos[i + 1] == pos[i] + rows[i].1);
    }
}

/// Every row of the fragments of one length is a row of the text.
pub proof fn lemma_length_rows_sound(text: Seq<char>, len: int, min_occ: nat, end: int)
    requires
        3 <= len <= longest_fragment(text.len()),
        end <= text.len() - len + 1,
    ensures
        forall|i: int|
            0 <= i < length_rows_below(text, len, min_occ, end).len() ==> row_of(
                text,
                #[trigger] length_rows_below(text, len, min_occ, end)[i],
            ),
    decreases end,
{
    if end > 0 {
        lemma_length_rows_sound(text, len, min_occ, end - 1);
        let before = length_rows_below(text, len, min_occ, end - 1);
        let now = length_rows_below(text, len, min_occ, end);
        if first_occurrence(text, end - 1, len) {
            let frag = fragment(text, end - 1, len);
            let added = fragment_rows(text, frag, min_occ);
            lemma_fragment_rows_sound(text, frag, min_occ);
            assert forall|i: int| 0 <= i < now.len() implies row_of(text, #[trigger] now[i]) by {
                if i < before.len() {
                    assert(now[i] == before[i]);
                } else {
                    assert(now[i] == added[i - before.len()]);
                }
            }
        }
    }
}

/// Every row of the table is a row of the text: its fragment has an examined
/// length, and its distance lies between two neighbouring occurrences of the
/// fragment.
pub proof fn lemma_rows_sound(text: Seq<char>, min_occ: nat, len_end: int)
    requires
        len_end <= longest_fragment(text.len()) + 1,
    ensures
        forall|i: int|
            0 <= i < rows_below_length(text, min_occ, len_end).len() ==> row_of(
                text,
                #[trigger] rows_below_length(text, min_occ, len_end)[i],
            ),
    decreases len_end,
{
    if len_end > 3 {
        lemma_rows_sound(text, min_occ, len_end - 1);
        lemma_length_rows_sound(text, len_end - 1, min_occ, text.len() - (len_end - 1) + 1);
        let before = rows_below_length(text, min_occ, len_end - 1);
        let added = length_rows(text, len_end - 1, min_occ);
        let now = rows_below_length(text, min_occ, len_end);
        assert forall|i: int| 0 <= i < now.len() implies row_of(text, #[trigger] now[i]) by {
            if i < before.len() {
                assert(now[i] == before[i]);
            } else {
                assert(now[i] == added[i - before.len()]);
            }
        }
    }
}

/// Every row of the table of repeated fragments holds a fragment of 3 or
/// more characters and the positive distance between two neighbouring
/// occurrences of it.
pub proof fn lemma_table_sound(text: Seq<char>, min_occ: nat)
    ensures
        forall|i: int|
            0 <= i < repeat_rows(text, min_occ).len() ==> row_of(
                text,
                #[trigger] repeat_rows(text, min_occ)[i],
            ),
{
    lemma_rows_sound(text, min_occ, longest_fragment(text.len()) as int + 1);
}

/// The rows of a fragment are among the rows of its length, once the place
/// of its first occurrence is covered.
proof fn lemma_length_rows_hold(
    text: Seq<char>,
    len: int,
    min_occ: nat,
    end: int,
    first: int,
    row: (Seq<char>, nat),
)
    requires
        0 <= first < end,
        first_occurrence(text, first, len),
        fragment_rows(text, fragment(text, first, len), min_occ).contains(row),
    ensures
        length_rows_below(text, len, min_occ, end).contains(row),
    decreases end,
{
    let before = length_rows_below(text, len, min_occ, end - 1);
    if first == end - 1 {
        lemma_contains_concat(before, fragment_rows(text, fragment(text, first, len), min_occ), row);
    } else {
        lemma_length_rows_hold(text, len, min_occ, end - 1, first, row);
        if first_occurrence(text, end - 1, len) {
            lemma_contains_concat(
                before,
                fragment_rows(text, fragment(text, end - 1, len), min_occ),
                row,
            );
        }
    }
}

/// The rows of a length are among the rows of the table, once the length is
/// covered.
proof fn lemma_rows_hold(
    text: Seq<char>,
    min_occ: nat,
    len_end: int,
    len: int,
    row: (Seq<char>, nat),
)
    requires
        3 <= len < len_end,
        length_rows(text, len, min_occ).contains(row),
    ensures
        rows_below_length(text, min_occ, len_end).contains(row),
    decreases len_end,
{
    let before = rows_below_length(text, min_occ, len_end - 1);
    if len < len_end - 1 {
        lemma_rows_hold(text, min_occ, len_end - 1, len, row);
    }
    lemma_contains_concat(before, length_rows(text, len_end - 1, min_occ), row);
}

/// For every two neighbouring occurrences of a fragment of an examined
/// length that occurs often enough, the table holds the row of the fragment
/// and the distance between the two.
pub proof fn lemma_table_complete(
    text: Seq<char>,
    min_occ: nat,
    frag: Seq<char>,
    p: int,
    q: int,
)
    requires
        3 <= frag.len() <= longest_fragment(text.len()),
        neighbours(text, frag, p, q),
        positions(text, frag).len() >= min_occ,
    ensures
        repeat_rows(text, min_occ).contains((frag, (q - p) as nat)),
{
    let len = frag.len() as int;
    let pos = positions(text, frag);
    let i = lemma_neighbours_positions(text, frag, p, q);
    lemma_positions(text, frag);
    let row = (frag, (q - p) as nat);
    let rows = fragment_rows(text, frag, min_occ);
    assert(rows[i] == row);
    assert(rows.contains(row));
    let first = pos[0];
    assert(occurs_at(text, frag, first));
    assert(fragment(text, first, len) == frag);
    assert forall|r: int| 0 <= r < first implies #[trigger] fragment(text, r, len) != fragment(
        text,
        first,
        len,
    ) by {
        if fragment(text, r, len) == frag {
            assert(occurs_at(text, frag, r));
            assert(pos.contains(r));
            let j = choose|j: int| 0 <= j < pos.len() && pos[j] == r;
            assert(j == 0 || pos[0] < pos[j]);
        }
    }
    lemma_length_rows_hold(text, len, min_occ, text.len() - len + 1, first, row);
    lemma_rows_hold(text, min_occ, longest_fragment(text.len()) as int + 1, len, row);
}

/// The table of the fragments that occur at least twice has a row exactly
/// when some fragment of three characters stands at two places of the text.
pub proof fn lemma_table_empty_iff(text: Seq<char>)
    ensures
        repeat_rows(text, 2).len() > 0 <==> has_repeated_trigram(text),
{
    let rows = repeat_rows(text, 2);
    if rows.len() > 0 {
        lemma_table_sound(text, 2);
        let row = rows[0];
        assert(row_of(text, row));
        let (p, q) = choose|p: int, q: int|
            q == p + row.1 && #[trigger] neighbours(text, row.0, p, q);
        assert(fragment(text, p, 3) =~= row.0.subrange(0, 3)) by {
            assert(fragment(text, p, row.0.len() as int) == row.0);
        }
        assert(fragment(text, q, 3) =~= row.0.subrange(0, 3)) by {
            assert(fragment(text, q, row.0.len() as int) == row.0);
        }
        assert(has_repeated_trigram(text));
    }
    if has_repeated_trigram(text) {
        let (p, q) = choose|p: int, q: int|
            0 <= p < q && q + 3 <= text.len() && #[trigger] fragment(text, p, 3)
                == #[trigger] fragment(text, q, 3);
        let frag = fragment(text, q, 3);
        lemma_positions(text, frag);
        let pos = positions(text, frag);
        assert(occurs_at(text, frag, p));
        assert(occurs_at(text, frag, q));
        assert(pos.contains(p));
        assert(pos.contains(q));
        let i = choose|i: int| 0 <= i < pos.len() && pos[i] == p;
        let j = choose|j: int| 0 <= j < pos.len() && pos[j] == q;
        if j <= i {
            assert(j == i || pos[j] < pos[i]);
        }
        lemma_positions_neighbours(text, frag, i);
        lemma_table_complete(text, 2, frag, pos[i], pos[i + 1]);
        let row = (frag, (pos[i + 1] - pos[i]) as nat);
        assert(rows.contains(row));
    }
}

/// A threshold below 2 selects the rows of the fragments of one length that
/// the threshold 2 selects.
proof fn lemma_length_rows_floor(text: Seq<char>, len: int, min_occ: nat, end: int)
    requires
        min_occ <= 2,
    ensures
        length_rows_below(text, len, min_occ, end) == length_rows_below(text, len, 2, end),
    decreases end,
{
    if end > 0 {
        lemma_length_rows_floor(text, len, min_occ, end - 1);
        let frag = fragment(text, end - 1, len);
        assert(fragment_rows(text, frag, min_occ) =~= fragment_rows(text, frag, 2));
    }
}

/// A threshold below 2 selects the rows of the fragments of the lengths
/// below `len_end` that the threshold 2 selects.
proof fn lemma_rows_floor(text: Seq<char>, min_occ: nat, len_end: int)
    requires
        min_occ <= 2,
    ensures
        rows_below_length(text, min_occ, len_end) == rows_below_length(text, 2, len_end),
    decreases len_end,
{
    if len_end > 3 {
        lemma_rows_floor(text, min_occ, len_end - 1);
        lemma_length_rows_floor(text, len_end - 1, min_occ, text.len() - (len_end - 1) + 1);
    }
}

/// A fragment that occurs once has no distance to give: a threshold below 2
/// gives the table of the threshold 2.
pub proof fn lemma_threshold_floor(text: Seq<char>, min_occ: nat)
    requires
        min_occ <= 2,
    ensures
        repeat_rows(text, min_occ) == repeat_rows(text, 2),
{
    lemma_rows_floor(text, min_occ, longest_fragment(text.len()) as int + 1);
}

/// A text of fewer than four characters has no repeated fragment.
pub proof fn lemma_too_short(text: Seq<char>, min_occ: nat)
    requires
        text.len() < 4,
    ensures
        repeat_rows(text, min_occ).len() == 0,
{
    if repeat_rows(text, min_occ).len() > 0 {
        lemma_table_sound(text, min_occ);
        let row = repeat_rows(text, min_occ)[0];
        assert(row_of(text, row));
    }
}

/// A text of fewer than six characters, in which no fragment of three
/// characters overlaps a copy of itself, has no repeated fragment.
pub proof fn lemma_short_sample(text: Seq<char>)
    requires
        text.len() < 6,
        forall|p: int, q: int|
            0 <= p < q <= p + 2 && q + 3 <= text.len() ==> #[trigger] fragment(text, p, 3)
                != #[trigger] fragment(text, q, 3),
    ensures
        repeat_rows(text, 2).len() == 0,
{
    lemma_table_empty_iff(text);
    if has_repeated_trigram(text) {
        let (p, q) = choose|p: int, q: int|
            0 <= p < q && q + 3 <= text.len() && #[trigger] fragment(text, p, 3)
                == #[trigger] fragment(text, q, 3);
        assert(q <= p + 2);
    }
}

} // verus!
