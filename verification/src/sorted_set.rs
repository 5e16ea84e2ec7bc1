//! Finite sets of numbers kept as strictly increasing vectors.

use vstd::prelude::*;

verus! {

/// Each element is smaller than every later one, so nothing occurs twice.
pub open spec fn strictly_increasing(s: Seq<usize>) -> bool {
    forall|i: int, j: int| 0 <= i < j < s.len() ==> s[i] < s[j]
}

/// The numbers that occur in `s`.
pub open spec fn members(s: Seq<usize>) -> Set<nat> {
    Set::new(|x: nat| exists|i: int| 0 <= i < s.len() && #[trigger] s[i] as nat == x)
}

/// Two strictly increasing sequences with the same members are equal.
pub proof fn lemma_sorted_set_unique(a: Seq<usize>, b: Seq<usize>)
    requires
        strictly_increasing(a),
        strictly_increasing(b),
        members(a) == members(b),
    ensures
        a == b,
    decreases a.len(),
{
    if a.len() == 0 {
        if b.len() > 0 {
            assert(members(b).contains(b[0] as nat));
            assert(members(a).contains(b[0] as nat));
        }
        assert(a =~= b);
    } else if b.len() == 0 {
        assert(members(a).contains(a[0] as nat));
        assert(members(b).contains(a[0] as nat));
    } else {
        let la = a.last();
        let lb = b.last();
        assert(members(a).contains(la as nat));
        assert(members(b).contains(la as nat));
        assert(members(b).contains(lb as nat));
        assert(members(a).contains(lb as nat));
        assert(la == lb);
        let a0 = a.drop_last();
        let b0 = b.drop_last();
        assert forall|x: nat| members(a0).contains(x) == members(b0).contains(x) by {
            if members(a0).contains(x) {
                let i = choose|i: int| 0 <= i < a0.len() && #[trigger] a0[i] as nat == x;
                assert(a[i] as nat == x);
                assert(members(a).contains(x));
                let j = choose|j: int| 0 <= j < b.len() && #[trigger] b[j] as nat == x;
                assert(j < b.len() - 1);
                assert(b0[j] as nat == x);
            }
            if members(b0).contains(x) {
                let i = choose|i: int| 0 <= i < b0.len() && #[trigger] b0[i] as nat == x;
                assert(b[i] as nat == x);
                assert(members(b).contains(x));
                let j = choose|j: int| 0 <= j < a.len() && #[trigger] a[j] as nat == x;
                assert(j < a.len() - 1);
                assert(a0[j] as nat == x);
            }
        }
        assert(members(a0) =~= members(b0));
        lemma_sorted_set_unique(a0, b0);
        assert(a =~= a0.push(la));
        assert(b =~= b0.push(lb));
    }
}

/// Puts `x` into the strictly increasing vector `v`, at its place in the
/// order. A number that is already there is not added again.
pub fn insert_sorted(v: &mut Vec<usize>, x: usize)
    requires
        strictly_increasing(old(v)@),
    ensures
        strictly_increasing(final(v)@),
        members(final(v)@) == members(old(v)@).insert(x as nat),
{
    let mut i: usize = 0;
    while i < v.len() && v[i] < x
        invariant
            i <= v.len(),
            *v == *old(v),
            forall|k: int| 0 <= k < i ==> v@[k] < x,
        decreases v.len() - i,
    {
        i += 1;
    }
    if i < v.len() && v[i] == x {
        assert(members(v@).contains(x as nat));
        assert(members(v@) =~= members(v@).insert(x as nat));
    } else {
        let ghost before = v@;
        v.insert(i, x);
        assert(v@ == before.insert(i as int, x));
        assert forall|a: int, b: int| 0 <= a < b < v@.len() implies v@[a] < v@[b] by {
            if a < i && b > i {
                assert(before[a] < before[b - 1]);
            } else if a > i {
                assert(before[a - 1] < before[b - 1]);
            } else if b == i {
            } else if a == i {
                assert(before[i as int] <= before[b - 1]);
            } else {
                assert(before[a] < before[b]);
            }
        }
        assert forall|y: nat| members(v@).contains(y) == members(before).insert(x as nat).contains(
            y,
        ) by {
            if members(v@).contains(y) {
                let k = choose|k: int| 0 <= k < v@.len() && #[trigger] v@[k] as nat == y;
                if k < i {
                    assert(before[k] as nat == y);
                } else if k > i {
                    assert(before[k - 1] as nat == y);
                }
            }
            if members(before).contains(y) {
                let k = choose|k: int| 0 <= k < before.len() && #[trigger] before[k] as nat == y;
                if k < i {
                    assert(v@[k] as nat == y);
                } else {
                    assert(v@[k + 1] as nat == y);
                }
            }
            if y == x as nat {
                assert(v@[i as int] as nat == y);
            }
        }
        assert(members(v@) =~= members(before).insert(x as nat));
    }
}

} // verus!
