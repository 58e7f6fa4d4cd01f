//! The order of sequences by their first difference.

use vstd::prelude::*;

verus! {

/// `a` comes before `b`: it is smaller where they first differ, or ends there.
pub open spec fn precedes(a: Seq<int>, b: Seq<int>) -> bool
    decreases a.len(),
{
    if b.len() == 0 {
        false
    } else if a.len() == 0 {
        true
    } else if a[0] != b[0] {
        a[0] < b[0]
    } else {
        precedes(a.skip(1), b.skip(1))
    }
}

/// The code points of a text.
pub open spec fn codes(text: Seq<char>) -> Seq<int> {
    Seq::new(text.len(), |i: int| text[i] as int)
}

/// Texts with the same code points are the same.
pub proof fn codes_tell_texts_apart(a: Seq<char>, b: Seq<char>)
    requires
        codes(a) == codes(b),
    ensures
        a == b,
{
    assert(a.len() == codes(a).len() && b.len() == codes(b).len());
    assert forall|i: int| 0 <= i < a.len() implies a[i] == b[i] by {
        let (x, y) = (a[i], b[i]);
        assert(codes(a)[i] == x as int && codes(b)[i] == y as int);
        assert(x as int == y as int);
        assert(x == y);
    }
    assert(a =~= b);
}

/// Of two sequences that differ exactly one comes before the other, and none comes before itself.
pub proof fn one_precedes(a: Seq<int>, b: Seq<int>)
    ensures
        !(precedes(a, b) && precedes(b, a)),
        a == b <==> !precedes(a, b) && !precedes(b, a),
    decreases a.len(),
{
    if a.len() > 0 && b.len() > 0 && a[0] == b[0] {
        one_precedes(a.skip(1), b.skip(1));
        if a.skip(1) == b.skip(1) {
            assert(a =~= seq![a[0]] + a.skip(1));
            assert(b =~= seq![b[0]] + b.skip(1));
        }
    } else if a.len() == 0 && b.len() == 0 {
        assert(a =~= b);
    }
}

/// What comes before something comes before all that is behind it.
pub proof fn precedes_is_transitive(a: Seq<int>, b: Seq<int>, c: Seq<int>)
    requires
        precedes(a, b),
        precedes(b, c),
    ensures
        precedes(a, c),
    decreases a.len(),
{
    if a.len() > 0 && b.len() > 0 && c.len() > 0 && a[0] == b[0] && b[0] == c[0] {
        precedes_is_transitive(a.skip(1), b.skip(1), c.skip(1));
    }
}

/// A sequence comes before another where it is smaller at the first place at which they differ, or
/// ends before the other does.
pub proof fn what_precedes(a: Seq<int>, b: Seq<int>)
    ensures
        precedes(a, b) <==> exists|k: int| #[trigger] differ_first_at(a, b, k),
    decreases a.len(),
{
    if a.len() > 0 && b.len() > 0 && a[0] == b[0] {
        let (rest, other) = (a.skip(1), b.skip(1));
        what_precedes(rest, other);
        if exists|k: int| #[trigger] differ_first_at(rest, other, k) {
            let k = choose|k: int| #[trigger] differ_first_at(rest, other, k);
            assert forall|i: int| 0 <= i < k + 1 implies a[i] == b[i] by {
                if i > 0 {
                    assert(rest[i - 1] == other[i - 1]);
                }
            }
            assert(differ_first_at(a, b, k + 1));
        }
        if exists|k: int| #[trigger] differ_first_at(a, b, k) {
            let k = choose|k: int| #[trigger] differ_first_at(a, b, k);
            assert forall|i: int| 0 <= i < k - 1 implies rest[i] == other[i] by {
                assert(a[i + 1] == b[i + 1]);
            }
            assert(differ_first_at(rest, other, k - 1));
        }
    } else {
        if precedes(a, b) {
            assert(differ_first_at(a, b, 0));
        }
        if exists|k: int| #[trigger] differ_first_at(a, b, k) {
            let k = choose|k: int| #[trigger] differ_first_at(a, b, k);
            if k > 0 {
                assert(a[0] == b[0]);
            }
        }
    }
}

/// The sequences are the same up to place `k`, where the first is smaller or has ended.
pub open spec fn differ_first_at(a: Seq<int>, b: Seq<int>, k: int) -> bool {
    &&& 0 <= k <= a.len()
    &&& k < b.len()
    &&& forall|i: int| 0 <= i < k ==> a[i] == b[i]
    &&& k == a.len() || a[k] < b[k]
}

} // verus!
