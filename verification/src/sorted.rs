//! Sorted, duplicate-free sequences of integer-ranked identifiers: the
//! canonical form of decision sets, proof-parent lists and count lists.

use vstd::prelude::*;

verus! {

/// An identifier ordered by one unsigned integer, as its derived `Ord` does.
pub trait RankedId: Copy + Sized {
    /// The integer that orders this identifier.
    spec fn rank(self) -> int;

    /// Computes the rank.
    fn rank_value(&self) -> (r: u64)
        ensures
            r as int == self.rank(),
    ;

    /// Equal ranks mean equal identifiers.
    proof fn lemma_rank_injective(a: Self, b: Self)
        ensures
            a.rank() == b.rank() ==> a == b,
    ;
}

impl RankedId for usize {
    open spec fn rank(self) -> int {
        self as int
    }

    fn rank_value(&self) -> (r: u64) {
        proof {
            assert(usize::MAX <= u64::MAX) by {
                assert(usize::BITS == 32 || usize::BITS == 64);
            }
        }
        *self as u64
    }

    proof fn lemma_rank_injective(a: Self, b: Self) {
    }
}

impl RankedId for u32 {
    open spec fn rank(self) -> int {
        self as int
    }

    fn rank_value(&self) -> (r: u64) {
        *self as u64
    }

    proof fn lemma_rank_injective(a: Self, b: Self) {
    }
}

impl RankedId for u8 {
    open spec fn rank(self) -> int {
        self as int
    }

    fn rank_value(&self) -> (r: u64) {
        *self as u64
    }

    proof fn lemma_rank_injective(a: Self, b: Self) {
    }
}

/// Every element ranks strictly below every later element.
pub open spec fn strictly_increasing<T: RankedId>(s: Seq<T>) -> bool {
    forall|i: int, j: int| 0 <= i < j < s.len() ==> s[i].rank() < s[j].rank()
}

/// Inserts `x` at its ordered position unless it is already present.
pub fn insert_sorted_unique<T: RankedId>(v: &mut Vec<T>, x: T)
    requires
        strictly_increasing(old(v)@),
    ensures
        strictly_increasing(final(v)@),
        forall|y: T| #[trigger] final(v)@.contains(y) <==> (old(v)@.contains(y) || y == x),
{
    let key = x.rank_value();
    let mut i: usize = 0;
    while i < v.len() && v[i].rank_value() < key
        invariant
            i <= v.len(),
            key == x.rank(),
            forall|k: int| 0 <= k < i ==> v@[k].rank() < x.rank(),
        decreases v.len() - i,
    {
        i = i + 1;
    }
    if i < v.len() && v[i].rank_value() == key {
        proof {
            T::lemma_rank_injective(v@[i as int], x);
        }
        assert(v@[i as int] == x);
        assert(forall|y: T| #[trigger] v@.contains(y) <==> (old(v)@.contains(y) || y == x));
        return;
    }
    let ghost before = v@;
    v.insert(i, x);
    proof {
        assert forall|a: int, b: int| 0 <= a < b < v@.len() implies v@[a].rank() < v@[b].rank() by {
            if b < i {
            } else if b == i {
            } else if a < i {
                assert(v@[b] == before[b - 1]);
            } else if a == i {
                assert(v@[b] == before[b - 1]);
                assert(before[i as int].rank() > x.rank());
                if b - 1 > i {
                    assert(before[i as int].rank() < before[b - 1].rank());
                }
            } else {
                assert(v@[a] == before[a - 1]);
                assert(v@[b] == before[b - 1]);
            }
        }
        assert forall|y: T| v@.contains(y) <==> (before.contains(y) || y == x) by {
            if v@.contains(y) {
                let k = choose|k: int| 0 <= k < v@.len() && v@[k] == y;
                if k < i {
                    assert(before[k] == y);
                } else if k > i {
                    assert(before[k - 1] == y);
                }
            }
            if before.contains(y) {
                let k = choose|k: int| 0 <= k < before.len() && before[k] == y;
                if k < i {
                    assert(v@[k] == y);
                } else {
                    assert(v@[k + 1] == y);
                }
            }
            if y == x {
                assert(v@[i as int] == x);
            }
        }
        assert(before == old(v)@);
        assert(forall|y: T| #[trigger] v@.contains(y) <==> (old(v)@.contains(y) || y == x));
    }
}

/// The ascending, duplicate-free arrangement of the values of `values`.
pub fn sorted_unique<T: RankedId>(values: &Vec<T>) -> (out: Vec<T>)
    ensures
        strictly_increasing(out@),
        forall|y: T| #[trigger] out@.contains(y) <==> values@.contains(y),
{
    let mut out: Vec<T> = Vec::new();
    let mut i: usize = 0;
    while i < values.len()
        invariant
            i <= values.len(),
            strictly_increasing(out@),
            forall|y: T| #[trigger] out@.contains(y) <==> values@.subrange(0, i as int).contains(y),
        decreases values.len() - i,
    {
        insert_sorted_unique(&mut out, values[i]);
        let ghost next = values@.subrange(0, i + 1);
        let ghost prefix = values@.subrange(0, i as int);
        proof {
            assert forall|y: T| out@.contains(y) <==> next.contains(y) by {
                if next.contains(y) {
                    let k = choose|k: int| 0 <= k < next.len() && next[k] == y;
                    if k < i {
                        assert(prefix[k] == y);
                    }
                }
                if prefix.contains(y) {
                    let k = choose|k: int| 0 <= k < prefix.len() && prefix[k] == y;
                    assert(next[k] == y);
                }
                if y == values@[i as int] {
                    assert(next[i as int] == y);
                }
            }
        }
        i = i + 1;
    }
    assert(values@.subrange(0, i as int) =~= values@);
    out
}

/// A strictly increasing sequence holds no value twice.
pub proof fn lemma_strictly_increasing_no_duplicates<T: RankedId>(s: Seq<T>)
    requires
        strictly_increasing(s),
    ensures
        s.no_duplicates(),
{
    assert forall|i: int, j: int| 0 <= i < s.len() && 0 <= j < s.len() && i != j implies s[i]
        != s[j] by {
        if i < j {
            assert(s[i].rank() < s[j].rank());
        } else {
            assert(s[j].rank() < s[i].rank());
        }
    }
}

/// Two strictly increasing sequences holding the same values are equal.
pub proof fn lemma_strictly_increasing_unique<T: RankedId>(a: Seq<T>, b: Seq<T>)
    requires
        strictly_increasing(a),
        strictly_increasing(b),
        forall|y: T| a.contains(y) <==> b.contains(y),
    ensures
        a == b,
    decreases a.len(),
{
    if a.len() == 0 {
        if b.len() > 0 {
            assert(b.contains(b[0]));
        }
        assert(a =~= b);
    } else if b.len() == 0 {
        assert(a.contains(a[0]));
    } else {
        let la = a.last();
        let lb = b.last();
        assert(a.contains(la));
        assert(b.contains(lb));
        let ka = choose|k: int| 0 <= k < a.len() && a[k] == lb;
        let kb = choose|k: int| 0 <= k < b.len() && b[k] == la;
        if ka < a.len() - 1 {
            assert(a[ka].rank() < la.rank());
        }
        if kb < b.len() - 1 {
            assert(b[kb].rank() < lb.rank());
        }
        T::lemma_rank_injective(la, lb);
        assert(la == lb);
        let a2 = a.drop_last();
        let b2 = b.drop_last();
        assert forall|y: T| a2.contains(y) <==> b2.contains(y) by {
            if a2.contains(y) {
                let k = choose|k: int| 0 <= k < a2.len() && a2[k] == y;
                assert(a[k] == y);
                assert(y.rank() < la.rank());
                assert(b.contains(y));
                let j = choose|j: int| 0 <= j < b.len() && b[j] == y;
                assert(j != b.len() - 1);
                assert(b2[j] == y);
            }
            if b2.contains(y) {
                let k = choose|k: int| 0 <= k < b2.len() && b2[k] == y;
                assert(b[k] == y);
                assert(y.rank() < lb.rank());
                assert(a.contains(y));
                let j = choose|j: int| 0 <= j < a.len() && a[j] == y;
                assert(j != a.len() - 1);
                assert(a2[j] == y);
            }
        }
        lemma_strictly_increasing_unique(a2, b2);
        assert(a =~= a2.push(la));
        assert(b =~= b2.push(lb));
    }
}

} // verus!
