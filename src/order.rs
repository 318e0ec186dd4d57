//! The order of cells (column first, then row) and search in sorted vectors.

use vstd::prelude::*;

use crate::rules::Cell;

verus! {

/// `a` comes before `b`: a smaller `x`, or the same `x` and a smaller `y`.
pub open spec fn cell_lt(a: Cell, b: Cell) -> bool {
    a.0 < b.0 || (a.0 == b.0 && a.1 < b.1)
}

/// Each cell of `q` comes before every later one, so no cell occurs twice.
pub open spec fn strictly_sorted(q: Seq<Cell>) -> bool {
    forall|i: int, j: int| 0 <= i < j < q.len() ==> cell_lt(#[trigger] q[i], #[trigger] q[j])
}

/// A strictly sorted sequence holds no cell twice.
pub proof fn lemma_sorted_no_duplicates(q: Seq<Cell>)
    requires
        strictly_sorted(q),
    ensures
        q.no_duplicates(),
{
    assert forall|i: int, j: int| 0 <= i < q.len() && 0 <= j < q.len() && i != j implies q[i]
        != q[j] by {
        if i < j {
            assert(cell_lt(q[i], q[j]));
        } else {
            assert(cell_lt(q[j], q[i]));
        }
    }
}

/// Looks `c` up in the sorted vector `v`: `Ok` with its index where it occurs,
/// otherwise `Err` with the index where inserting it keeps `v` sorted.
pub(crate) fn search(v: &Vec<Cell>, c: Cell) -> (r: Result<usize, usize>)
    requires
        strictly_sorted(v@),
    ensures
        match r {
            Ok(i) => i < v@.len() && v@[i as int] == c,
            Err(i) => i <= v@.len() && !v@.contains(c) && strictly_sorted(v@.insert(i as int, c)),
        },
{
    let mut lo: usize = 0;
    let mut hi: usize = v.len();
    while lo < hi
        invariant
            lo <= hi <= v@.len(),
            strictly_sorted(v@),
            forall|j: int| 0 <= j < lo ==> cell_lt(#[trigger] v@[j], c),
            forall|j: int| hi <= j < v@.len() ==> cell_lt(c, #[trigger] v@[j]),
        decreases hi - lo,
    {
        let mid = lo + (hi - lo) / 2;
        let m = v[mid];
        if m.0 == c.0 && m.1 == c.1 {
            return Ok(mid);
        } else if m.0 < c.0 || (m.0 == c.0 && m.1 < c.1) {
            lo = mid + 1;
        } else {
            hi = mid;
        }
    }
    proof {
        v@.insert_ensures(lo as int, c);
        let w = v@.insert(lo as int, c);
        assert forall|i: int, j: int| 0 <= i < j < w.len() implies cell_lt(
            #[trigger] w[i],
            #[trigger] w[j],
        ) by {
            if j < lo {
            } else if j == lo {
            } else if i < lo {
                assert(w[j] == v@[j - 1]);
            } else if i == lo {
                assert(w[j] == v@[j - 1]);
            } else {
                assert(w[i] == v@[i - 1]);
                assert(w[j] == v@[j - 1]);
            }
        }
    }
    Err(lo)
}

} // verus!
