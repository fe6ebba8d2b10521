//! Reassembling rows computed out of order into the image.
use crate::color::Rgb;
use vstd::prelude::*;

verus! {

/// The row index that each part carries.
pub open spec fn indices_of(parts: Seq<(usize, Vec<Rgb>)>) -> Seq<usize> {
    Seq::new(parts.len(), |p: int| parts[p].0)
}

/// Some part carries row index `k`.
pub open spec fn row_present(idx: Seq<usize>, k: int) -> bool {
    exists|p: int| 0 <= p < idx.len() && #[trigger] idx[p] == k
}

/// The indices name each row of `0..height` exactly once.
pub open spec fn is_row_order(idx: Seq<usize>, height: int) -> bool {
    &&& forall|p: int| 0 <= p < idx.len() ==> #[trigger] idx[p] < height
    &&& forall|p: int, q: int|
        0 <= p < idx.len() && 0 <= q < idx.len() && p != q ==> #[trigger] idx[p] != #[trigger] idx[q]
    &&& forall|k: int| 0 <= k < height ==> #[trigger] row_present(idx, k)
}

/// Puts rows that arrive in any order, each tagged with its row index, into
/// ascending row order. Fails where an index is out of range, repeated or
/// missing.
pub fn assemble_rows(parts: Vec<(usize, Vec<Rgb>)>, height: usize) -> (res: Option<Vec<Vec<Rgb>>>)
    ensures
        res is Some <==> is_row_order(indices_of(parts@), height as int),
        match res {
            Some(rows) => {
                &&& rows.len() == height
                &&& forall|p: int|
                    0 <= p < parts.len() ==> (#[trigger] rows@[parts@[p].0 as int])@ == parts@[p].1@
            },
            None => true,
        },
{
    let ghost orig = parts@;
    let mut slots: Vec<Option<Vec<Rgb>>> = Vec::new();
    let mut k: usize = 0;
    while k < height
        invariant
            0 <= k <= height,
            slots.len() == k,
            orig == parts@,
            forall|m: int| 0 <= m < k ==> (#[trigger] slots@[m]) is None,
        decreases height - k,
    {
        slots.push(None);
        k = k + 1;
    }
    let mut pending = parts;
    let ghost idx = indices_of(orig);
    let ghost mut owner: Seq<int> = Seq::new(height as nat, |m: int| -1);
    while pending.len() > 0
        invariant
            pending.len() <= orig.len(),
            pending@ == orig.take(pending.len() as int),
            idx == indices_of(orig),
            orig == parts@,
            slots.len() == height,
            owner.len() == height,
            forall|m: int| 0 <= m < height ==> ((#[trigger] slots@[m]) is Some <==> owner[m] >= 0),
            forall|m: int|
                0 <= m < height && #[trigger] owner[m] >= 0 ==> {
                    &&& pending.len() <= owner[m] < orig.len()
                    &&& orig[owner[m]].0 == m
                    &&& slots@[m].unwrap()@ == orig[owner[m]].1@
                },
            forall|q: int|
                pending.len() <= q < orig.len() ==> #[trigger] orig[q].0 < height && owner[orig[q].0 as int] == q,
        decreases pending.len(),
    {
        let ghost q = pending.len() - 1;
        let (m, row) = pending.pop().unwrap();
        assert(orig[q] == (m, row));
        if m >= height {
            assert(idx[q] == m);
            assert(!is_row_order(idx, height as int));
            return None;
        }
        if slots[m].is_some() {
            proof {
                let other = owner[m as int];
                assert(idx[q] == m && idx[other] == m);
                assert(!is_row_order(idx, height as int));
            }
            return None;
        }
        slots.set(m, Some(row));
        proof {
            owner = owner.update(m as int, q);
            assert(pending@ =~= orig.take(pending.len() as int));
        }
    }
    proof {
        assert forall|p: int, r: int|
            0 <= p < idx.len() && 0 <= r < idx.len() && p != r implies #[trigger] idx[p] != #[trigger] idx[r] by {
            assert(owner[orig[p].0 as int] == p);
            assert(owner[orig[r].0 as int] == r);
        }
        assert forall|p: int| 0 <= p < idx.len() implies #[trigger] idx[p] < height by {
            assert(orig[p].0 < height);
        }
    }
    let mut rows: Vec<Vec<Rgb>> = Vec::new();
    let mut k: usize = 0;
    while k < height
        invariant
            0 <= k <= height,
            slots.len() == height,
            rows.len() == k,
            owner.len() == height,
            idx == indices_of(orig),
            orig == parts@,
            forall|m: int| k <= m < height ==> ((#[trigger] slots@[m]) is Some <==> owner[m] >= 0),
            forall|m: int|
                k <= m < height && #[trigger] owner[m] >= 0 ==> {
                    &&& 0 <= owner[m] < orig.len()
                    &&& orig[owner[m]].0 == m
                    &&& slots@[m].unwrap()@ == orig[owner[m]].1@
                },
            forall|m: int| 0 <= m < k ==> 0 <= #[trigger] owner[m] < orig.len() && orig[owner[m]].0 == m
                && rows@[m]@ == orig[owner[m]].1@,
            forall|q: int| 0 <= q < orig.len() ==> #[trigger] orig[q].0 < height && owner[orig[q].0 as int] == q,
        decreases height - k,
    {
        let mut taken: Option<Vec<Rgb>> = None;
        slots.set_and_swap(k, &mut taken);
        match taken {
            Some(row) => {
                rows.push(row);
            },
            None => {
                proof {
                    assert forall|p: int| 0 <= p < idx.len() implies #[trigger] idx[p] != k by {
                        assert(owner[orig[p].0 as int] == p);
                    }
                    assert(!row_present(idx, k as int));
                    assert(!is_row_order(idx, height as int));
                }
                return None;
            },
        }
        k = k + 1;
    }
    proof {
        assert forall|m: int| 0 <= m < height implies #[trigger] row_present(idx, m) by {
            assert(idx[owner[m]] == m);
        }
        assert forall|p: int| 0 <= p < orig.len() implies (#[trigger] rows@[orig[p].0 as int])@ == orig[p].1@ by {
            assert(owner[orig[p].0 as int] == p);
        }
    }
    Some(rows)
}

/// Whatever order the rows were computed and handed in, once they are
/// assembled row `k` is the scanline computed for image row `k`.
pub proof fn lemma_assembled_in_row_order(
    parts: Seq<(usize, Vec<Rgb>)>,
    height: int,
    rows: Seq<Vec<Rgb>>,
    scanline: Seq<Seq<Rgb>>,
)
    requires
        is_row_order(indices_of(parts), height),
        forall|p: int| 0 <= p < parts.len() ==> (#[trigger] parts[p]).1@ == scanline[parts[p].0 as int],
        rows.len() == height,
        forall|p: int| 0 <= p < parts.len() ==> (#[trigger] rows[parts[p].0 as int])@ == parts[p].1@,
    ensures
        forall|k: int| 0 <= k < height ==> (#[trigger] rows[k])@ == scanline[k],
{
    let idx = indices_of(parts);
    assert forall|k: int| 0 <= k < height implies (#[trigger] rows[k])@ == scanline[k] by {
        assert(row_present(idx, k));
        let p = choose|p: int| 0 <= p < idx.len() && #[trigger] idx[p] == k;
        assert(parts[p].0 == k);
        assert(rows[parts[p].0 as int]@ == parts[p].1@);
    }
}

} // verus!
