//! Horizontal plates: the maximal runs of occupied cells in one row.
use vstd::prelude::*;
use crate::grid::{GridCoords, OccupancySet};

verus! {

/// A run of occupied cells in one row, from column `left` to column `right`,
/// both included.
#[derive(Clone, Copy, Debug, PartialEq, Eq, Structural, Hash, Default)]
pub struct Plate {
    pub row: i32,
    pub left: i32,
    pub right: i32,
}

/// Whether columns `left..=right` of row `row` are all occupied, and the run
/// cannot be widened on either side.
pub open spec fn is_run(cells: Set<(int, int)>, row: int, left: int, right: int) -> bool {
    &&& left <= right
    &&& forall|x: int| left <= x <= right ==> #[trigger] cells.contains((x, row))
    &&& !cells.contains((left - 1, row))
    &&& !cells.contains((right + 1, row))
}

/// Whether `p` is a run of row `row` within columns `lo..=hi` that cannot be
/// widened inside that window.
pub open spec fn is_window_run(cells: Set<(int, int)>, row: int, lo: int, hi: int, p: Plate) -> bool {
    &&& p.row == row
    &&& lo <= p.left <= p.right <= hi
    &&& forall|x: int| p.left <= x <= p.right ==> #[trigger] cells.contains((x, row))
    &&& (p.left == lo || !cells.contains((p.left - 1, row)))
    &&& (p.right == hi || !cells.contains((p.right + 1, row)))
}

/// Whether plate `p` holds column `x`.
pub open spec fn holds_column(p: Plate, x: int) -> bool {
    p.left <= x <= p.right
}

/// Whether `plates` are exactly the maximal runs of row `row` inside columns
/// `lo..=hi`, from left to right.
pub open spec fn row_plates_of(cells: Set<(int, int)>, row: int, lo: int, hi: int, plates: Seq<Plate>) -> bool {
    &&& forall|k: int| 0 <= k < plates.len() ==> is_window_run(cells, row, lo, hi, #[trigger] plates[k])
    &&& forall|a: int, b: int| 0 <= a < b < plates.len() ==> (#[trigger] plates[a]).right < (#[trigger] plates[b]).left
    &&& forall|x: int| lo <= x <= hi && #[trigger] cells.contains((x, row))
        ==> exists|k: int| 0 <= k < plates.len() && holds_column(#[trigger] plates[k], x)
}

/// Scans columns `lo..=hi` of row `row` from left to right and returns one
/// plate per maximal run of occupied cells, in order. A run still open at
/// column `hi` is closed there. An empty window (`lo > hi`) gives no plate.
pub fn row_plates(occ: &OccupancySet, row: i32, lo: i32, hi: i32) -> (r: Vec<Plate>)
    ensures
        row_plates_of(occ@, row as int, lo as int, hi as int, r@),
        lo > hi ==> r@.len() == 0,
{
    let mut plates: Vec<Plate> = Vec::new();
    let mut run_left: Option<i32> = None;
    let mut x: i64 = lo as i64;
    while x <= hi as i64
        invariant
            lo <= x <= hi as int + 1 || (lo > hi && x == lo),
            lo > hi ==> plates@.len() == 0 && run_left is None,
            forall|k: int| 0 <= k < plates@.len() ==> is_window_run(occ@, row as int, lo as int, hi as int, #[trigger] plates@[k]),
            forall|k: int| 0 <= k < plates@.len() ==> (#[trigger] plates@[k]).right < x - 1,
            forall|a: int, b: int| 0 <= a < b < plates@.len() ==> (#[trigger] plates@[a]).right < (#[trigger] plates@[b]).left,
            match run_left {
                Some(l) => {
                    &&& lo <= l < x
                    &&& forall|c: int| l <= c < x ==> #[trigger] occ@.contains((c, row as int))
                    &&& (l == lo || !occ@.contains((l - 1, row as int)))
                    &&& forall|k: int| 0 <= k < plates@.len() ==> (#[trigger] plates@[k]).right < l
                },
                None => x == lo || !occ@.contains((x - 1, row as int)),
            },
            forall|c: int| lo <= c < x && #[trigger] occ@.contains((c, row as int)) ==> {
                ||| exists|k: int| 0 <= k < plates@.len() && holds_column(#[trigger] plates@[k], c)
                ||| (run_left matches Some(l) && l <= c)
            },
        decreases hi as int + 1 - x,
    {
        let xi = x as i32;
        if occ.contains(GridCoords::new(xi, row)) {
            if run_left.is_none() {
                run_left = Some(xi);
            }
        } else {
            if let Some(l) = run_left {
                let p = Plate { row, left: l, right: xi - 1 };
                let ghost before = plates@;
                plates.push(p);
                assert forall|c: int| lo <= c < x + 1 && #[trigger] occ@.contains((c, row as int))
                    implies exists|k: int| 0 <= k < plates@.len() && holds_column(#[trigger] plates@[k], c) by {
                    if c >= l {
                        assert(holds_column(plates@[plates@.len() - 1], c));
                    } else {
                        let k = choose|k: int| 0 <= k < before.len() && holds_column(#[trigger] before[k], c);
                        assert(holds_column(plates@[k], c));
                    }
                }
            }
            run_left = None;
        }
        x = x + 1;
    }
    if let Some(l) = run_left {
        let p = Plate { row, left: l, right: hi };
        let ghost before = plates@;
        plates.push(p);
        assert forall|c: int| lo <= c <= hi && #[trigger] occ@.contains((c, row as int))
            implies exists|k: int| 0 <= k < plates@.len() && holds_column(#[trigger] plates@[k], c) by {
            if c >= l {
                assert(holds_column(plates@[plates@.len() - 1], c));
            } else {
                let k = choose|k: int| 0 <= k < before.len() && holds_column(#[trigger] before[k], c);
                assert(holds_column(plates@[k], c));
            }
        }
    }
    plates
}

} // verus!
