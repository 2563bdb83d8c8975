//! Vertical merging: stacks of identical plates in consecutive rows become
//! rectangles.
use vstd::prelude::*;
use crate::plates::Plate;

verus! {

/// A rectangle of grid cells: columns `left..=right` of rows `bottom..=top`.
#[derive(Clone, Copy, Debug, PartialEq, Eq, Structural, Hash, Default)]
pub struct Rect {
    pub left: i32,
    pub right: i32,
    pub top: i32,
    pub bottom: i32,
}

/// Whether `rect` covers cell `p`.
pub open spec fn covers(rect: Rect, p: (int, int)) -> bool {
    &&& rect.left <= p.0 <= rect.right
    &&& rect.bottom <= p.1 <= rect.top
}

/// The cells that some rectangle of `rects` covers.
pub open spec fn covered(rects: Seq<Rect>) -> Set<(int, int)> {
    Set::new(|p: (int, int)| exists|i: int| 0 <= i < rects.len() && covers(#[trigger] rects[i], p))
}

/// Whether no cell is covered by two of `rects`.
pub open spec fn pairwise_disjoint(rects: Seq<Rect>) -> bool {
    forall|i: int, j: int, p: (int, int)|
        0 <= i < rects.len() && 0 <= j < rects.len() && i != j && #[trigger] covers(rects[i], p)
            ==> !#[trigger] covers(rects[j], p)
}

/// The plate lists of `rows` as sequences.
pub open spec fn rows_view(rows: Seq<Vec<Plate>>) -> Seq<Seq<Plate>> {
    rows.map_values(|v: Vec<Plate>| v@)
}

/// Whether `row` holds a plate spanning exactly columns `left..=right`.
pub open spec fn plate_in_row(row: Seq<Plate>, left: int, right: int) -> bool {
    exists|k: int| 0 <= k < row.len() && (#[trigger] row[k]).left == left && row[k].right == right
}

/// Whether grid row `y` holds a plate spanning exactly `left..=right`, where
/// `rows[i]` holds the plates of grid row `base + i`.
pub open spec fn has_plate(rows: Seq<Seq<Plate>>, base: int, y: int, left: int, right: int) -> bool {
    &&& 0 <= y - base < rows.len()
    &&& plate_in_row(rows[y - base], left, right)
}

/// Whether every row of `rect` holds a plate with the columns of `rect`.
pub open spec fn is_stack(rows: Seq<Seq<Plate>>, base: int, rect: Rect) -> bool {
    &&& rect.bottom <= rect.top
    &&& forall|y: int| rect.bottom <= y <= rect.top ==> #[trigger] has_plate(rows, base, y, rect.left as int, rect.right as int)
}

/// A stack that the row below cannot extend.
pub open spec fn is_grounded_stack(rows: Seq<Seq<Plate>>, base: int, rect: Rect) -> bool {
    &&& is_stack(rows, base, rect)
    &&& !has_plate(rows, base, rect.bottom - 1, rect.left as int, rect.right as int)
}

/// A stack that neither the row below nor the row above can extend.
pub open spec fn is_maximal_stack(rows: Seq<Seq<Plate>>, base: int, rect: Rect) -> bool {
    &&& is_grounded_stack(rows, base, rect)
    &&& !has_plate(rows, base, rect.top + 1, rect.left as int, rect.right as int)
}

/// Whether `rows[i]` holds plates of grid row `base + i` only, each with
/// `left <= right`, and no two plates of one row share a column.
pub open spec fn rows_wf(rows: Seq<Seq<Plate>>, base: int) -> bool {
    &&& forall|i: int, k: int| 0 <= i < rows.len() && 0 <= k < rows[i].len()
        ==> (#[trigger] rows[i][k]).row == base + i && rows[i][k].left <= rows[i][k].right
    &&& forall|i: int, a: int, b: int|
        0 <= i < rows.len() && 0 <= a < rows[i].len() && 0 <= b < rows[i].len() && a != b
            ==> (#[trigger] rows[i][a]).right < (#[trigger] rows[i][b]).left || rows[i][b].right < rows[i][a].left
}

/// Two grounded stacks with the same columns that end in the same row are
/// the same rectangle.
proof fn lemma_grounded_unique(rows: Seq<Seq<Plate>>, base: int, a: Rect, b: Rect)
    requires
        is_grounded_stack(rows, base, a),
        is_grounded_stack(rows, base, b),
        a.left == b.left,
        a.right == b.right,
        a.top == b.top,
    ensures
        a == b,
{
    if a.bottom < b.bottom {
        assert(has_plate(rows, base, b.bottom - 1, a.left as int, a.right as int));
    } else if b.bottom < a.bottom {
        assert(has_plate(rows, base, a.bottom - 1, b.left as int, b.right as int));
    }
}

/// Whether `row` holds a plate spanning exactly `left..=right`.
fn row_has(row: &Vec<Plate>, left: i32, right: i32) -> (r: bool)
    ensures
        r == plate_in_row(row@, left as int, right as int),
{
    let mut k: usize = 0;
    while k < row.len()
        invariant
            k <= row@.len(),
            forall|m: int| 0 <= m < k ==> !((#[trigger] row@[m]).left == left && row@[m].right == right),
        decreases row@.len() - k,
    {
        if row[k].left == left && row[k].right == right {
            return true;
        }
        k = k + 1;
    }
    false
}

/// The index of the open rectangle with columns `left..=right`, if any.
fn find_open(open: &Vec<Rect>, left: i32, right: i32) -> (r: Option<usize>)
    ensures
        r matches Some(j) ==> j < open@.len() && open@[j as int].left == left && open@[j as int].right == right,
        r is None ==> forall|j: int| 0 <= j < open@.len()
            ==> !((#[trigger] open@[j]).left == left && open@[j].right == right),
{
    let mut j: usize = 0;
    while j < open.len()
        invariant
            j <= open@.len(),
            forall|m: int| 0 <= m < j ==> !((#[trigger] open@[m]).left == left && open@[m].right == right),
        decreases open@.len() - j,
    {
        if open[j].left == left && open[j].right == right {
            return Some(j);
        }
        j = j + 1;
    }
    None
}

/// No two of `rects` span the same columns.
spec fn distinct_columns(rects: Seq<Rect>) -> bool {
    forall|a: int, b: int| 0 <= a < rects.len() && 0 <= b < rects.len() && a != b
        ==> !((#[trigger] rects[a]).left == (#[trigger] rects[b]).left && rects[a].right == rects[b].right)
}

/// Every plate of grid row `y` has a rectangle of `open` with its columns.
spec fn open_spans_row(rows: Seq<Seq<Plate>>, base: int, y: int, open: Seq<Rect>) -> bool {
    forall|l: int, r: int| #[trigger] has_plate(rows, base, y, l, r)
        ==> exists|j: int| 0 <= j < open.len() && (#[trigger] open[j]).left == l && open[j].right == r
}

/// The rectangles still open below grid row `y`: grounded stacks that end in
/// row `y - 1`, one per plate of that row.
spec fn open_wf(rows: Seq<Seq<Plate>>, base: int, y: int, open: Seq<Rect>) -> bool {
    &&& forall|j: int| 0 <= j < open.len()
        ==> is_grounded_stack(rows, base, #[trigger] open[j]) && open[j].top == y - 1
    &&& distinct_columns(open)
    &&& open_spans_row(rows, base, y - 1, open)
}

/// The rectangles finished below grid row `y`: every maximal stack whose top
/// is under row `y - 1`, each once.
spec fn done_wf(rows: Seq<Seq<Plate>>, base: int, y: int, done: Seq<Rect>) -> bool {
    &&& forall|rect: Rect| #[trigger] done.contains(rect)
        <==> is_maximal_stack(rows, base, rect) && rect.top < y - 1
    &&& done.no_duplicates()
}

/// Moves to `done` each open rectangle whose columns row `y` (whose plates
/// are `cur`) does not continue.
fn close_finished(
    open: &Vec<Rect>,
    cur: &Vec<Plate>,
    done: &mut Vec<Rect>,
    Ghost(rows): Ghost<Seq<Seq<Plate>>>,
    Ghost(base): Ghost<int>,
    Ghost(y): Ghost<int>,
)
    requires
        (0 <= y - base < rows.len() && cur@ == rows[y - base]) || (y - base == rows.len() && cur@.len() == 0),
        open_wf(rows, base, y, open@),
        done_wf(rows, base, y, old(done)@),
    ensures
        done_wf(rows, base, y + 1, final(done)@),
{
    let ghost d0 = done@;
    let mut j: usize = 0;
    while j < open.len()
        invariant
            j <= open@.len(),
            (0 <= y - base < rows.len() && cur@ == rows[y - base]) || (y - base == rows.len() && cur@.len() == 0),
            open_wf(rows, base, y, open@),
            done_wf(rows, base, y, d0),
            forall|rect: Rect| #[trigger] done@.contains(rect) <==> (d0.contains(rect) || exists|m: int|
                0 <= m < j && open@[m] == rect && !plate_in_row(cur@, rect.left as int, rect.right as int)),
            done@.no_duplicates(),
        decreases open@.len() - j,
    {
        let rect = open[j];
        if !row_has(cur, rect.left, rect.right) {
            let ghost before = done@;
            assert(!before.contains(rect)) by {
                if before.contains(rect) {
                    if !d0.contains(rect) {
                        let m = choose|m: int| 0 <= m < j && open@[m] == rect
                            && !plate_in_row(cur@, rect.left as int, rect.right as int);
                        assert(open@[m].left == open@[j as int].left);
                    }
                }
            }
            done.push(rect);
            assert forall|a: int, b: int| 0 <= a < done@.len() && 0 <= b < done@.len() && a != b
                implies done@[a] != done@[b] by {
                if a == done@.len() - 1 {
                    assert(before.contains(done@[b]));
                } else if b == done@.len() - 1 {
                    assert(before.contains(done@[a]));
                }
            }
            assert forall|r: Rect| #[trigger] done@.contains(r) <==> (d0.contains(r) || exists|m: int|
                0 <= m < j + 1 && open@[m] == r && !plate_in_row(cur@, r.left as int, r.right as int)) by {
                if done@.contains(r) && r != rect {
                    let k = choose|k: int| 0 <= k < done@.len() && done@[k] == r;
                    assert(before[k] == r);
                    assert(before.contains(r));
                }
                if r == rect {
                    assert(done@[done@.len() - 1] == r);
                }
                if !d0.contains(r) && exists|m: int|
                    0 <= m < j + 1 && open@[m] == r && !plate_in_row(cur@, r.left as int, r.right as int) {
                    if r != rect {
                        let m = choose|m: int| 0 <= m < j + 1 && open@[m] == r
                            && !plate_in_row(cur@, r.left as int, r.right as int);
                        assert(m < j);
                        assert(before.contains(r));
                        let k = choose|k: int| 0 <= k < before.len() && before[k] == r;
                        assert(done@[k] == r);
                    }
                }
                if d0.contains(r) {
                    assert(before.contains(r));
                    let k = choose|k: int| 0 <= k < before.len() && before[k] == r;
                    assert(done@[k] == r);
                }
            }
        }
        j = j + 1;
    }
    assert forall|rect: Rect| #[trigger] done@.contains(rect)
        <==> is_maximal_stack(rows, base, rect) && rect.top < y by {
        if done@.contains(rect) && !d0.contains(rect) {
            let m = choose|m: int| 0 <= m < open@.len() && open@[m] == rect
                && !plate_in_row(cur@, rect.left as int, rect.right as int);
            assert(is_grounded_stack(rows, base, open@[m]));
        }
        if is_maximal_stack(rows, base, rect) && rect.top == y - 1 {
            assert(has_plate(rows, base, rect.top as int, rect.left as int, rect.right as int));
            let m = choose|m: int| 0 <= m < open@.len() && (#[trigger] open@[m]).left == rect.left
                && open@[m].right == rect.right;
            assert(is_grounded_stack(rows, base, open@[m]));
            lemma_grounded_unique(rows, base, open@[m], rect);
            assert(!plate_in_row(cur@, rect.left as int, rect.right as int));
        }
    }
}

/// The rectangles open below grid row `y + 1`: each rectangle of `open` whose
/// columns row `y` continues grows by that row, and each other plate of row
/// `y` (whose plates are `cur`) opens a rectangle of its own.
fn extend_open(
    open: &Vec<Rect>,
    cur: &Vec<Plate>,
    Ghost(rows): Ghost<Seq<Seq<Plate>>>,
    Ghost(base): Ghost<int>,
    Ghost(y): Ghost<int>,
) -> (next: Vec<Rect>)
    requires
        rows_wf(rows, base),
        0 <= y - base < rows.len(),
        cur@ == rows[y - base],
        open_wf(rows, base, y, open@),
    ensures
        open_wf(rows, base, y + 1, next@),
{
    let mut next: Vec<Rect> = Vec::new();
    let mut k: usize = 0;
    while k < cur.len()
        invariant
            k <= cur@.len(),
            rows_wf(rows, base),
            0 <= y - base < rows.len(),
            cur@ == rows[y - base],
            open_wf(rows, base, y, open@),
            next@.len() == k,
            forall|m: int| 0 <= m < k ==> {
                &&& (#[trigger] next@[m]).left == cur@[m].left
                &&& next@[m].right == cur@[m].right
                &&& next@[m].top == y
                &&& is_grounded_stack(rows, base, next@[m])
            },
        decreases cur@.len() - k,
    {
        let p = cur[k];
        assert(rows[y - base][k as int] == p);
        assert(has_plate(rows, base, y, p.left as int, p.right as int));
        let rect = match find_open(open, p.left, p.right) {
            Some(j) => {
                let o = open[j];
                assert(is_grounded_stack(rows, base, open@[j as int]));
                Rect { left: o.left, right: o.right, top: p.row, bottom: o.bottom }
            },
            None => {
                assert(!has_plate(rows, base, y - 1, p.left as int, p.right as int));
                Rect { left: p.left, right: p.right, top: p.row, bottom: p.row }
            },
        };
        assert(is_grounded_stack(rows, base, rect)) by {
            assert forall|z: int| rect.bottom <= z <= rect.top
                implies #[trigger] has_plate(rows, base, z, rect.left as int, rect.right as int) by {
                if z < y {
                    let j = choose|j: int| 0 <= j < open@.len() && (#[trigger] open@[j]).left == rect.left
                        && open@[j].right == rect.right && open@[j].bottom == rect.bottom;
                    assert(is_grounded_stack(rows, base, open@[j]));
                }
            }
        }
        next.push(rect);
        k = k + 1;
    }
    assert(distinct_columns(next@)) by {
        assert forall|a: int, b: int| 0 <= a < next@.len() && 0 <= b < next@.len() && a != b
            implies !((#[trigger] next@[a]).left == (#[trigger] next@[b]).left && next@[a].right == next@[b].right) by {
            assert(rows[y - base][a] == cur@[a]);
            assert(rows[y - base][b] == cur@[b]);
        }
    }
    assert(open_spans_row(rows, base, y, next@)) by {
        assert forall|l: int, r: int| #[trigger] has_plate(rows, base, y, l, r)
            implies exists|j: int| 0 <= j < next@.len() && (#[trigger] next@[j]).left == l && next@[j].right == r by {
            let k = choose|k: int| 0 <= k < cur@.len() && (#[trigger] cur@[k]).left == l && cur@[k].right == r;
            assert(next@[k].left == l);
        }
    }
    next
}

/// Merges plates across rows into rectangles: `rows[i]` holds the plates of
/// grid row `base + i`, and each maximal stack of plates with the same columns
/// in consecutive rows becomes one rectangle. Rows are taken bottom to top; a
/// rectangle is finished at the first row that does not continue it, and an
/// empty row after the last one finishes the rest.
pub fn merge_plates(rows: &Vec<Vec<Plate>>, base: i32) -> (r: Vec<Rect>)
    requires
        rows_wf(rows_view(rows@), base as int),
    ensures
        forall|rect: Rect| #[trigger] r@.contains(rect) <==> is_maximal_stack(rows_view(rows@), base as int, rect),
        r@.no_duplicates(),
{
    let ghost pr = rows_view(rows@);
    let ghost b = base as int;
    let mut open: Vec<Rect> = Vec::new();
    let mut done: Vec<Rect> = Vec::new();
    assert(done_wf(pr, b, b, done@)) by {
        assert forall|rect: Rect| is_maximal_stack(pr, b, rect) implies rect.top >= b - 1 by {
            assert(has_plate(pr, b, rect.top as int, rect.left as int, rect.right as int));
        }
    }
    let mut i: usize = 0;
    while i < rows.len()
        invariant
            i <= rows@.len(),
            pr == rows_view(rows@),
            rows_wf(pr, b),
            open_wf(pr, b, b + i, open@),
            done_wf(pr, b, b + i, done@),
        decreases rows@.len() - i,
    {
        let cur = &rows[i as usize];
        assert(cur@ == pr[i as int]);
        close_finished(&open, cur, &mut done, Ghost(pr), Ghost(b), Ghost(b + i));
        open = extend_open(&open, cur, Ghost(pr), Ghost(b), Ghost(b + i));
        i = i + 1;
    }
    let closing: Vec<Plate> = Vec::new();
    close_finished(&open, &closing, &mut done, Ghost(pr), Ghost(b), Ghost(b + i));
    assert forall|rect: Rect| #[trigger] done@.contains(rect) <==> is_maximal_stack(pr, b, rect) by {
        if is_maximal_stack(pr, b, rect) {
            assert(has_plate(pr, b, rect.top as int, rect.left as int, rect.right as int));
        }
    }
    done
}

/// The lowest row of the run of rows, ending in row `y`, that all hold a
/// plate spanning `left..=right`.
spec fn stack_bottom(rows: Seq<Seq<Plate>>, base: int, y: int, left: int, right: int) -> int
    decreases y - base,
{
    if y - base > 0 && has_plate(rows, base, y - 1, left, right) {
        stack_bottom(rows, base, y - 1, left, right)
    } else {
        y
    }
}

/// The highest row of the run of rows, starting in row `y`, that all hold a
/// plate spanning `left..=right`.
spec fn stack_top(rows: Seq<Seq<Plate>>, base: int, y: int, left: int, right: int) -> int
    decreases base + rows.len() - y,
{
    if base + rows.len() - y > 0 && has_plate(rows, base, y + 1, left, right) {
        stack_top(rows, base, y + 1, left, right)
    } else {
        y
    }
}

proof fn lemma_stack_bottom(rows: Seq<Seq<Plate>>, base: int, y: int, left: int, right: int)
    requires
        has_plate(rows, base, y, left, right),
    ensures
        stack_bottom(rows, base, y, left, right) <= y,
        !has_plate(rows, base, stack_bottom(rows, base, y, left, right) - 1, left, right),
        forall|z: int| stack_bottom(rows, base, y, left, right) <= z <= y
            ==> #[trigger] has_plate(rows, base, z, left, right),
    decreases y - base,
{
    if y - base > 0 && has_plate(rows, base, y - 1, left, right) {
        lemma_stack_bottom(rows, base, y - 1, left, right);
    }
}

proof fn lemma_stack_top(rows: Seq<Seq<Plate>>, base: int, y: int, left: int, right: int)
    requires
        has_plate(rows, base, y, left, right),
    ensures
        stack_top(rows, base, y, left, right) >= y,
        !has_plate(rows, base, stack_top(rows, base, y, left, right) + 1, left, right),
        forall|z: int| y <= z <= stack_top(rows, base, y, left, right)
            ==> #[trigger] has_plate(rows, base, z, left, right),
    decreases base + rows.len() - y,
{
    if base + rows.len() - y > 0 && has_plate(rows, base, y + 1, left, right) {
        lemma_stack_top(rows, base, y + 1, left, right);
    }
}

/// Every plate lies in a maximal stack with its columns.
pub proof fn lemma_plate_in_maximal_stack(rows: Seq<Seq<Plate>>, base: int, y: int, left: i32, right: i32)
    requires
        has_plate(rows, base, y, left as int, right as int),
        rows_wf(rows, base),
    ensures
        exists|rect: Rect| #[trigger] is_maximal_stack(rows, base, rect) && rect.left == left
            && rect.right == right && rect.bottom <= y <= rect.top,
{
    let lo = stack_bottom(rows, base, y, left as int, right as int);
    let hi = stack_top(rows, base, y, left as int, right as int);
    lemma_stack_bottom(rows, base, y, left as int, right as int);
    lemma_stack_top(rows, base, y, left as int, right as int);
    assert(has_plate(rows, base, lo, left as int, right as int));
    assert(has_plate(rows, base, hi, left as int, right as int));
    let kl = choose|k: int| 0 <= k < rows[lo - base].len() && (#[trigger] rows[lo - base][k]).left == left
        && rows[lo - base][k].right == right;
    let kh = choose|k: int| 0 <= k < rows[hi - base].len() && (#[trigger] rows[hi - base][k]).left == left
        && rows[hi - base][k].right == right;
    assert(rows[lo - base][kl].row == lo);
    assert(rows[hi - base][kh].row == hi);
    let rect = Rect { left, right, top: hi as i32, bottom: lo as i32 };
    assert(is_maximal_stack(rows, base, rect));
}

} // verus!
