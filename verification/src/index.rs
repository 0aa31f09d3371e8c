//! The cell index: its file format, and the search for the five nearest rows.
//!
//! A file holds, in little-endian order: the magic `RINHAV03`; the number of rows, the number of
//! components, the number of cells and the number of cells to probe, as 64-bit integers; the
//! centroids, 14 words each; the offset of each cell's first row, and the number of rows, as
//! 32-bit integers; the rows, 16 words each; and one label byte per row.
//!
//! Distances are machine numbers that this library does not compute. It knows a distance by its
//! code: a 32-bit integer that is smaller exactly when the distance is.

use crate::bytes;
use crate::bytes::{ascii, has_at};
use crate::pairs;
use crate::pairs::{first_numbers, number};
use crate::top5;
use crate::top5::Top5;
use crate::vector::D;
use vstd::bytes::{u32_from_le_bytes, u64_from_le_bytes};
use vstd::prelude::*;

verus! {

/// The length of the header.
pub const HEADER: usize = 40;

/// The words of a row: its components and two that pad it.
pub const VEC_STRIDE: usize = 16;

/// The bytes of a centroid.
pub const CENTROID_BYTES: usize = 56;

/// The bytes of a row.
pub const ROW_BYTES: usize = 64;

/// The most cells that a search looks at.
pub const MAX_CELLS: usize = 4096;

/// The code of an infinite distance. No code from here on is a distance.
pub const INFINITE: u32 = 0x7f80_0000;

/// Why a file is not an index.
#[derive(Clone, Copy, Debug, PartialEq, Eq, Structural)]
pub enum OpenError {
    BadMagic,
    BadDim,
    Truncated,
}

/// The 64-bit integer at a position, as a count.
pub open spec fn count_at(data: Seq<u8>, at: int) -> usize {
    vstd::bytes::spec_u64_from_le_bytes(data.subrange(at, at + 8)) as usize
}

/// The file begins with a header of this format.
pub open spec fn has_header(data: Seq<u8>) -> bool {
    data.len() >= HEADER && bytes::matches_at(data, bytes::text("RINHAV03"@), 0)
}

/// Where the cell offsets begin.
pub open spec fn offsets_at(n_cells: int) -> int {
    HEADER + n_cells * CENTROID_BYTES
}

/// Where the rows begin.
pub open spec fn rows_at(n_cells: int) -> int {
    offsets_at(n_cells) + (n_cells + 1) * 4
}

/// Where the labels begin.
pub open spec fn labels_at(n: int, n_cells: int) -> int {
    rows_at(n_cells) + n * ROW_BYTES
}

/// The number of rows that a header states.
pub open spec fn header_n(data: Seq<u8>) -> usize {
    count_at(data, 8)
}

/// The number of components that a header states.
pub open spec fn header_d(data: Seq<u8>) -> usize {
    count_at(data, 16)
}

/// The number of cells that a header states.
pub open spec fn header_cells(data: Seq<u8>) -> usize {
    count_at(data, 24)
}

/// The number of cells to probe that a header states.
pub open spec fn header_nprobe(data: Seq<u8>) -> usize {
    count_at(data, 32)
}

/// Every section that the header announces begins within the file.
pub open spec fn sections_begin_inside(data: Seq<u8>) -> bool {
    has_header(data) && header_d(data) == D ==> labels_at(
        header_n(data) as int,
        header_cells(data) as int,
    ) <= data.len()
}

/// The bytes of a centroid in a file.
pub open spec fn centroid_in(data: Seq<u8>, c: int) -> Seq<u8> {
    let at = HEADER + c * CENTROID_BYTES;
    data.subrange(at, at + CENTROID_BYTES)
}

/// The bytes of a row in a file.
pub open spec fn row_in(data: Seq<u8>, n_cells: int, i: int) -> Seq<u8> {
    let at = rows_at(n_cells) + i * ROW_BYTES;
    data.subrange(at, at + ROW_BYTES)
}

/// The label of a row in a file.
pub open spec fn label_in(data: Seq<u8>, n: int, n_cells: int, i: int) -> u8 {
    data[labels_at(n, n_cells) + i]
}

/// The first row of a cell in a file, or the number of rows past the last cell.
pub open spec fn offset_in(data: Seq<u8>, n_cells: int, c: int) -> u32 {
    let at = offsets_at(n_cells) + c * 4;
    vstd::bytes::spec_u32_from_le_bytes(data.subrange(at, at + 4))
}

/// An index over the bytes of its file.
pub struct Index<'a> {
    pub n: usize,
    pub d: usize,
    pub n_cells: usize,
    pub nprobe: usize,
    /// The bytes of the file.
    pub data: &'a [u8],
}

/// Where the labels begin, if that is a position at all.
fn labels_start(n: usize, n_cells: usize) -> (r: Option<usize>)
    ensures
        bytes::position(r) == (if labels_at(n as int, n_cells as int) <= usize::MAX {
            Some(labels_at(n as int, n_cells as int))
        } else {
            None
        }),
{
    let centroids: usize = n_cells.checked_mul(CENTROID_BYTES)?;
    let offsets: usize = n_cells.checked_add(1)?.checked_mul(4)?;
    let rows: usize = n.checked_mul(ROW_BYTES)?;
    HEADER.checked_add(centroids)?.checked_add(offsets)?.checked_add(rows)
}

/// The 64-bit integer at a position, as a count.
fn read_count(data: &[u8], at: usize) -> (r: usize)
    requires
        at + 8 <= data@.len(),
    ensures
        r == count_at(data@, at as int),
{
    assert(data@.len() == data.len());
    u64_from_le_bytes(&data[at..at + 8]) as usize
}

/// Whether the file begins with a header of this format.
fn header_present(data: &[u8]) -> (r: bool)
    ensures
        r == has_header(data@),
{
    proof {
        reveal_strlit("RINHAV03");
    }
    data.len() >= HEADER && has_at(data, ascii("RINHAV03"), 0)
}

impl<'a> Index<'a> {
    /// Every section lies within the file.
    pub open spec fn wf(&self) -> bool {
        &&& self.d == D
        &&& labels_at(self.n as int, self.n_cells as int) + self.n <= self.data@.len()
        &&& self.data@.len() <= usize::MAX
    }

    /// Whether every section that the header announces begins within the file, so that it can be
    /// opened.
    pub fn can_open(data: &[u8]) -> (r: bool)
        ensures
            r == sections_begin_inside(data@),
    {
        if !header_present(data) || read_count(data, 16) != D {
            return true;
        }
        assert(data@.len() == data.len());
        match labels_start(read_count(data, 8), read_count(data, 24)) {
            Some(at) => at <= data.len(),
            None => false,
        }
    }

    /// Opens an index file. A number of cells to probe takes the place of the file's own.
    pub fn open(data: &'a [u8], nprobe: Option<usize>) -> (r: Result<Self, OpenError>)
        requires
            sections_begin_inside(data@),
        ensures
            match r {
                Err(OpenError::BadMagic) => !has_header(data@),
                Err(OpenError::BadDim) => has_header(data@) && header_d(data@) != D,
                Err(OpenError::Truncated) => {
                    &&& has_header(data@)
                    &&& header_d(data@) == D
                    &&& labels_at(header_n(data@) as int, header_cells(data@) as int) + header_n(
                        data@,
                    ) > data@.len()
                },
                Ok(index) => {
                    &&& has_header(data@)
                    &&& index.wf()
                    &&& index.data@ == data@
                    &&& index.n == header_n(data@)
                    &&& index.d == header_d(data@)
                    &&& index.n_cells == header_cells(data@)
                    &&& index.nprobe == (match nprobe {
                        Some(np) => np,
                        None => header_nprobe(data@),
                    })
                },
            },
    {
        if !header_present(data) {
            return Err(OpenError::BadMagic);
        }
        let n: usize = read_count(data, 8);
        let d: usize = read_count(data, 16);
        let n_cells: usize = read_count(data, 24);
        let nprobe: usize = match nprobe {
            Some(np) => np,
            None => read_count(data, 32),
        };
        if d != D {
            return Err(OpenError::BadDim);
        }
        let labels: usize = match labels_start(n, n_cells) {
            Some(at) => at,
            None => 0,
        };
        assert(data@.len() == data.len());
        if n > data.len() - labels {
            return Err(OpenError::Truncated);
        }
        Ok(Index { n, d, n_cells, nprobe, data })
    }

    /// The bytes of a centroid.
    pub open spec fn centroid_bytes(&self, c: int) -> Seq<u8> {
        centroid_in(self.data@, c)
    }

    /// The bytes of a row.
    pub open spec fn row_bytes(&self, i: int) -> Seq<u8> {
        row_in(self.data@, self.n_cells as int, i)
    }

    /// The label of a row.
    pub open spec fn label(&self, i: int) -> u8 {
        label_in(self.data@, self.n as int, self.n_cells as int, i)
    }

    /// The first row of a cell, or the number of rows past the last cell.
    pub open spec fn cell_offset(&self, c: int) -> u32 {
        offset_in(self.data@, self.n_cells as int, c)
    }

    /// The rows of every cell exist.
    pub open spec fn cells_hold_rows(&self) -> bool {
        forall|c: int|
            0 <= c < self.n_cells && self.cell_offset(c) < self.cell_offset(c + 1)
                ==> #[trigger] self.cell_offset(c + 1) <= self.n
    }

    /// The bytes of a centroid.
    pub fn centroid(&self, c: usize) -> (r: &'a [u8])
        requires
            self.wf(),
            c < self.n_cells,
        ensures
            r@ == self.centroid_bytes(c as int),
            r@.len() == CENTROID_BYTES,
    {
        let at: usize = HEADER + c * CENTROID_BYTES;
        &self.data[at..at + CENTROID_BYTES]
    }

    /// The bytes of a row.
    pub fn row(&self, i: usize) -> (r: &'a [u8])
        requires
            self.wf(),
            i < self.n,
        ensures
            r@ == self.row_bytes(i as int),
            r@.len() == ROW_BYTES,
    {
        let at: usize = HEADER + self.n_cells * CENTROID_BYTES + (self.n_cells + 1) * 4 + i
            * ROW_BYTES;
        &self.data[at..at + ROW_BYTES]
    }

    /// The label of a row.
    fn label_of(&self, i: usize) -> (r: u8)
        requires
            self.wf(),
            i < self.n,
        ensures
            r == self.label(i as int),
    {
        self.data[HEADER + self.n_cells * CENTROID_BYTES + (self.n_cells + 1) * 4 + self.n
            * ROW_BYTES + i]
    }

    /// The first row of a cell, or the number of rows past the last cell.
    fn offset_of(&self, c: usize) -> (r: u32)
        requires
            self.wf(),
            c <= self.n_cells,
        ensures
            r == self.cell_offset(c as int),
    {
        let at: usize = HEADER + self.n_cells * CENTROID_BYTES + c * 4;
        u32_from_le_bytes(&self.data[at..at + 4])
    }

    /// Whether the rows of every cell exist.
    pub fn check_cells(&self) -> (r: bool)
        requires
            self.wf(),
        ensures
            r == self.cells_hold_rows(),
    {
        let mut c: usize = 0;
        while c < self.n_cells
            invariant
                self.wf(),
                c <= self.n_cells,
                forall|k: int|
                    0 <= k < c && self.cell_offset(k) < self.cell_offset(k + 1)
                        ==> #[trigger] self.cell_offset(k + 1) <= self.n,
            decreases self.n_cells - c,
        {
            let start: u32 = self.offset_of(c);
            let end: u32 = self.offset_of(c + 1);
            if start < end && end as usize > self.n {
                assert(self.cell_offset(c + 1) > self.n);
                return false;
            }
            c += 1;
        }
        true
    }

    /// Pads the components of a query to the width of a row.
    pub fn pad_query<T: Copy>(v: &[T; D], zero: T) -> (r: [T; VEC_STRIDE])
        ensures
            forall|k: int|
                0 <= k < VEC_STRIDE ==> #[trigger] r@[k] == (if k < D {
                    v@[k]
                } else {
                    zero
                }),
    {
        let mut out: [T; VEC_STRIDE] = [zero;VEC_STRIDE];
        let mut k: usize = 0;
        while k < D
            invariant
                k <= D,
                forall|i: int|
                    0 <= i < VEC_STRIDE ==> #[trigger] out@[i] == (if i < k {
                        v@[i]
                    } else {
                        zero
                    }),
            decreases D - k,
        {
            out[k] = v[k];
            k += 1;
        }
        out
    }

    /// How many cells a search looks at.
    pub open spec fn cells_in_search(&self) -> int {
        if self.n_cells < MAX_CELLS {
            self.n_cells as int
        } else {
            MAX_CELLS as int
        }
    }

    /// How many cells a search probes.
    pub open spec fn cells_to_probe(&self) -> int {
        if self.nprobe < self.cells_in_search() {
            self.nprobe as int
        } else {
            self.cells_in_search()
        }
    }

    /// How many cells a search looks at: the caller computes the distance to the centroid of
    /// each.
    pub fn cells_to_measure(&self) -> (r: usize)
        ensures
            r == self.cells_in_search(),
    {
        if self.n_cells < MAX_CELLS {
            self.n_cells
        } else {
            MAX_CELLS
        }
    }

    /// The cells to probe: those with the nearest centroids.
    pub fn probe(&self, centroid_dists: &[u32]) -> (r: Vec<u32>)
        requires
            centroid_dists@.len() == self.cells_in_search(),
            self.cells_to_probe() >= 1,
        ensures
            r@.len() == self.cells_to_probe(),
            are_nearest_cells(r@, centroid_dists@),
    {
        let n_cells: usize = centroid_dists.len();
        let np: usize = if self.nprobe < n_cells {
            self.nprobe
        } else {
            n_cells
        };
        let mut pairs = number(centroid_dists);
        select_nearest(&mut pairs, np - 1);
        proof {
            lemma_selection(pairs@, centroid_dists@, np as int);
        }
        first_numbers(&pairs, np)
    }

    /// The rows of a cell.
    pub open spec fn cell_rows(&self, c: int) -> Seq<usize> {
        let start = self.cell_offset(c) as int;
        let end = self.cell_offset(c + 1) as int;
        Seq::new(
            if start < end {
                (end - start) as nat
            } else {
                0
            },
            |k: int| (start + k) as usize,
        )
    }

    /// The rows of cells, one cell after the other.
    pub open spec fn rows_of_cells(&self, cells: Seq<u32>) -> Seq<usize>
        decreases cells.len(),
    {
        if cells.len() == 0 {
            Seq::empty()
        } else {
            self.rows_of_cells(cells.drop_last()) + self.cell_rows(cells.last() as int)
        }
    }

    /// The rows of cells, one cell after the other: the caller computes the distance to each.
    pub fn rows_of(&self, cells: &[u32]) -> (r: Vec<usize>)
        requires
            self.wf(),
            self.cells_hold_rows(),
            forall|k: int| 0 <= k < cells@.len() ==> #[trigger] cells@[k] < self.n_cells,
        ensures
            r@ == self.rows_of_cells(cells@),
            forall|k: int| 0 <= k < r@.len() ==> #[trigger] r@[k] < self.n,
    {
        let mut rows: Vec<usize> = Vec::new();
        let mut slot: usize = 0;
        assert(cells@.take(0) =~= Seq::empty());
        while slot < cells.len()
            invariant
                slot <= cells@.len(),
                self.wf(),
                self.cells_hold_rows(),
                forall|k: int| 0 <= k < cells@.len() ==> #[trigger] cells@[k] < self.n_cells,
                rows@ == self.rows_of_cells(cells@.take(slot as int)),
                forall|k: int| 0 <= k < rows@.len() ==> #[trigger] rows@[k] < self.n,
            decreases cells@.len() - slot,
        {
            let cell: usize = cells[slot] as usize;
            let start: usize = self.offset_of(cell) as usize;
            let end: usize = self.offset_of(cell + 1) as usize;
            let ghost before = rows@;
            let mut i: usize = start;
            while i < end
                invariant
                    start <= i,
                    i <= end || end < start,
                    start < end ==> end <= self.n,
                    i > start ==> i <= end,
                    rows@ == before + Seq::new((i - start) as nat, |k: int| (start + k) as usize),
                    forall|k: int| 0 <= k < rows@.len() ==> #[trigger] rows@[k] < self.n,
                decreases end - i,
            {
                rows.push(i);
                i += 1;
                assert(rows@ =~= before + Seq::new(
                    (i - start) as nat,
                    |k: int| (start + k) as usize,
                ));
            }
            assert(rows@ =~= before + self.cell_rows(cell as int));
            slot += 1;
            assert(cells@.take(slot as int).drop_last() =~= cells@.take(slot - 1));
        }
        assert(cells@.take(cells@.len() as int) =~= cells@);
        rows
    }

    /// The rows that a search scans are those of the cells to probe, one cell after the other.
    pub open spec fn are_rows_to_scan(&self, rows: Seq<usize>, centroid_dists: Seq<u32>) -> bool {
        exists|cells: Seq<u32>|
            cells.len() == self.cells_to_probe() && #[trigger] are_nearest_cells(
                cells,
                centroid_dists,
            ) && rows == self.rows_of_cells(cells)
    }

    /// The rows that a search scans, given the distance to each centroid it looks at.
    pub fn rows_to_scan(&self, centroid_dists: &[u32]) -> (r: Vec<usize>)
        requires
            self.wf(),
            self.cells_hold_rows(),
            centroid_dists@.len() == self.cells_in_search(),
            self.cells_to_probe() >= 1,
        ensures
            self.are_rows_to_scan(r@, centroid_dists@),
            forall|k: int| 0 <= k < r@.len() ==> #[trigger] r@[k] < self.n,
    {
        let cells = self.probe(centroid_dists);
        self.rows_of(&cells)
    }

    /// The distances to rows with the labels of the rows, in the order of the scan.
    pub open spec fn labelled(&self, rows: Seq<usize>, dists: Seq<u32>) -> Seq<(u32, u8)> {
        Seq::new(rows.len(), |k: int| (dists[k], self.label(rows[k] as int)))
    }

    /// The number of frauds among the five nearest of the rows scanned, where a label is 1 for a
    /// fraud and 0 otherwise.
    pub fn knn5_count_frauds(&self, rows: &[usize], dists: &[u32]) -> (r: u32)
        requires
            self.wf(),
            dists@.len() == rows@.len(),
            forall|k: int| 0 <= k < rows@.len() ==> #[trigger] rows@[k] < self.n,
        ensures
            r == top5::label_sum(top5::kept(self.labelled(rows@, dists@))),
    {
        let mut top = Top5::new();
        let ghost items = self.labelled(rows@, dists@);
        assert(items.take(0) =~= Seq::empty());
        let mut k: usize = 0;
        while k < rows.len()
            invariant
                k <= rows@.len(),
                self.wf(),
                dists@.len() == rows@.len(),
                items == self.labelled(rows@, dists@),
                forall|k: int| 0 <= k < rows@.len() ==> #[trigger] rows@[k] < self.n,
                top.wf(),
                top.slots() == top5::kept(items.take(k as int)),
            decreases rows@.len() - k,
        {
            top.offer(dists[k], self.label_of(rows[k]));
            k += 1;
            assert(items.take(k as int).drop_last() =~= items.take(k - 1));
        }
        assert(items.take(rows@.len() as int) =~= items);
        top.frauds()
    }
}

/// The cells are different ones of those measured, and no other one is nearer.
pub open spec fn are_nearest_cells(cells: Seq<u32>, dists: Seq<u32>) -> bool {
    &&& cells.no_duplicates()
    &&& forall|i: int| 0 <= i < cells.len() ==> #[trigger] cells[i] < dists.len()
    &&& forall|i: int, c: int|
        0 <= i < cells.len() && 0 <= c < dists.len() && !cells.contains(c as u32)
            ==> #[trigger] dists[cells[i] as int] <= #[trigger] dists[c]
}

/// The standard library's `select_nth_unstable_by_key` on pairs, with the first member as the
/// key. It reorders the pairs so that the one at `at` is the one that sorting by the key would
/// put there: none before it has a greater key, and none after it a smaller one. Which of several
/// pairs with the same key comes where is left open.
#[verifier::external_body]
fn select_nearest(pairs: &mut Vec<(u32, u32)>, at: usize)
    requires
        at < old(pairs)@.len(),
    ensures
        final(pairs)@.to_multiset() == old(pairs)@.to_multiset(),
        forall|i: int| 0 <= i < at ==> (#[trigger] final(pairs)@[i]).0 <= final(pairs)@[at as int].0,
        forall|i: int|
            at < i < final(pairs)@.len() ==> final(pairs)@[at as int].0 <= (
            #[trigger] final(pairs)@[i]).0,
{
    pairs.select_nth_unstable_by_key(at, |p| p.0);
}

/// What a selection among the pairs of distance and cell picks.
proof fn lemma_selection(after: Seq<(u32, u32)>, dists: Seq<u32>, np: int)
    requires
        dists.len() <= MAX_CELLS,
        after.to_multiset() == pairs::numbered(dists).to_multiset(),
        1 <= np <= dists.len(),
        forall|i: int| 0 <= i < np - 1 ==> (#[trigger] after[i]).0 <= after[np - 1].0,
        forall|i: int| np - 1 < i < after.len() ==> after[np - 1].0 <= (#[trigger] after[i]).0,
    ensures
        after.len() == dists.len(),
        are_nearest_cells(pairs::numbers(after).take(np), dists),
{
    pairs::lemma_reordered(after, dists);
    let cells = pairs::numbers(after).take(np);
    assert forall|i: int, j: int| 0 <= i < np && 0 <= j < np && i != j implies cells[i]
        != cells[j] by {
        assert(pairs::numbers(after)[i] != pairs::numbers(after)[j]);
    }
    assert forall|i: int, c: int|
        0 <= i < cells.len() && 0 <= c < dists.len() && !cells.contains(
            c as u32,
        ) implies #[trigger] dists[cells[i] as int] <= #[trigger] dists[c] by {
        let j = pairs::lemma_place(after, dists, c);
        if j < np {
            assert(cells[j] == c as u32);
        }
        assert(after[i].0 <= after[np - 1].0);
        assert(after[np - 1].0 <= after[j].0);
    }
}

/// The cells divide the rows: each cell ends where the next begins.
pub open spec fn cells_divide_rows(index: &Index) -> bool {
    &&& index.cell_offset(0) == 0
    &&& index.cell_offset(index.n_cells as int) == index.n
    &&& forall|b: int, c: int|
        0 <= b <= c <= index.n_cells ==> #[trigger] index.cell_offset(b)
            <= #[trigger] index.cell_offset(c)
}

/// Cell `c` holds row `i`.
pub open spec fn cell_holds(index: &Index, c: int, i: int) -> bool {
    index.cell_offset(c) <= i < index.cell_offset(c + 1)
}

/// Some of `cells` holds row `i`.
pub open spec fn some_cell_holds(index: &Index, cells: Seq<u32>, i: int) -> bool {
    exists|k: int| 0 <= k < cells.len() && #[trigger] cell_holds(index, cells[k] as int, i)
}

/// The rows of a cell are those that it holds, each once.
proof fn lemma_cell_rows(index: &Index, c: int)
    requires
        index.wf(),
    ensures
        index.cell_rows(c).no_duplicates(),
        forall|i: usize|
            #[trigger] index.cell_rows(c).contains(i) <==> cell_holds(index, c, i as int),
{
    let own = index.cell_rows(c);
    assert forall|i: usize| #[trigger] own.contains(i) <==> cell_holds(index, c, i as int) by {
        if cell_holds(index, c, i as int) {
            assert(own[i - index.cell_offset(c)] == i);
        }
    }
}

/// No two cells hold the same row.
proof fn lemma_cells_are_disjoint(index: &Index, b: int, c: int, i: int)
    requires
        cells_divide_rows(index),
        0 <= b < index.n_cells,
        0 <= c < index.n_cells,
        cell_holds(index, b, i),
        cell_holds(index, c, i),
    ensures
        b == c,
{
    if b < c {
        assert(index.cell_offset(b + 1) <= index.cell_offset(c));
    }
    if c < b {
        assert(index.cell_offset(c + 1) <= index.cell_offset(b));
    }
}

/// The rows of different cells are the rows that some of the cells holds, each once.
proof fn lemma_rows_of_cells(index: &Index, cells: Seq<u32>)
    requires
        index.wf(),
        cells_divide_rows(index),
        cells.no_duplicates(),
        forall|k: int| 0 <= k < cells.len() ==> #[trigger] cells[k] < index.n_cells,
    ensures
        index.rows_of_cells(cells).no_duplicates(),
        forall|i: usize|
            #[trigger] index.rows_of_cells(cells).contains(i) <==> some_cell_holds(
                index,
                cells,
                i as int,
            ),
    decreases cells.len(),
{
    let rows = index.rows_of_cells(cells);
    if cells.len() == 0 {
        assert(rows =~= Seq::empty());
    } else {
        let front = cells.drop_last();
        let c = cells.last() as int;
        let before = index.rows_of_cells(front);
        let own = index.cell_rows(c);
        lemma_rows_of_cells(index, front);
        lemma_cell_rows(index, c);
        assert(rows =~= before + own);
        assert forall|i: usize| before.contains(i) implies !own.contains(i) by {
            let k = choose|k: int|
                0 <= k < front.len() && #[trigger] cell_holds(index, front[k] as int, i as int);
            assert(front[k] == cells[k]);
            assert(cells[k] != cells[cells.len() - 1]);
            if own.contains(i) {
                lemma_cells_are_disjoint(index, front[k] as int, c, i as int);
            }
        }
        assert forall|p: int, q: int| 0 <= p < q < rows.len() implies rows[p] != rows[q] by {
            if p < before.len() && q >= before.len() {
                assert(before.contains(before[p]));
                assert(own.contains(own[q - before.len()]));
            }
        }
        assert forall|i: usize| #[trigger] rows.contains(i) <==> some_cell_holds(
            index,
            cells,
            i as int,
        ) by {
            if before.contains(i) {
                let k = choose|k: int|
                    0 <= k < front.len() && #[trigger] cell_holds(index, front[k] as int, i as int);
                assert(cell_holds(index, cells[k] as int, i as int));
                let p = choose|p: int| 0 <= p < before.len() && before[p] == i;
                assert(rows[p] == i);
            }
            if own.contains(i) {
                assert(cell_holds(index, cells[cells.len() - 1] as int, i as int));
                let p = choose|p: int| 0 <= p < own.len() && own[p] == i;
                assert(rows[before.len() + p] == i);
            }
            if rows.contains(i) {
                let p = choose|p: int| 0 <= p < rows.len() && rows[p] == i;
                if p < before.len() {
                    assert(before[p] == i);
                } else {
                    assert(own[p - before.len()] == i);
                }
            }
            if some_cell_holds(index, cells, i as int) {
                let k = choose|k: int|
                    0 <= k < cells.len() && #[trigger] cell_holds(index, cells[k] as int, i as int);
                if k < front.len() {
                    assert(cell_holds(index, front[k] as int, i as int));
                }
            }
        }
    }
}

/// As many different numbers below `m` as there are include each of them.
pub proof fn lemma_all_present(s: Seq<u32>, m: int, x: u32)
    requires
        s.len() == m,
        s.no_duplicates(),
        forall|k: int| 0 <= k < s.len() ==> #[trigger] s[k] < m,
        x < m,
    ensures
        s.contains(x),
    decreases m,
{
    let top = (m - 1) as u32;
    if s.contains(top) {
        let p = choose|p: int| 0 <= p < s.len() && s[p] == top;
        if x != top {
            let rest = s.remove(p);
            assert forall|k: int| 0 <= k < rest.len() implies #[trigger] rest[k] < m - 1 by {
                if k < p {
                    assert(rest[k] == s[k]);
                } else {
                    assert(rest[k] == s[k + 1]);
                }
            }
            lemma_all_present(rest, m - 1, x);
            let k = choose|k: int| 0 <= k < rest.len() && rest[k] == x;
            if k < p {
                assert(s[k] == x);
            } else {
                assert(s[k + 1] == x);
            }
        }
    } else {
        let front = s.drop_last();
        assert forall|k: int| 0 <= k < front.len() implies #[trigger] front[k] < m - 1 by {
            assert(front[k] == s[k]);
            assert(s.contains(s[k]));
        }
        assert(s[m - 1] < m);
        assert(s.contains(s[m - 1]));
        lemma_all_present(front, m - 1, s[m - 1]);
        let k = choose|k: int| 0 <= k < front.len() && front[k] == s[m - 1];
        assert(s[k] == s[m - 1]);
    }
}

/// Some cell holds each row.
proof fn lemma_cell_of_row(index: &Index, i: int, c: int) -> (r: int)
    requires
        cells_divide_rows(index),
        0 <= c < index.n_cells,
        0 <= i < index.cell_offset(c + 1),
    ensures
        0 <= r <= c,
        index.cell_offset(r) <= i < index.cell_offset(r + 1),
    decreases c,
{
    if index.cell_offset(c) <= i {
        c
    } else {
        assert(index.cell_offset(0) == 0);
        lemma_cell_of_row(index, i, c - 1)
    }
}

/// A search that probes every cell is exhaustive: it scans every row once.
pub proof fn law_full_probe_scans_every_row(index: &Index, cells: Seq<u32>, dists: Seq<u32>)
    requires
        index.wf(),
        cells_divide_rows(index),
        index.n_cells <= MAX_CELLS,
        dists.len() == index.n_cells,
        cells.len() == index.n_cells,
        are_nearest_cells(cells, dists),
    ensures
        index.rows_of_cells(cells).no_duplicates(),
        forall|i: usize| i < index.n <==> #[trigger] index.rows_of_cells(cells).contains(i),
{
    lemma_rows_of_cells(index, cells);
    assert forall|i: usize| i < index.n <==> #[trigger] index.rows_of_cells(cells).contains(i) by {
        if i < index.n {
            assert(index.n_cells > 0);
            let c = lemma_cell_of_row(index, i as int, index.n_cells - 1);
            lemma_all_present(cells, index.n_cells as int, c as u32);
            let k = choose|k: int| 0 <= k < cells.len() && cells[k] == c as u32;
            assert(cell_holds(index, cells[k] as int, i as int));
        }
        if some_cell_holds(index, cells, i as int) {
            let k = choose|k: int|
                0 <= k < cells.len() && #[trigger] cell_holds(index, cells[k] as int, i as int);
            assert(index.cell_offset(cells[k] + 1) <= index.cell_offset(index.n_cells as int));
        }
    }
}

/// Sequences with the same items keep them in common under a function.
proof fn lemma_same_items_mapped<A, B>(a: Seq<A>, b: Seq<A>, f: spec_fn(A) -> B)
    requires
        a.to_multiset() == b.to_multiset(),
    ensures
        a.map_values(f).to_multiset() == b.map_values(f).to_multiset(),
    decreases a.len(),
{
    broadcast use vstd::seq_lib::group_to_multiset_ensures;

    assert(a.len() == a.to_multiset().len());
    assert(b.len() == b.to_multiset().len());
    if a.len() == 0 {
        assert(a.map_values(f) =~= b.map_values(f));
    } else {
        let x = a.last();
        let front = a.drop_last();
        assert(a.contains(x));
        assert(b.to_multiset().count(x) > 0);
        assert(b.contains(x));
        let p = choose|p: int| 0 <= p < b.len() && b[p] == x;
        let rest = b.remove(p);
        assert(a =~= front.push(x));
        assert(front.to_multiset() =~= a.to_multiset().remove(x));
        vstd::seq_lib::to_multiset_remove(b, p);
        lemma_same_items_mapped(front, rest, f);
        assert(a.map_values(f) =~= front.map_values(f).push(f(x)));
        assert(rest.map_values(f) =~= b.map_values(f).remove(p));
        assert(b.map_values(f) =~= rest.map_values(f).insert(p, f(x)));
        vstd::seq_lib::to_multiset_insert(rest.map_values(f), p, f(x));
    }
}

/// The rows of an index, in order.
pub open spec fn every_row(index: &Index) -> Seq<usize> {
    Seq::new(index.n as nat, |i: int| i as usize)
}

/// Rows with the codes of their distances, which `dist` gives, and their labels.
pub open spec fn measured(index: &Index, rows: Seq<usize>, dist: spec_fn(usize) -> u32) -> Seq<
    (u32, u8),
> {
    index.labelled(rows, rows.map_values(dist))
}

/// A search that probes every cell offers what a scan of all rows in order would offer.
proof fn lemma_full_probe_items(
    index: &Index,
    cells: Seq<u32>,
    centroid_dists: Seq<u32>,
    dist: spec_fn(usize) -> u32,
)
    requires
        index.wf(),
        cells_divide_rows(index),
        index.n_cells <= MAX_CELLS,
        centroid_dists.len() == index.n_cells,
        cells.len() == index.n_cells,
        are_nearest_cells(cells, centroid_dists),
    ensures
        measured(index, index.rows_of_cells(cells), dist).to_multiset() == measured(
            index,
            every_row(index),
            dist,
        ).to_multiset(),
{
    broadcast use vstd::seq_lib::group_to_multiset_ensures;

    let rows = index.rows_of_cells(cells);
    let every = every_row(index);
    let item = |i: usize| (dist(i), index.label(i as int));
    law_full_probe_scans_every_row(index, cells, centroid_dists);
    assert forall|i: usize| #[trigger] every.contains(i) <==> i < index.n by {
        if i < index.n {
            assert(every[i as int] == i);
        }
    }
    rows.lemma_multiset_has_no_duplicates();
    every.lemma_multiset_has_no_duplicates();
    assert(rows.to_multiset() =~= every.to_multiset()) by {
        assert forall|i: usize| #[trigger] rows.to_multiset().count(i) == every.to_multiset().count(
            i,
        ) by {
            assert(rows.contains(i) == every.contains(i));
        }
    }
    lemma_same_items_mapped(rows, every, item);
    assert(measured(index, rows, dist) =~= rows.map_values(item));
    assert(measured(index, every, dist) =~= every.map_values(item));
}

/// A search that probes every cell is exact: of all rows of the index, it keeps the nearest.
pub proof fn law_full_probe_keeps_the_nearest_of_all_rows(
    index: &Index,
    cells: Seq<u32>,
    centroid_dists: Seq<u32>,
    dist: spec_fn(usize) -> u32,
)
    requires
        index.wf(),
        cells_divide_rows(index),
        index.n_cells <= MAX_CELLS,
        centroid_dists.len() == index.n_cells,
        cells.len() == index.n_cells,
        are_nearest_cells(cells, centroid_dists),
    ensures
        top5::are_nearest(
            top5::kept(measured(index, index.rows_of_cells(cells), dist)).to_multiset(),
            top5::candidates(measured(index, every_row(index), dist)),
        ),
{
    lemma_full_probe_items(index, cells, centroid_dists, dist);
    top5::law_the_nearest_are_kept(measured(index, index.rows_of_cells(cells), dist));
}

/// Where rows at equal distances carry equal labels, a search that probes every cell counts as
/// many frauds as a scan of all rows in order.
pub proof fn law_full_probe_counts_like_a_linear_scan(
    index: &Index,
    cells: Seq<u32>,
    centroid_dists: Seq<u32>,
    dist: spec_fn(usize) -> u32,
)
    requires
        index.wf(),
        cells_divide_rows(index),
        index.n_cells <= MAX_CELLS,
        centroid_dists.len() == index.n_cells,
        cells.len() == index.n_cells,
        are_nearest_cells(cells, centroid_dists),
        forall|i: usize, j: usize|
            i < index.n && j < index.n && #[trigger] dist(i) == #[trigger] dist(j) ==> index.label(
                i as int,
            ) == index.label(j as int),
    ensures
        top5::label_sum(top5::kept(measured(index, index.rows_of_cells(cells), dist)))
            == top5::label_sum(top5::kept(measured(index, every_row(index), dist))),
{
    let every = measured(index, every_row(index), dist);
    lemma_full_probe_items(index, cells, centroid_dists, dist);
    assert forall|i: int, j: int|
        0 <= i < every.len() && 0 <= j < every.len() && (#[trigger] every[i]).0 == (
        #[trigger] every[j]).0 implies every[i].1 == every[j].1 by {
        assert(dist(i as usize) == dist(j as usize));
    }
    top5::law_order_does_not_matter(
        every,
        measured(index, index.rows_of_cells(cells), dist),
    );
}

/// A search counts the label bytes of the nearest rows: of five different scanned rows, or of as
/// many as there are at a distance, such that no other scanned row is nearer. The label of a row is
/// its own byte in the file, whatever the distance.
pub proof fn law_the_labels_of_the_nearest_rows_are_counted(
    index: &Index,
    rows: Seq<usize>,
    dists: Seq<u32>,
)
    requires
        dists.len() == rows.len(),
    ensures
        exists|chosen: Seq<int>|
            #[trigger] top5::is_choice_of_nearest(dists, chosen) && top5::label_sum(
                top5::kept(index.labelled(rows, dists)),
            ) == top5::total(
                chosen.map_values(
                    |k: int|
                        index.data@[40 + 56 * index.n_cells + 4 * (index.n_cells + 1) + 64 * index.n
                            + rows[k]] as int,
                ),
            ),
{
    let items = index.labelled(rows, dists);
    top5::law_the_labels_of_the_nearest_add_up(items, dists);
    let f = |k: int| items[k].1 as int;
    let g = |k: int|
        index.data@[40 + 56 * index.n_cells + 4 * (index.n_cells + 1) + 64 * index.n
            + rows[k]] as int;
    let chosen = choose|chosen: Seq<int>|
        #[trigger] top5::is_choice_of_nearest(dists, chosen) && top5::label_sum(top5::kept(items))
            == top5::total(chosen.map_values(|k: int| items[k].1 as int));
    assert(chosen.map_values(f) =~= chosen.map_values(g)) by {
        assert forall|c: int| 0 <= c < chosen.len() implies f(chosen[c]) == #[trigger] g(
            chosen[c],
        ) by {
            assert(0 <= chosen[c] < dists.len());
            assert(items[chosen[c]].1 == index.label(rows[chosen[c]] as int));
        }
    }
    assert(top5::is_choice_of_nearest(dists, chosen));
}


/// The places of an index file: the header of 40 bytes, 56 for each centroid, 4 for each cell
/// offset and one more of them, 64 for each row, and a label for each row.
pub proof fn law_every_section_has_its_place(data: Seq<u8>, n: int, n_cells: int, i: int)
    ensures
        centroid_in(data, i) == data.subrange(40 + 56 * i, 96 + 56 * i),
        offset_in(data, n_cells, i) == vstd::bytes::spec_u32_from_le_bytes(
            data.subrange(40 + 56 * n_cells + 4 * i, 44 + 56 * n_cells + 4 * i),
        ),
        row_in(data, n_cells, i) == data.subrange(
            44 + 60 * n_cells + 64 * i,
            108 + 60 * n_cells + 64 * i,
        ),
        label_in(data, n, n_cells, i) == data[44 + 60 * n_cells + 64 * n + i],
{
}

/// The header of an index file: the magic, and the numbers of rows, of components, of cells and of
/// cells to probe.
pub proof fn law_the_header_has_four_numbers(data: Seq<u8>)
    ensures
        has_header(data) <==> data.len() >= 40 && data.subrange(0, 8) == seq![
            0x52u8,
            0x49,
            0x4e,
            0x48,
            0x41,
            0x56,
            0x30,
            0x33,
        ],
        header_n(data) == vstd::bytes::spec_u64_from_le_bytes(data.subrange(8, 16)) as usize,
        header_d(data) == vstd::bytes::spec_u64_from_le_bytes(data.subrange(16, 24)) as usize,
        header_cells(data) == vstd::bytes::spec_u64_from_le_bytes(data.subrange(24, 32)) as usize,
        header_nprobe(data) == vstd::bytes::spec_u64_from_le_bytes(data.subrange(32, 40)) as usize,
        sections_begin_inside(data) <==> (has_header(data) && header_d(data) == 14 ==> 44 + 60
            * header_cells(data) + 64 * header_n(data) <= data.len()),
{
    reveal_strlit("RINHAV03");
    assert(bytes::text("RINHAV03"@) =~= seq![0x52u8, 0x49, 0x4e, 0x48, 0x41, 0x56, 0x30, 0x33]);
}

/// A search looks at all cells, but at no more than 4096, and probes as many as it was told to, or
/// all that it looks at.
pub proof fn law_cells_are_looked_at_and_probed(index: &Index)
    ensures
        index.cells_in_search() <= index.n_cells,
        index.cells_in_search() <= 4096,
        index.cells_in_search() == index.n_cells || index.cells_in_search() == 4096,
        index.cells_to_probe() <= index.nprobe,
        index.cells_to_probe() <= index.cells_in_search(),
        index.cells_to_probe() == index.nprobe || index.cells_to_probe() == index.cells_in_search(),
{
}

/// The cells that are probed are different cells of those measured, and none that is not probed is
/// nearer than one that is.
pub proof fn law_no_cell_left_out_is_nearer(
    cells: Seq<u32>,
    dists: Seq<u32>,
    i: int,
    j: int,
    c: int,
)
    requires
        are_nearest_cells(cells, dists),
        0 <= i < cells.len(),
        0 <= j < cells.len(),
        0 <= c < dists.len(),
        dists.len() <= u32::MAX,
        forall|k: int| 0 <= k < cells.len() ==> #[trigger] cells[k] != c,
    ensures
        cells[i] < dists.len(),
        dists[cells[i] as int] <= dists[c],
        i != j ==> cells[i] != cells[j],
{
    assert(!cells.contains(c as u32));
}

/// The rows from one on to another.
pub open spec fn row_range(start: int, end: int) -> Seq<usize> {
    Seq::new(
        if start < end {
            (end - start) as nat
        } else {
            0
        },
        |k: int| (start + k) as usize,
    )
}

/// The rows of cells are, cell by cell, those from the cell's offset to the next one.
pub proof fn law_rows_of_cells_lie_between_their_offsets(index: &Index, cells: Seq<u32>)
    ensures
        index.rows_of_cells(cells) == cells.map_values(
            |c: u32|
                row_range(
                    offset_in(index.data@, index.n_cells as int, c as int) as int,
                    offset_in(index.data@, index.n_cells as int, c + 1) as int,
                ),
        ).flatten(),
    decreases cells.len(),
{
    let f = |c: u32|
        row_range(
            offset_in(index.data@, index.n_cells as int, c as int) as int,
            offset_in(index.data@, index.n_cells as int, c + 1) as int,
        );
    let all = cells.map_values(f);
    if cells.len() == 0 {
        assert(all =~= Seq::<Seq<usize>>::empty());
        assert(all.flatten() =~= Seq::<usize>::empty());
    } else {
        let front = cells.drop_last();
        law_rows_of_cells_lie_between_their_offsets(index, front);
        assert(all =~= front.map_values(f).push(f(cells.last())));
        front.map_values(f).lemma_flatten_push(f(cells.last()));
        assert(index.cell_rows(cells.last() as int) =~= f(cells.last()));
    }
}

/// The cells of an index hold rows that exist exactly when no cell with a row ends past the last
/// row.
pub proof fn law_cells_end_with_the_rows(index: &Index)
    ensures
        index.cells_hold_rows() <==> forall|c: int|
            0 <= c < index.n_cells && offset_in(index.data@, index.n_cells as int, c) < offset_in(
                index.data@,
                index.n_cells as int,
                c + 1,
            ) ==> #[trigger] offset_in(index.data@, index.n_cells as int, c + 1) <= index.n,
{
    if index.cells_hold_rows() {
        assert forall|c: int|
            0 <= c < index.n_cells && offset_in(index.data@, index.n_cells as int, c) < offset_in(
                index.data@,
                index.n_cells as int,
                c + 1,
            ) implies #[trigger] offset_in(index.data@, index.n_cells as int, c + 1) <= index.n by {
            assert(index.cell_offset(c + 1) <= index.n);
        }
    }
    if forall|c: int|
        0 <= c < index.n_cells && offset_in(index.data@, index.n_cells as int, c) < offset_in(
            index.data@,
            index.n_cells as int,
            c + 1,
        ) ==> #[trigger] offset_in(index.data@, index.n_cells as int, c + 1) <= index.n {
        assert forall|c: int|
            0 <= c < index.n_cells && index.cell_offset(c) < index.cell_offset(
                c + 1,
            ) implies #[trigger] index.cell_offset(c + 1) <= index.n by {
            assert(offset_in(index.data@, index.n_cells as int, c + 1) <= index.n);
        }
    }
}

/// An index is whole exactly when its vectors have 14 components and its file holds all that it
/// announces.
pub proof fn law_a_whole_index_holds_what_it_announces(index: &Index)
    requires
        index.data@.len() <= usize::MAX,
    ensures
        index.wf() <==> index.d == 14 && 44 + 60 * index.n_cells + 65 * index.n
            <= index.data@.len(),
{
}


/// The rows that are scanned are those of as many of the nearest cells as are to be probed, cell by
/// cell.
pub proof fn law_the_rows_of_the_nearest_cells_are_scanned(
    index: &Index,
    rows: Seq<usize>,
    dists: Seq<u32>,
)
    requires
        index.are_rows_to_scan(rows, dists),
    ensures
        exists|cells: Seq<u32>|
            {
                &&& cells.len() == index.cells_to_probe()
                &&& #[trigger] are_nearest_cells(cells, dists)
                &&& rows == index.rows_of_cells(cells)
            },
{
}

} // verus!
