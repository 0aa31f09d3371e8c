//! Building an index: the choices of the clustering, the order of the rows, and the file.
//!
//! The arithmetic of the clustering is the caller's. Components are copied, never computed with,
//! so they can be of any type; a file holds them as 32-bit words.

use crate::bytes;
use crate::bytes::{append, ascii};
use crate::index;
use crate::index::{INFINITE, VEC_STRIDE};
use crate::pairs;
use crate::pairs::{first_numbers, number};
use crate::vector::D;
use vstd::bytes::{u32_to_le_bytes, u64_to_le_bytes};
use vstd::prelude::*;

verus! {

pub const N_CELLS: usize = 1024;

pub const KMEANS_ITERS: usize = 12;

pub const KMEANS_SAMPLE: usize = 200_000;

pub const DEFAULT_NPROBE: u64 = 24;

/// How far apart `k` rows out of `n` are chosen.
pub open spec fn stride(n: int, k: int) -> int {
    if n / k > 1 {
        n / k
    } else {
        1
    }
}

/// Picks `k` rows at even distances as the first centroids.
pub fn init_centroids<T: Copy>(vectors: &[T], n: usize, k: usize) -> (r: Vec<T>)
    requires
        n > 0,
        k > 0,
        n * D <= vectors@.len(),
        k * D <= usize::MAX,
    ensures
        r@.len() == k * D,
        forall|c: int, j: int|
            0 <= c < k && 0 <= j < D ==> #[trigger] r@[c * D + j] == vectors@[((c * stride(
                n as int,
                k as int,
            )) % (n as int)) * D + j],
{
    let step: usize = if n / k > 1 {
        n / k
    } else {
        1
    };
    assert((n as int / k as int) * k <= n) by (nonlinear_arith)
        requires
            k > 0,
    ;
    assert(step == n as int / k as int ==> k * step <= n) by (nonlinear_arith)
        requires
            (n as int / k as int) * k <= n,
    ;
    let mut out: Vec<T> = Vec::new();
    let mut c: usize = 0;
    while c < k
        invariant
            c <= k,
            n > 0,
            n * D <= vectors@.len(),
            vectors@.len() == vectors.len(),
            step == stride(n as int, k as int),
            step == 1 || k * step <= n,
            out@.len() == c * D,
            forall|b: int, j: int|
                0 <= b < c && 0 <= j < D ==> #[trigger] out@[b * D + j] == vectors@[((b * step) % (
                n as int)) * D + j],
        decreases k - c,
    {
        assert(0 <= c * step <= k * step) by (nonlinear_arith)
            requires
                0 <= c < k,
                0 <= step,
        ;
        assert(step == 1 ==> k * step == k) by (nonlinear_arith);
        let idx: usize = (c * step) % n;
        let mut j: usize = 0;
        while j < D
            invariant
                j <= D,
                idx < n,
                c < k,
                n * D <= vectors@.len(),
                vectors@.len() == vectors.len(),
                idx == (c * step) % (n as int),
                out@.len() == c * D + j,
                forall|b: int, i: int|
                    0 <= b < c && 0 <= i < D ==> #[trigger] out@[b * D + i] == vectors@[((b * step)
                        % (n as int)) * D + i],
                forall|i: int| 0 <= i < j ==> #[trigger] out@[c * D + i] == vectors@[idx * D + i],
            decreases D - j,
        {
            out.push(vectors[idx * D + j]);
            j += 1;
        }
        c += 1;
    }
    out
}

/// `i` is the first of the smallest codes, and it is a distance.
pub open spec fn is_nearest(dists: Seq<u32>, i: int) -> bool {
    &&& 0 <= i < dists.len()
    &&& dists[i] < INFINITE
    &&& forall|j: int| 0 <= j < dists.len() ==> dists[i] <= #[trigger] dists[j]
    &&& forall|j: int| 0 <= j < i ==> dists[i] < #[trigger] dists[j]
}

/// The nearest of the centroids, given the code of the distance to each: the first of the
/// nearest, or 0 when none is at a distance.
pub fn nearest_centroid(dists: &[u32]) -> (r: usize)
    ensures
        is_nearest(dists@, r as int) || (r == 0 && forall|j: int|
            0 <= j < dists@.len() ==> INFINITE <= #[trigger] dists@[j]),
{
    let mut best: usize = 0;
    let mut best_d: u32 = INFINITE;
    let mut c: usize = 0;
    while c < dists.len()
        invariant
            c <= dists@.len(),
            best_d < INFINITE ==> best < c && best_d == dists@[best as int],
            best_d >= INFINITE ==> best == 0 && best_d == INFINITE,
            forall|j: int| 0 <= j < c ==> best_d <= #[trigger] dists@[j],
            forall|j: int| 0 <= j < best ==> best_d < #[trigger] dists@[j],
        decreases dists@.len() - c,
    {
        if dists[c] < best_d {
            best_d = dists[c];
            best = c;
        }
        c += 1;
    }
    best
}

/// The rows on which one round of the clustering is computed: at most `sample` of `n`, at even
/// distances from the first on.
pub fn sample_rows(n: usize, sample: usize) -> (r: Vec<usize>)
    requires
        sample > 0,
    ensures
        forall|j: int|
            0 <= j < r@.len() ==> #[trigger] r@[j] == j * stride(n as int, sample as int) && r@[j]
                < n,
        r@.len() <= sample,
        r@.len() < sample ==> r@.len() * stride(n as int, sample as int) >= n,
{
    let step: usize = if n / sample > 1 {
        n / sample
    } else {
        1
    };
    let mut rows: Vec<usize> = Vec::new();
    let mut idx: usize = 0;
    while idx < n && rows.len() < sample
        invariant
            step == stride(n as int, sample as int),
            1 <= step,
            rows@.len() <= sample,
            idx == rows@.len() * step || (rows@.len() * step >= n && idx == n),
            forall|j: int|
                0 <= j < rows@.len() ==> #[trigger] rows@[j] == j * step && rows@[j] < n,
        decreases n - idx,
    {
        rows.push(idx);
        assert((rows@.len() - 1) * step + step == rows@.len() * step) by (nonlinear_arith);
        if step >= n - idx {
            idx = n;
        } else {
            idx += step;
        }
    }
    rows
}

/// How many entries of `cells` are `c`.
pub open spec fn occurrences(cells: Seq<usize>, c: int) -> int
    decreases cells.len(),
{
    if cells.len() == 0 {
        0
    } else if cells.last() == c {
        occurrences(cells.drop_last(), c) + 1
    } else {
        occurrences(cells.drop_last(), c)
    }
}

/// Counts the sampled rows that fall to each of `k` cells, given the cell of each.
pub fn count_cells(cells: &[usize], k: usize) -> (r: Vec<u32>)
    requires
        cells@.len() <= u32::MAX,
        forall|i: int| 0 <= i < cells@.len() ==> #[trigger] cells@[i] < k,
    ensures
        r@.len() == k,
        forall|c: int| 0 <= c < k ==> #[trigger] r@[c] == occurrences(cells@, c),
{
    let mut counts: Vec<u32> = Vec::new();
    let mut c: usize = 0;
    while c < k
        invariant
            c <= k,
            counts@.len() == c,
            forall|b: int| 0 <= b < c ==> #[trigger] counts@[b] == 0,
        decreases k - c,
    {
        counts.push(0);
        c += 1;
    }
    let mut i: usize = 0;
    while i < cells.len()
        invariant
            i <= cells@.len() <= u32::MAX,
            counts@.len() == k,
            forall|j: int| 0 <= j < cells@.len() ==> #[trigger] cells@[j] < k,
            forall|b: int|
                0 <= b < k ==> #[trigger] counts@[b] == occurrences(cells@.take(i as int), b)
                    && counts@[b] <= i,
        decreases cells@.len() - i,
    {
        let cell: usize = cells[i];
        assert(counts@[cell as int] <= i);
        assert(cells@.take(i + 1).drop_last() =~= cells@.take(i as int));
        counts[cell] = counts[cell] + 1;
        i += 1;
    }
    assert(cells@.take(cells@.len() as int) =~= cells@);
    counts
}

/// The standard library's `sort_unstable_by_key` on pairs, with the first member as the key. It
/// reorders the pairs so that the keys ascend. Which of several pairs with the same key comes
/// first is left open.
#[verifier::external_body]
fn sort_by_cell(pairs: &mut Vec<(u32, u32)>)
    ensures
        final(pairs)@.to_multiset() == old(pairs)@.to_multiset(),
        forall|i: int, j: int|
            0 <= i <= j < final(pairs)@.len() ==> (#[trigger] final(pairs)@[i]).0 <= (
            #[trigger] final(pairs)@[j]).0,
{
    pairs.sort_unstable_by_key(|p| p.0);
}

/// `order` names each of the first `n` rows once.
pub open spec fn is_order(order: Seq<u32>, n: int) -> bool {
    &&& order.len() == n
    &&& order.no_duplicates()
    &&& forall|p: int| 0 <= p < n ==> #[trigger] order[p] < n
}

/// `order` goes through the cells in ascending order.
pub open spec fn is_by_cell(order: Seq<u32>, assign: Seq<u32>) -> bool {
    forall|p: int, q: int|
        0 <= p <= q < order.len() ==> assign[(#[trigger] order[p]) as int] <= assign[(
        #[trigger] order[q]) as int]
}

/// Orders the rows by the cells to which they are assigned.
pub fn cell_order(assign: &[u32]) -> (r: Vec<u32>)
    requires
        assign@.len() <= u32::MAX,
    ensures
        is_order(r@, assign@.len() as int),
        is_by_cell(r@, assign@),
{
    let mut pairs = number(assign);
    sort_by_cell(&mut pairs);
    proof {
        lemma_order(pairs@, assign@);
    }
    first_numbers(&pairs, assign.len())
}

/// What sorting the pairs of cell and row gives.
proof fn lemma_order(after: Seq<(u32, u32)>, assign: Seq<u32>)
    requires
        assign.len() <= u32::MAX,
        after.to_multiset() == pairs::numbered(assign).to_multiset(),
        forall|i: int, j: int|
            0 <= i <= j < after.len() ==> (#[trigger] after[i]).0 <= (#[trigger] after[j]).0,
    ensures
        after.len() == assign.len(),
        is_order(pairs::numbers(after), assign.len() as int),
        is_by_cell(pairs::numbers(after), assign),
{
    pairs::lemma_reordered(after, assign);
    let order = pairs::numbers(after);
    assert forall|p: int| 0 <= p < order.len() implies #[trigger] order[p] < assign.len() by {
        assert(after[p].1 < assign.len());
    }
    assert forall|p: int, q: int| 0 <= p <= q < order.len() implies assign[(
    #[trigger] order[p]) as int] <= assign[(#[trigger] order[q]) as int] by {
        assert(after[p].0 <= after[q].0);
    }
}

/// The rows before position `off` belong to cells before `c`, and those from there on do not.
pub open spec fn divides(order: Seq<u32>, assign: Seq<u32>, c: int, off: int) -> bool {
    &&& 0 <= off <= order.len()
    &&& forall|p: int| 0 <= p < off ==> assign[(#[trigger] order[p]) as int] < c
    &&& forall|p: int| off <= p < order.len() ==> c <= assign[(#[trigger] order[p]) as int]
}

/// Finds where the rows of each cell begin in the order, and puts the number of rows last.
pub fn cell_offsets(assign: &[u32], order: &[u32], n_cells: usize) -> (r: Vec<u32>)
    requires
        assign@.len() <= u32::MAX,
        n_cells < u32::MAX,
        is_order(order@, assign@.len() as int),
        is_by_cell(order@, assign@),
        forall|i: int| 0 <= i < assign@.len() ==> #[trigger] assign@[i] < n_cells,
    ensures
        r@.len() == n_cells + 1,
        forall|c: int|
            0 <= c <= n_cells ==> divides(order@, assign@, c, #[trigger] r@[c] as int),
{
    let n: usize = order.len();
    let mut offsets: Vec<u32> = Vec::new();
    offsets.push(0);
    let mut pos: usize = 0;
    while pos < n
        invariant
            pos <= n == order@.len(),
            n == assign@.len() <= u32::MAX,
            n_cells < u32::MAX,
            is_order(order@, n as int),
            is_by_cell(order@, assign@),
            forall|i: int| 0 <= i < n ==> #[trigger] assign@[i] < n_cells,
            1 <= offsets@.len() <= n_cells + 1,
            pos == 0 ==> offsets@.len() == 1,
            pos > 0 ==> assign@[order@[pos - 1] as int] == offsets@.len() - 1,
            forall|c: int|
                0 <= c < offsets@.len() ==> divides(order@, assign@, c, #[trigger] offsets@[c] as int),
        decreases n - pos,
    {
        let row: usize = order[pos] as usize;
        let cell: usize = assign[row] as usize;
        assert(pos > 0 ==> assign@[order@[pos - 1] as int] <= assign@[order@[pos as int] as int]);
        while offsets.len() <= cell
            invariant
                pos < n == order@.len(),
                n == assign@.len() <= u32::MAX,
                n_cells < u32::MAX,
                is_order(order@, n as int),
                is_by_cell(order@, assign@),
                cell == assign@[order@[pos as int] as int],
                cell < n_cells,
                1 <= offsets@.len() <= cell + 1,
                pos > 0 ==> assign@[order@[pos - 1] as int] < offsets@.len(),
                forall|c: int|
                    0 <= c < offsets@.len() ==> divides(
                        order@,
                        assign@,
                        c,
                        #[trigger] offsets@[c] as int,
                    ),
            decreases cell + 1 - offsets@.len(),
        {
            proof {
                let c = offsets@.len() as int;
                assert forall|p: int| 0 <= p < pos implies assign@[(#[trigger] order@[p]) as int]
                    < c by {
                    assert(assign@[order@[p] as int] <= assign@[order@[pos - 1] as int]);
                }
                assert forall|p: int| pos <= p < order@.len() implies c <= assign@[(
                #[trigger] order@[p]) as int] by {
                    assert(assign@[order@[pos as int] as int] <= assign@[order@[p] as int]);
                }
                assert(divides(order@, assign@, c, pos as int));
            }
            offsets.push(pos as u32);
        }
        pos += 1;
    }
    while offsets.len() < n_cells + 1
        invariant
            n == order@.len(),
            n == assign@.len() <= u32::MAX,
            n_cells < u32::MAX,
            is_order(order@, n as int),
            is_by_cell(order@, assign@),
            1 <= offsets@.len() <= n_cells + 1,
            n > 0 ==> assign@[order@[n - 1] as int] < offsets@.len(),
            forall|c: int|
                0 <= c < offsets@.len() ==> divides(order@, assign@, c, #[trigger] offsets@[c] as int),
        decreases n_cells + 1 - offsets@.len(),
    {
        proof {
            let c = offsets@.len() as int;
            assert forall|p: int| 0 <= p < n implies assign@[(#[trigger] order@[p]) as int] < c by {
                assert(assign@[order@[p] as int] <= assign@[order@[n - 1] as int]);
            }
            assert(divides(order@, assign@, c, n as int));
        }
        offsets.push(n as u32);
    }
    offsets
}

/// The rows in the given order, each padded to the width of a row in a file.
pub fn padded_rows<T: Copy>(vectors: &[T], order: &[u32], pad: T) -> (r: Vec<T>)
    requires
        order@.len() * D <= vectors@.len(),
        is_order(order@, order@.len() as int),
        order@.len() * VEC_STRIDE <= usize::MAX,
    ensures
        r@.len() == order@.len() * VEC_STRIDE,
        forall|p: int, k: int|
            0 <= p < order@.len() && 0 <= k < VEC_STRIDE ==> #[trigger] r@[p * VEC_STRIDE + k] == (
            if k < D {
                vectors@[order@[p] * D + k]
            } else {
                pad
            }),
{
    let mut rows: Vec<T> = Vec::new();
    let mut p: usize = 0;
    while p < order.len()
        invariant
            p <= order@.len(),
            order@.len() * D <= vectors@.len(),
            vectors@.len() == vectors.len(),
            is_order(order@, order@.len() as int),
            order@.len() * VEC_STRIDE <= usize::MAX,
            rows@.len() == p * VEC_STRIDE,
            forall|q: int, k: int|
                0 <= q < p && 0 <= k < VEC_STRIDE ==> #[trigger] rows@[q * VEC_STRIDE + k] == (if k
                    < D {
                    vectors@[order@[q] * D + k]
                } else {
                    pad
                }),
        decreases order@.len() - p,
    {
        let i: usize = order[p] as usize;
        let mut k: usize = 0;
        while k < VEC_STRIDE
            invariant
                k <= VEC_STRIDE,
                p < order@.len(),
                i == order@[p as int],
                i < order@.len(),
                order@.len() * D <= vectors@.len(),
                vectors@.len() == vectors.len(),
                rows@.len() == p * VEC_STRIDE + k,
                forall|q: int, j: int|
                    0 <= q < p && 0 <= j < VEC_STRIDE ==> #[trigger] rows@[q * VEC_STRIDE + j] == (
                    if j < D {
                        vectors@[order@[q] * D + j]
                    } else {
                        pad
                    }),
                forall|j: int|
                    0 <= j < k ==> #[trigger] rows@[p * VEC_STRIDE + j] == (if j < D {
                        vectors@[i * D + j]
                    } else {
                        pad
                    }),
            decreases VEC_STRIDE - k,
        {
            if k < D {
                rows.push(vectors[i * D + k]);
            } else {
                rows.push(pad);
            }
            k += 1;
        }
        p += 1;
    }
    rows
}

/// The labels in the given order.
pub fn ordered_labels(labels: &[u8], order: &[u32]) -> (r: Vec<u8>)
    requires
        is_order(order@, labels@.len() as int),
    ensures
        r@ == Seq::new(order@.len(), |p: int| labels@[order@[p] as int]),
{
    let mut out: Vec<u8> = Vec::new();
    let mut p: usize = 0;
    while p < order.len()
        invariant
            p <= order@.len(),
            is_order(order@, labels@.len() as int),
            out@.len() == p,
            forall|q: int| 0 <= q < p ==> #[trigger] out@[q] == labels@[order@[q] as int],
        decreases order@.len() - p,
    {
        out.push(labels[order[p] as usize]);
        p += 1;
    }
    assert(out@ =~= Seq::new(order@.len(), |p: int| labels@[order@[p] as int]));
    out
}

/// The bytes of 32-bit words, each in little-endian order.
pub open spec fn words_bytes(words: Seq<u32>) -> Seq<u8> {
    Seq::new(
        words.len() * 4,
        |i: int| vstd::bytes::spec_u32_to_le_bytes(words[i / 4])[i % 4],
    )
}

/// The header of an index file.
pub open spec fn header_bytes(n: u64, n_cells: u64, nprobe: u64) -> Seq<u8> {
    bytes::text("RINHAV03"@) + vstd::bytes::spec_u64_to_le_bytes(n)
        + vstd::bytes::spec_u64_to_le_bytes(D as u64) + vstd::bytes::spec_u64_to_le_bytes(n_cells)
        + vstd::bytes::spec_u64_to_le_bytes(nprobe)
}

/// An index file.
pub open spec fn index_file(
    nprobe: u64,
    centroids: Seq<u32>,
    offsets: Seq<u32>,
    rows: Seq<u32>,
    labels: Seq<u8>,
) -> Seq<u8> {
    header_bytes(labels.len() as u64, (offsets.len() - 1) as u64, nprobe) + words_bytes(centroids)
        + words_bytes(offsets) + words_bytes(rows) + labels
}

/// Appends the bytes of 32-bit words.
fn append_words(out: &mut Vec<u8>, words: &[u32])
    ensures
        final(out)@ == old(out)@ + words_bytes(words@),
{
    let ghost before = out@;
    let mut i: usize = 0;
    assert(out@ =~= before + words_bytes(words@.take(0)));
    while i < words.len()
        invariant
            i <= words@.len(),
            out@ == before + words_bytes(words@.take(i as int)),
        decreases words@.len() - i,
    {
        let word = u32_to_le_bytes(words[i]);
        let ghost front = out@;
        out.extend_from_slice(word.as_slice());
        assert(out@ =~= front + vstd::bytes::spec_u32_to_le_bytes(words@[i as int]));
        i += 1;
        assert(words_bytes(words@.take(i as int)) =~= words_bytes(words@.take(i - 1))
            + vstd::bytes::spec_u32_to_le_bytes(words@[i - 1]));
        assert(out@ =~= before + words_bytes(words@.take(i as int)));
    }
    assert(words@.take(words@.len() as int) =~= words@);
}

/// Writes an index file: `offsets` has one entry more than there are cells, and there are as many
/// rows as labels.
pub fn encode_index(
    nprobe: u64,
    centroids: &[u32],
    offsets: &[u32],
    rows: &[u32],
    labels: &[u8],
) -> (r: Vec<u8>)
    requires
        offsets@.len() >= 1,
    ensures
        r@ == index_file(nprobe, centroids@, offsets@, rows@, labels@),
{
    proof {
        reveal_strlit("RINHAV03");
    }
    let mut out: Vec<u8> = Vec::new();
    append(&mut out, ascii("RINHAV03"));
    append(&mut out, u64_to_le_bytes(labels.len() as u64).as_slice());
    append(&mut out, u64_to_le_bytes(D as u64).as_slice());
    append(&mut out, u64_to_le_bytes((offsets.len() - 1) as u64).as_slice());
    append(&mut out, u64_to_le_bytes(nprobe).as_slice());
    assert(out@ =~= header_bytes(labels@.len() as u64, (offsets@.len() - 1) as u64, nprobe));
    append_words(&mut out, centroids);
    append_words(&mut out, offsets);
    append_words(&mut out, rows);
    append(&mut out, labels);
    out
}

/// The sections of an index file have the sizes that go with each other.
pub open spec fn sizes_agree(
    centroids: Seq<u32>,
    offsets: Seq<u32>,
    rows: Seq<u32>,
    labels: Seq<u8>,
) -> bool {
    &&& offsets.len() >= 1
    &&& centroids.len() == (offsets.len() - 1) * D
    &&& rows.len() == labels.len() * VEC_STRIDE
}

/// An index file is read back as it was written: its counts, each centroid, each cell offset, each
/// row and each label.
pub proof fn law_index_file_is_read_back(
    nprobe: u64,
    centroids: Seq<u32>,
    offsets: Seq<u32>,
    rows: Seq<u32>,
    labels: Seq<u8>,
)
    requires
        sizes_agree(centroids, offsets, rows, labels),
        index_file(nprobe, centroids, offsets, rows, labels).len() <= usize::MAX,
    ensures
        ({
            let file = index_file(nprobe, centroids, offsets, rows, labels);
            let n = labels.len() as int;
            let n_cells = offsets.len() - 1;
            &&& index::has_header(file)
            &&& index::sections_begin_inside(file)
            &&& index::header_n(file) == n
            &&& index::header_d(file) == D
            &&& index::header_cells(file) == n_cells
            &&& index::header_nprobe(file) == nprobe as usize
            &&& index::labels_at(n, n_cells) + n == file.len()
            &&& forall|c: int|
                0 <= c < n_cells ==> #[trigger] index::centroid_in(file, c) == words_bytes(
                    centroids.subrange(c * D, c * D + D),
                )
            &&& forall|c: int|
                0 <= c <= n_cells ==> #[trigger] index::offset_in(file, n_cells, c) == offsets[c]
            &&& forall|i: int|
                0 <= i < n ==> #[trigger] index::row_in(file, n_cells, i) == words_bytes(
                    rows.subrange(i * VEC_STRIDE, i * VEC_STRIDE + VEC_STRIDE),
                )
            &&& forall|i: int|
                0 <= i < n ==> #[trigger] index::label_in(file, n, n_cells, i) == labels[i]
        }),
{
    reveal_strlit("RINHAV03");
    vstd::bytes::lemma_auto_spec_u64_to_from_le_bytes();
    vstd::bytes::lemma_auto_spec_u32_to_from_le_bytes();
    let file = index_file(nprobe, centroids, offsets, rows, labels);
    let n = labels.len() as int;
    let n_cells = offsets.len() - 1;
    let header = header_bytes(n as u64, n_cells as u64, nprobe);
    assert(header.len() == 40);
    assert(file.len() == 40 + centroids.len() * 4 + offsets.len() * 4 + rows.len() * 4 + n);
    assert(file.subrange(0, 8) =~= bytes::text("RINHAV03"@));
    assert(file.subrange(8, 16) =~= vstd::bytes::spec_u64_to_le_bytes(n as u64));
    assert(file.subrange(16, 24) =~= vstd::bytes::spec_u64_to_le_bytes(D as u64));
    assert(file.subrange(24, 32) =~= vstd::bytes::spec_u64_to_le_bytes(n_cells as u64));
    assert(file.subrange(32, 40) =~= vstd::bytes::spec_u64_to_le_bytes(nprobe));
    assert forall|c: int| 0 <= c < n_cells implies #[trigger] index::centroid_in(file, c)
        == words_bytes(centroids.subrange(c * D, c * D + D)) by {
        assert(index::centroid_in(file, c) =~= words_bytes(centroids.subrange(c * D, c * D + D)));
    }
    assert forall|c: int| 0 <= c <= n_cells implies #[trigger] index::offset_in(file, n_cells, c)
        == offsets[c] by {
        let at = index::offsets_at(n_cells) + c * 4;
        assert(file.subrange(at, at + 4) =~= vstd::bytes::spec_u32_to_le_bytes(offsets[c]));
    }
    assert forall|i: int| 0 <= i < n implies #[trigger] index::row_in(file, n_cells, i)
        == words_bytes(rows.subrange(i * VEC_STRIDE, i * VEC_STRIDE + VEC_STRIDE)) by {
        assert(index::row_in(file, n_cells, i) =~= words_bytes(
            rows.subrange(i * VEC_STRIDE, i * VEC_STRIDE + VEC_STRIDE),
        ));
    }
    assert forall|i: int| 0 <= i < n implies #[trigger] index::label_in(file, n, n_cells, i)
        == labels[i] by {}
}

/// The offsets of cells divide the rows between the cells: the first is zero, the last the number
/// of rows, they ascend, and the rows between two of them are those assigned to the cell.
pub proof fn law_cells_hold_the_rows_assigned_to_them(
    order: Seq<u32>,
    assign: Seq<u32>,
    offsets: Seq<u32>,
)
    requires
        offsets.len() >= 1,
        is_order(order, assign.len() as int),
        forall|i: int| 0 <= i < assign.len() ==> #[trigger] assign[i] < offsets.len() - 1,
        forall|c: int|
            0 <= c < offsets.len() ==> divides(order, assign, c, #[trigger] offsets[c] as int),
    ensures
        offsets[0] == 0,
        offsets[offsets.len() - 1] == order.len(),
        forall|b: int, c: int|
            0 <= b <= c < offsets.len() ==> #[trigger] offsets[b] <= #[trigger] offsets[c],
        forall|c: int, p: int|
            0 <= c < offsets.len() - 1 && 0 <= p < order.len() ==> (#[trigger] offsets[c] <= p
                < offsets[c + 1] <==> assign[(#[trigger] order[p]) as int] == c),
{
    let n_cells = offsets.len() - 1;
    assert(divides(order, assign, 0, offsets[0] as int));
    if offsets[0] > 0 {
        assert(assign[order[0] as int] < 0);
    }
    assert(divides(order, assign, n_cells, offsets[n_cells] as int));
    if offsets[n_cells] < order.len() {
        let p = offsets[n_cells] as int;
        assert(n_cells <= assign[order[p] as int]);
    }
    assert forall|b: int, c: int| 0 <= b <= c < offsets.len() implies #[trigger] offsets[b]
        <= #[trigger] offsets[c] by {
        assert(divides(order, assign, b, offsets[b] as int));
        assert(divides(order, assign, c, offsets[c] as int));
        if offsets[c] < offsets[b] {
            let p = offsets[c] as int;
            assert(assign[order[p] as int] < b);
            assert(c <= assign[order[p] as int]);
        }
    }
    assert forall|c: int, p: int| 0 <= c < n_cells && 0 <= p < order.len() implies (
    #[trigger] offsets[c] <= p < offsets[c + 1] <==> assign[(#[trigger] order[p]) as int]
        == c) by {
        assert(divides(order, assign, c, offsets[c] as int));
        assert(divides(order, assign, c + 1, offsets[c + 1] as int));
    }
}

/// Row `i` of the reference vectors, padded to the width of a row in a file.
pub open spec fn padded(vectors: Seq<u32>, i: int) -> Seq<u32> {
    Seq::new(
        VEC_STRIDE as nat,
        |k: int|
            if k < D {
                vectors[i * D + k]
            } else {
                0
            },
    )
}

/// The rows of a file: the reference vectors by cell, padded, and where each cell begins.
pub open spec fn is_layout(
    order: Seq<u32>,
    offsets: Seq<u32>,
    rows: Seq<u32>,
    vectors: Seq<u32>,
    assign: Seq<u32>,
    n_cells: int,
) -> bool {
    &&& is_order(order, assign.len() as int)
    &&& is_by_cell(order, assign)
    &&& offsets.len() == n_cells + 1
    &&& forall|c: int|
        0 <= c <= n_cells ==> divides(order, assign, c, #[trigger] offsets[c] as int)
    &&& rows.len() == order.len() * VEC_STRIDE
    &&& forall|p: int, k: int|
        0 <= p < order.len() && 0 <= k < VEC_STRIDE ==> #[trigger] rows[p * VEC_STRIDE + k]
            == padded(vectors, order[p] as int)[k]
}

/// The labels in the given order.
pub open spec fn in_order(labels: Seq<u8>, order: Seq<u32>) -> Seq<u8> {
    Seq::new(order.len(), |p: int| labels[order[p] as int])
}

/// A file is an index of reference vectors that are assigned to cells. In which order the rows of
/// a cell come is left open.
pub open spec fn is_index_of(
    file: Seq<u8>,
    nprobe: u64,
    centroids: Seq<u32>,
    vectors: Seq<u32>,
    labels: Seq<u8>,
    assign: Seq<u32>,
) -> bool {
    exists|order: Seq<u32>, offsets: Seq<u32>, rows: Seq<u32>|
        #[trigger] is_layout(
            order,
            offsets,
            rows,
            vectors,
            assign,
            centroids.len() as int / D as int,
        ) && file == index_file(nprobe, centroids, offsets, rows, in_order(labels, order))
}

/// Reference vectors, their labels and the cells to which they are assigned go with each other
/// and with the centroids.
pub open spec fn is_assigned(
    centroids: Seq<u32>,
    vectors: Seq<u32>,
    labels: Seq<u8>,
    assign: Seq<u32>,
) -> bool {
    &&& centroids.len() % (D as nat) == 0
    &&& vectors.len() == labels.len() * D
    &&& labels.len() == assign.len()
    &&& forall|i: int|
        0 <= i < assign.len() ==> #[trigger] assign[i] < centroids.len() as int / D as int
}

/// Builds the index file of reference vectors, given the cell to which each is assigned.
pub fn build_index(
    nprobe: u64,
    centroids: &[u32],
    vectors: &[u32],
    labels: &[u8],
    assign: &[u32],
) -> (r: Vec<u8>)
    requires
        is_assigned(centroids@, vectors@, labels@, assign@),
        assign@.len() <= u32::MAX,
        centroids@.len() < u32::MAX,
        labels@.len() * VEC_STRIDE <= usize::MAX,
    ensures
        is_index_of(r@, nprobe, centroids@, vectors@, labels@, assign@),
{
    let n_cells: usize = centroids.len() / D;
    let order = cell_order(assign);
    let offsets = cell_offsets(assign, &order, n_cells);
    let rows = padded_rows(vectors, &order, 0u32);
    let ordered = ordered_labels(labels, &order);
    assert(is_layout(order@, offsets@, rows@, vectors@, assign@, n_cells as int));
    assert(ordered@ =~= in_order(labels@, order@));
    encode_index(nprobe, centroids, &offsets, &rows, &ordered)
}

/// An index opened on a file that was built divides its rows between its cells, so it can be
/// searched.
pub proof fn law_a_built_index_can_be_searched(
    built: &index::Index,
    nprobe: u64,
    centroids: Seq<u32>,
    vectors: Seq<u32>,
    labels: Seq<u8>,
    assign: Seq<u32>,
)
    requires
        is_assigned(centroids, vectors, labels, assign),
        is_index_of(built.data@, nprobe, centroids, vectors, labels, assign),
        built.wf(),
        built.n == index::header_n(built.data@),
        built.n_cells == index::header_cells(built.data@),
    ensures
        built.n == labels.len(),
        built.n_cells == centroids.len() as int / D as int,
        index::cells_divide_rows(built),
        built.cells_hold_rows(),
{
    let (order, offsets, rows) = choose|order: Seq<u32>, offsets: Seq<u32>, rows: Seq<u32>|
        #[trigger] is_layout(
            order,
            offsets,
            rows,
            vectors,
            assign,
            centroids.len() as int / D as int,
        ) && built.data@ == index_file(nprobe, centroids, offsets, rows, in_order(labels, order));
    law_index_file_is_read_back(nprobe, centroids, offsets, rows, in_order(labels, order));
    law_cells_hold_the_rows_assigned_to_them(order, assign, offsets);
    assert forall|b: int, c: int| 0 <= b <= c <= built.n_cells implies #[trigger] built.cell_offset(b)
        <= #[trigger] built.cell_offset(c) by {
        assert(index::offset_in(built.data@, built.n_cells as int, b) == offsets[b]);
        assert(index::offset_in(built.data@, built.n_cells as int, c) == offsets[c]);
    }
    assert(index::offset_in(built.data@, built.n_cells as int, 0) == offsets[0]);
    assert(index::offset_in(built.data@, built.n_cells as int, built.n_cells as int)
        == offsets[built.n_cells as int]);
    assert forall|c: int|
        0 <= c < built.n_cells && built.cell_offset(c) < built.cell_offset(c + 1) implies #[trigger] built.cell_offset(c + 1)
        <= built.n by {
        assert(built.cell_offset(c + 1) <= built.cell_offset(built.n_cells as int));
    }
}

/// Row `p` of an index holds reference vector `i` with its label, in the cell to which the vector
/// is assigned.
pub open spec fn stands_at(
    built: &index::Index,
    vectors: Seq<u32>,
    labels: Seq<u8>,
    assign: Seq<u32>,
    i: int,
    p: int,
) -> bool {
    &&& 0 <= p < built.n
    &&& built.row_bytes(p) == words_bytes(padded(vectors, i))
    &&& built.label(p) == labels[i]
    &&& index::cell_holds(built, assign[i] as int, p)
}

/// Every reference vector stands in an index that was built from it, with its label, in the cell
/// to which it is assigned.
pub proof fn law_reference_vectors_are_found_in_their_cells(
    built: &index::Index,
    nprobe: u64,
    centroids: Seq<u32>,
    vectors: Seq<u32>,
    labels: Seq<u8>,
    assign: Seq<u32>,
    i: int,
)
    requires
        is_assigned(centroids, vectors, labels, assign),
        assign.len() <= u32::MAX,
        is_index_of(built.data@, nprobe, centroids, vectors, labels, assign),
        built.wf(),
        built.n == index::header_n(built.data@),
        built.n_cells == index::header_cells(built.data@),
        0 <= i < labels.len(),
    ensures
        exists|p: int| stands_at(built, vectors, labels, assign, i, p),
{
    let (order, offsets, rows) = choose|order: Seq<u32>, offsets: Seq<u32>, rows: Seq<u32>|
        #[trigger] is_layout(
            order,
            offsets,
            rows,
            vectors,
            assign,
            centroids.len() as int / D as int,
        ) && built.data@ == index_file(nprobe, centroids, offsets, rows, in_order(labels, order));
    law_index_file_is_read_back(nprobe, centroids, offsets, rows, in_order(labels, order));
    law_cells_hold_the_rows_assigned_to_them(order, assign, offsets);
    index::lemma_all_present(order, assign.len() as int, i as u32);
    let p = choose|p: int| 0 <= p < order.len() && order[p] == i as u32;
    let c = assign[i] as int;
    let n_cells = built.n_cells as int;
    assert(rows.subrange(p * VEC_STRIDE, p * VEC_STRIDE + VEC_STRIDE) =~= padded(vectors, i)) by {
        assert forall|k: int| 0 <= k < VEC_STRIDE implies rows[p * VEC_STRIDE + k] == padded(
            vectors,
            i,
        )[k] by {
            assert(rows[p * VEC_STRIDE + k] == padded(vectors, order[p] as int)[k]);
        }
    }
    assert(index::row_in(built.data@, n_cells, p) == words_bytes(padded(vectors, i)));
    assert(index::label_in(built.data@, built.n as int, n_cells, p) == labels[i]);
    assert(index::offset_in(built.data@, n_cells, c) == offsets[c]);
    assert(index::offset_in(built.data@, n_cells, c + 1) == offsets[c + 1]);
    assert(assign[order[p] as int] == c);
    assert(stands_at(built, vectors, labels, assign, i, p));
}

/// The count of a cell is the number of times that it occurs.
pub proof fn law_counts_are_occurrences(cells: Seq<usize>, c: usize)
    ensures
        occurrences(cells, c as int) == cells.to_multiset().count(c),
        occurrences(cells, c as int) == cells.filter(|x: usize| x == c).len(),
    decreases cells.len(),
{
    broadcast use vstd::seq_lib::group_to_multiset_ensures;

    let f = |x: usize| x == c;
    reveal(Seq::filter);
    if cells.len() > 0 {
        let front = cells.drop_last();
        law_counts_are_occurrences(front, c);
        assert(cells =~= front.push(cells.last()));
        assert(cells.to_multiset() == front.to_multiset().insert(cells.last()));
        assert(cells.filter(f).len() == front.filter(f).len() + (if f(cells.last()) {
            1int
        } else {
            0
        }));
    } else {
        assert(cells.filter(f) =~= Seq::empty());
        assert(cells.to_multiset() =~= vstd::multiset::Multiset::empty());
    }
}

/// The occurrences of the first `k` cells, added up.
spec fn occurrences_below(cells: Seq<usize>, k: int) -> int
    decreases k,
{
    if k <= 0 {
        0
    } else {
        occurrences_below(cells, k - 1) + occurrences(cells, k - 1)
    }
}

proof fn lemma_occurrences_below(cells: Seq<usize>, k: int)
    requires
        cells.len() > 0,
        0 <= k,
    ensures
        occurrences_below(cells, k) == occurrences_below(cells.drop_last(), k) + (if cells.last()
            < k {
            1int
        } else {
            0
        }),
    decreases k,
{
    if k > 0 {
        lemma_occurrences_below(cells, k - 1);
    }
}

proof fn lemma_all_occurrences(cells: Seq<usize>, k: int)
    requires
        0 <= k,
        forall|i: int| 0 <= i < cells.len() ==> #[trigger] cells[i] < k,
    ensures
        occurrences_below(cells, k) == cells.len(),
    decreases cells.len(),
{
    if cells.len() == 0 {
        lemma_no_occurrences(cells, k);
    } else {
        lemma_occurrences_below(cells, k);
        assert(cells.last() == cells[cells.len() - 1]);
        assert forall|i: int| 0 <= i < cells.drop_last().len() implies #[trigger] cells.drop_last()[i]
            < k by {
            assert(cells[i] < k);
        }
        lemma_all_occurrences(cells.drop_last(), k);
    }
}

proof fn lemma_no_occurrences(cells: Seq<usize>, k: int)
    requires
        cells.len() == 0,
    ensures
        occurrences_below(cells, k) == 0,
    decreases k,
{
    if k > 0 {
        lemma_no_occurrences(cells, k - 1);
    }
}

/// The counts of all cells add up to the number of rows counted.
pub proof fn law_counts_add_up(cells: Seq<usize>, counts: Seq<u32>)
    requires
        forall|i: int| 0 <= i < cells.len() ==> #[trigger] cells[i] < counts.len(),
        forall|c: int| 0 <= c < counts.len() ==> #[trigger] counts[c] == occurrences(cells, c),
    ensures
        counts.fold_left(0int, |sum: int, x: u32| sum + x) == cells.len(),
{
    lemma_counts_fold(cells, counts, counts.len() as int);
    assert(counts.take(counts.len() as int) =~= counts);
    lemma_all_occurrences(cells, counts.len() as int);
}

proof fn lemma_counts_fold(cells: Seq<usize>, counts: Seq<u32>, k: int)
    requires
        0 <= k <= counts.len(),
        forall|c: int| 0 <= c < counts.len() ==> #[trigger] counts[c] == occurrences(cells, c),
    ensures
        counts.take(k).fold_left(0int, |sum: int, x: u32| sum + x) == occurrences_below(cells, k),
    decreases k,
{
    if k > 0 {
        lemma_counts_fold(cells, counts, k - 1);
        assert(counts.take(k).drop_last() =~= counts.take(k - 1));
        assert(counts.take(k).last() == counts[k - 1]);
    }
}


/// Rows are chosen as far apart as can be for there to be enough of them, but never at no distance.
pub proof fn law_rows_are_chosen_as_far_apart_as_can_be(n: int, k: int)
    requires
        0 <= n,
        0 < k,
    ensures
        1 <= stride(n, k),
        stride(n, k) > 1 ==> stride(n, k) * k <= n,
        (stride(n, k) + 1) * k > n,
{
    vstd::arithmetic::div_mod::lemma_fundamental_div_mod(n, k);
    vstd::arithmetic::div_mod::lemma_mod_bound(n, k);
    let q = n / k;
    assert((q + 1) * k == k * q + k) by (nonlinear_arith);
    assert(q * k == k * q) by (nonlinear_arith);
    assert(q <= 1 ==> k * q <= k) by (nonlinear_arith)
        requires
            0 < k,
    ;
    let s = stride(n, k);
    if q <= 1 {
        assert(s == 1);
        assert((s + 1) * k == 2 * k) by (nonlinear_arith)
            requires
                s == 1,
        ;
    }
}

/// The nearest centroid is at a distance, no other is nearer, and none before it is as near.
pub proof fn law_the_nearest_comes_first(dists: Seq<u32>, i: int, j: int)
    requires
        is_nearest(dists, i),
        0 <= j < dists.len(),
    ensures
        0 <= i < dists.len(),
        dists[i] < 0x7f80_0000,
        dists[i] <= dists[j],
        j < i ==> dists[i] < dists[j],
{
}

/// An order of rows has each row at exactly one place.
pub proof fn law_an_order_has_each_row_once(order: Seq<u32>, n: int, i: int)
    requires
        0 <= n <= u32::MAX,
        is_order(order, n),
        0 <= i < n,
    ensures
        order.len() == n,
        exists|p: int| 0 <= p < n && #[trigger] order[p] == i,
        forall|p: int, q: int|
            0 <= p < n && 0 <= q < n && #[trigger] order[p] == i && #[trigger] order[q] == i ==> p
                == q,
{
    index::lemma_all_present(order, n, i as u32);
    let p = choose|p: int| 0 <= p < order.len() && order[p] == i as u32;
    assert(order[p] == i);
}

/// In an order by cells, no row comes before one of an earlier cell.
pub proof fn law_an_order_by_cells_ascends(order: Seq<u32>, assign: Seq<u32>, p: int, q: int)
    requires
        is_by_cell(order, assign),
        0 <= p <= q < order.len(),
    ensures
        assign[order[p] as int] <= assign[order[q] as int],
{
}

/// A written row has the components of its vector, and zeros after them.
pub proof fn law_rows_are_padded_with_zeros(vectors: Seq<u32>, i: int, k: int)
    requires
        0 <= k < 16,
    ensures
        padded(vectors, i).len() == 16,
        k < 14 ==> padded(vectors, i)[k] == vectors[14 * i + k],
        k >= 14 ==> padded(vectors, i)[k] == 0,
{
}

/// The labels of a file are those of the rows in their order.
pub proof fn law_labels_follow_the_order(labels: Seq<u8>, order: Seq<u32>, p: int)
    requires
        0 <= p < order.len(),
    ensures
        in_order(labels, order).len() == order.len(),
        in_order(labels, order)[p] == labels[order[p] as int],
{
}

/// Words are written one after the other, each as its four bytes in little-endian order.
pub proof fn law_words_are_written_in_turn(words: Seq<u32>, i: int)
    requires
        0 <= i < words.len(),
    ensures
        words_bytes(words).len() == 4 * words.len(),
        words_bytes(words).subrange(4 * i, 4 * i + 4) == vstd::bytes::spec_u32_to_le_bytes(
            words[i],
        ),
{
    vstd::bytes::lemma_auto_spec_u32_to_from_le_bytes();
    let s = words_bytes(words).subrange(4 * i, 4 * i + 4);
    let t = vstd::bytes::spec_u32_to_le_bytes(words[i]);
    assert(t.len() == 4);
    assert forall|k: int| 0 <= k < 4 implies s[k] == t[k] by {
        assert((4 * i + k) / 4 == i);
        assert((4 * i + k) % 4 == k);
    }
    assert(s =~= t);
}

/// An index file is laid out as documented: the magic, the numbers of rows, components, cells and
/// cells to probe, the centroids, the cell offsets, the rows and the labels, with nothing between
/// them.
pub proof fn law_index_files_are_laid_out(
    nprobe: u64,
    centroids: Seq<u32>,
    offsets: Seq<u32>,
    rows: Seq<u32>,
    labels: Seq<u8>,
)
    requires
        offsets.len() >= 1,
        labels.len() <= u64::MAX,
        offsets.len() <= u64::MAX,
    ensures
        ({
            let file = index_file(nprobe, centroids, offsets, rows, labels);
            let a = 40 + 4 * centroids.len() as int;
            let b = a + 4 * offsets.len();
            let c = b + 4 * rows.len();
            &&& file.len() == c + labels.len()
            &&& file.subrange(0, 8) == seq![0x52u8, 0x49, 0x4e, 0x48, 0x41, 0x56, 0x30, 0x33]
            &&& file.subrange(8, 16) == vstd::bytes::spec_u64_to_le_bytes(labels.len() as u64)
            &&& file.subrange(16, 24) == vstd::bytes::spec_u64_to_le_bytes(14)
            &&& file.subrange(24, 32) == vstd::bytes::spec_u64_to_le_bytes(
                (offsets.len() - 1) as u64,
            )
            &&& file.subrange(32, 40) == vstd::bytes::spec_u64_to_le_bytes(nprobe)
            &&& forall|i: int|
                0 <= i < centroids.len() ==> file.subrange(40 + 4 * i, 44 + 4 * i)
                    == vstd::bytes::spec_u32_to_le_bytes(#[trigger] centroids[i])
            &&& forall|i: int|
                0 <= i < offsets.len() ==> file.subrange(a + 4 * i, a + 4 * i + 4)
                    == vstd::bytes::spec_u32_to_le_bytes(#[trigger] offsets[i])
            &&& forall|i: int|
                0 <= i < rows.len() ==> file.subrange(b + 4 * i, b + 4 * i + 4)
                    == vstd::bytes::spec_u32_to_le_bytes(#[trigger] rows[i])
            &&& forall|i: int| 0 <= i < labels.len() ==> file[c + i] == #[trigger] labels[i]
        }),
{
    reveal_strlit("RINHAV03");
    vstd::bytes::lemma_auto_spec_u64_to_from_le_bytes();
    vstd::bytes::lemma_auto_spec_u32_to_from_le_bytes();
    let file = index_file(nprobe, centroids, offsets, rows, labels);
    let header = header_bytes(labels.len() as u64, (offsets.len() - 1) as u64, nprobe);
    let a = 40 + 4 * centroids.len() as int;
    let b = a + 4 * offsets.len();
    let c = b + 4 * rows.len();
    let wc = words_bytes(centroids);
    let wo = words_bytes(offsets);
    let wr = words_bytes(rows);
    assert(header.len() == 40);
    assert(wc.len() == 4 * centroids.len() && wo.len() == 4 * offsets.len() && wr.len() == 4
        * rows.len());
    assert(file =~= header + wc + wo + wr + labels);
    assert(file.subrange(0, 8) =~= seq![0x52u8, 0x49, 0x4e, 0x48, 0x41, 0x56, 0x30, 0x33]);
    assert(file.subrange(8, 16) =~= vstd::bytes::spec_u64_to_le_bytes(labels.len() as u64));
    assert(file.subrange(16, 24) =~= vstd::bytes::spec_u64_to_le_bytes(14));
    assert(file.subrange(24, 32) =~= vstd::bytes::spec_u64_to_le_bytes((offsets.len() - 1) as u64));
    assert(file.subrange(32, 40) =~= vstd::bytes::spec_u64_to_le_bytes(nprobe));
    assert forall|i: int| 0 <= i < centroids.len() implies file.subrange(40 + 4 * i, 44 + 4 * i)
        == vstd::bytes::spec_u32_to_le_bytes(#[trigger] centroids[i]) by {
        law_words_are_written_in_turn(centroids, i);
        assert(file.subrange(40 + 4 * i, 44 + 4 * i) =~= wc.subrange(4 * i, 4 * i + 4));
    }
    assert forall|i: int| 0 <= i < offsets.len() implies file.subrange(a + 4 * i, a + 4 * i + 4)
        == vstd::bytes::spec_u32_to_le_bytes(#[trigger] offsets[i]) by {
        law_words_are_written_in_turn(offsets, i);
        assert(file.subrange(a + 4 * i, a + 4 * i + 4) =~= wo.subrange(4 * i, 4 * i + 4));
    }
    assert forall|i: int| 0 <= i < rows.len() implies file.subrange(b + 4 * i, b + 4 * i + 4)
        == vstd::bytes::spec_u32_to_le_bytes(#[trigger] rows[i]) by {
        law_words_are_written_in_turn(rows, i);
        assert(file.subrange(b + 4 * i, b + 4 * i + 4) =~= wr.subrange(4 * i, 4 * i + 4));
    }
    assert forall|i: int| 0 <= i < labels.len() implies file[c + i] == #[trigger] labels[i] by {}
}


/// A build makes 1024 cells, in 12 rounds over at most 200,000 vectors, and has 24 of them probed. All
/// of the cells can be told apart in the sample, and all of them are looked at in a search.
pub proof fn law_measures_of_a_build()
    ensures
        N_CELLS == 1024,
        KMEANS_ITERS == 12,
        KMEANS_SAMPLE == 200_000,
        DEFAULT_NPROBE == 24,
        DEFAULT_NPROBE <= N_CELLS <= KMEANS_SAMPLE,
        N_CELLS <= crate::index::MAX_CELLS,
{
}


/// The rows of an index lie cell by cell, each once, whatever else is known of its layout.
pub proof fn law_a_layout_goes_cell_by_cell(
    order: Seq<u32>,
    offsets: Seq<u32>,
    rows: Seq<u32>,
    vectors: Seq<u32>,
    assign: Seq<u32>,
    n_cells: int,
    p: int,
    q: int,
)
    requires
        is_layout(order, offsets, rows, vectors, assign, n_cells),
        0 <= p < q < assign.len(),
    ensures
        order.len() == assign.len(),
        order[p] != order[q],
        order[p] < assign.len(),
        assign[order[p] as int] <= assign[order[q] as int],
{
}

} // verus!
