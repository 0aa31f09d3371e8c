use rinha_vini::builder::{
    build_index, cell_offsets, cell_order, count_cells, encode_index, init_centroids, nearest_centroid,
    ordered_labels, padded_rows, sample_rows,
};
use rinha_vini::index::{Index, OpenError, INFINITE, MAX_CELLS};
use rinha_vini::top5::Top5;
use rinha_vini::vector::D;
use rinha_vini::warmup::{warm_query, WARM_SEED};

fn word(bytes: &[u8], k: usize) -> u32 {
    u32::from_le_bytes([bytes[4 * k], bytes[4 * k + 1], bytes[4 * k + 2], bytes[4 * k + 3]])
}

/// Six rows in three cells; row `i` holds the words `100 * i + k`, and rows 1, 2 and 5 are frauds.
fn built() -> (Vec<u8>, Vec<u32>) {
    let vectors: Vec<u32> = (0..6 * D as u32).map(|w| 100 * (w / 14) + w % 14).collect();
    let labels = [0u8, 1, 1, 0, 0, 1];
    let assign = [2u32, 0, 2, 0, 2, 0];
    let order = cell_order(&assign);
    let offsets = cell_offsets(&assign, &order, 3);
    assert_eq!(offsets, [0, 3, 3, 6]);
    let rows = padded_rows(&vectors, &order, 7u32);
    let labels = ordered_labels(&labels, &order);
    let centroids: Vec<u32> = (0..3 * D as u32).collect();
    (encode_index(2, &centroids, &offsets, &rows, &labels), order)
}

#[test]
fn rows_are_ordered_by_cell() {
    let assign = [2u32, 0, 2, 1, 0];
    let order = cell_order(&assign);
    let mut sorted = order.clone();
    sorted.sort();
    assert_eq!(sorted, [0, 1, 2, 3, 4]);
    let cells: Vec<u32> = order.iter().map(|&i| assign[i as usize]).collect();
    assert_eq!(cells, [0, 0, 1, 2, 2]);
    assert_eq!(cell_offsets(&assign, &order, 4), [0, 2, 3, 5, 5]);
    assert_eq!(cell_order(&[]), [0u32; 0]);
    assert_eq!(cell_offsets(&[], &[], 2), [0, 0, 0]);
}

#[test]
fn an_index_file_is_laid_out() {
    let file = encode_index(24, &[1; 14], &[0, 1], &[2; 16], &[1]);
    assert_eq!(file.len(), 40 + 56 + 8 + 64 + 1);
    assert_eq!(&file[..8], b"RINHAV03");
    assert_eq!(&file[8..16], [1, 0, 0, 0, 0, 0, 0, 0]);
    assert_eq!(&file[16..24], [14, 0, 0, 0, 0, 0, 0, 0]);
    assert_eq!(&file[24..32], [1, 0, 0, 0, 0, 0, 0, 0]);
    assert_eq!(&file[32..40], [24, 0, 0, 0, 0, 0, 0, 0]);
    assert_eq!(&file[40..44], [1, 0, 0, 0]);
    assert_eq!(&file[96..104], [0, 0, 0, 0, 1, 0, 0, 0]);
    assert_eq!(&file[104..108], [2, 0, 0, 0]);
    assert_eq!(file[168], 1);
}

#[test]
fn an_index_file_is_read_back() {
    let (file, order) = built();
    assert!(Index::can_open(&file));
    let index = Index::open(&file, None).unwrap();
    assert_eq!((index.n, index.d, index.n_cells, index.nprobe), (6, 14, 3, 2));
    assert!(index.check_cells());
    for c in 0..3 {
        for k in 0..D {
            assert_eq!(word(index.centroid(c), k), (c * D + k) as u32);
        }
    }
    for p in 0..6 {
        for k in 0..D {
            assert_eq!(word(index.row(p), k), 100 * order[p] + k as u32);
        }
        assert_eq!(word(index.row(p), 14), 7);
        assert_eq!(word(index.row(p), 15), 7);
    }
    assert_eq!(Index::open(&file, Some(9)).unwrap().nprobe, 9);
}

#[test]
fn reference_vectors_are_found_in_their_cells() {
    let vectors: Vec<u32> = (0..5 * D as u32).map(|w| 100 * (w / 14) + w % 14 + 1).collect();
    let labels = [1u8, 0, 1, 1, 0];
    let assign = [1u32, 2, 0, 2, 1];
    let file = build_index(24, &[9; 3 * D], &vectors, &labels, &assign);
    assert_eq!(file.len(), 40 + 3 * 56 + 4 * 4 + 5 * 64 + 5);
    let index = Index::open(&file, Some(1)).unwrap();
    assert_eq!((index.n, index.n_cells), (5, 3));
    assert!(index.check_cells());
    for i in 0..5 {
        let cell = assign[i];
        let rows = index.rows_of(&[cell]);
        let found: Vec<usize> = rows
            .iter()
            .copied()
            .filter(|&p| word(index.row(p), 0) == vectors[i * D])
            .collect();
        assert_eq!(found.len(), 1);
        let p = found[0];
        for k in 0..D {
            assert_eq!(word(index.row(p), k), vectors[i * D + k]);
        }
        assert_eq!(word(index.row(p), 14), 0);
        assert_eq!(word(index.row(p), 15), 0);
        assert_eq!(index.knn5_count_frauds(&[p], &[0]), labels[i] as u32);
    }
}

#[test]
fn a_query_is_padded_like_a_row() {
    let v: [u32; D] = [1, 2, 3, 4, 5, 6, 7, 8, 9, 10, 11, 12, 13, 14];
    assert_eq!(
        Index::pad_query(&v, 0),
        [1, 2, 3, 4, 5, 6, 7, 8, 9, 10, 11, 12, 13, 14, 0, 0]
    );
}

#[test]
fn files_that_are_no_index_are_refused() {
    let (file, _) = built();
    assert_eq!(Index::open(b"", None).err(), Some(OpenError::BadMagic));
    assert_eq!(Index::open(&file[..39], None).err(), Some(OpenError::BadMagic));
    let mut other = file.clone();
    other[7] = b'2';
    assert_eq!(Index::open(&other, None).err(), Some(OpenError::BadMagic));
    let mut other = file.clone();
    other[16] = 15;
    assert_eq!(Index::open(&other, None).err(), Some(OpenError::BadDim));
    assert!(Index::can_open(&file[..file.len() - 1]));
    assert_eq!(
        Index::open(&file[..file.len() - 1], None).err(),
        Some(OpenError::Truncated)
    );
    assert!(Index::can_open(&file[..file.len() - 6]));
    assert!(!Index::can_open(&file[..file.len() - 7]));
    let mut other = file.clone();
    other[15] = 0xff;
    assert!(!Index::can_open(&other));
}

#[test]
fn cells_beyond_the_rows_are_told() {
    let file = encode_index(1, &[0; 14], &[0, 2], &[0; 16], &[1]);
    assert!(!Index::open(&file, None).unwrap().check_cells());
    let file = encode_index(1, &[0; 14], &[5, 1], &[0; 16], &[1]);
    assert!(Index::open(&file, None).unwrap().check_cells());
}

#[test]
fn the_nearest_cells_are_probed() {
    let file = encode_index(3, &[0; 14 * 8], &[0; 9], &[], &[]);
    let index = Index::open(&file, None).unwrap();
    assert_eq!(index.cells_to_measure(), 8);
    let mut cells = index.probe(&[80, 10, 70, 20, 60, 30, 50, 40]);
    cells.sort();
    assert_eq!(cells, [1, 3, 5]);
    let index = Index::open(&file, Some(100)).unwrap();
    let mut cells = index.probe(&[80, 10, 70, 20, 60, 30, 50, 40]);
    cells.sort();
    assert_eq!(cells, [0, 1, 2, 3, 4, 5, 6, 7]);
}

#[test]
fn a_search_looks_at_a_limited_number_of_cells() {
    let file = encode_index(1, &vec![0; 14 * 5000], &vec![0; 5001], &[], &[]);
    let index = Index::open(&file, None).unwrap();
    assert_eq!(index.n_cells, 5000);
    assert_eq!(index.cells_to_measure(), MAX_CELLS);
}

#[test]
fn a_full_probe_scans_every_row_once() {
    let (file, _) = built();
    let index = Index::open(&file, Some(3)).unwrap();
    let cells = index.probe(&[5, 9, 1]);
    let mut rows = index.rows_of(&cells);
    assert_eq!(rows.len(), 6);
    rows.sort();
    assert_eq!(rows, [0, 1, 2, 3, 4, 5]);
    let index = Index::open(&file, Some(1)).unwrap();
    assert_eq!(index.rows_to_scan(&[5, 9, 1]), [3, 4, 5]);
    assert_eq!(index.rows_to_scan(&[1, 9, 5]), [0, 1, 2]);
    assert_eq!(index.rows_to_scan(&[5, 1, 9]), [0usize; 0]);
}

#[test]
fn the_frauds_among_the_five_nearest_are_counted() {
    let (file, order) = built();
    let index = Index::open(&file, Some(3)).unwrap();
    let rows = index.rows_of(&index.probe(&[1, 2, 3]));
    // The distance grows with the row's number, so row 5, a fraud, is left out.
    let dists: Vec<u32> = rows.iter().map(|&p| 1000 + order[p]).collect();
    assert_eq!(index.knn5_count_frauds(&rows, &dists), 2);
    // It shrinks, so row 0 is left out.
    let dists: Vec<u32> = rows.iter().map(|&p| 1000 - order[p]).collect();
    assert_eq!(index.knn5_count_frauds(&rows, &dists), 3);
    assert_eq!(index.knn5_count_frauds(&[], &[]), 0);
    let infinite = vec![INFINITE; 6];
    assert_eq!(index.knn5_count_frauds(&rows, &infinite), 0);
}

#[test]
fn a_full_probe_counts_like_a_linear_scan() {
    let (file, _) = built();
    let index = Index::open(&file, Some(3)).unwrap();
    let every = [0usize, 1, 2, 3, 4, 5];
    for dists in [[60u32, 50, 40, 30, 20, 10], [1, 6, 2, 5, 3, 4], [9, 8, 1, 2, 7, 3]] {
        let linear = index.knn5_count_frauds(&every, &dists);
        for centroids in [[1, 2, 3], [3, 2, 1], [2, 3, 1]] {
            let rows = index.rows_to_scan(&centroids);
            let scanned: Vec<u32> = rows.iter().map(|&i| dists[i]).collect();
            assert_eq!(index.knn5_count_frauds(&rows, &scanned), linear);
        }
    }
}

#[test]
fn five_slots_keep_the_nearest() {
    let mut top = Top5::new();
    assert_eq!(top.frauds(), 0);
    for d in [50u32, 40, 30, 20, 10] {
        top.offer(d, 1);
    }
    assert_eq!(top.frauds(), 5);
    top.offer(60, 0);
    top.offer(50, 0);
    assert_eq!(top.frauds(), 5);
    top.offer(5, 0);
    assert_eq!(top.frauds(), 4);
    top.offer(INFINITE, 0);
    top.offer(45, 0);
    assert_eq!(top.frauds(), 4);
    top.offer(35, 0);
    assert_eq!(top.frauds(), 3);
}

#[test]
fn the_order_of_the_offers_does_not_matter() {
    let items = [(7u32, 1u8), (3, 0), (9, 1), (1, 1), (8, 0), (2, 0), (6, 1)];
    for turn in 0..items.len() {
        let mut top = Top5::new();
        for k in 0..items.len() {
            let (d, label) = items[(k + turn) % items.len()];
            top.offer(d, label);
        }
        assert_eq!(top.frauds(), 3);
    }
}

#[test]
fn first_centroids_are_rows_at_even_distances() {
    let vectors: Vec<u32> = (0..10 * D as u32).map(|w| w / 14).collect();
    let first = |v: Vec<u32>| -> Vec<u32> { v.chunks(D).map(|c| c[0]).collect() };
    assert_eq!(first(init_centroids(&vectors, 10, 3)), [0, 3, 6]);
    assert_eq!(first(init_centroids(&vectors, 10, 5)), [0, 2, 4, 6, 8]);
    assert_eq!(first(init_centroids(&vectors, 2, 5)), [0, 1, 0, 1, 0]);
}

#[test]
fn samples_are_rows_at_even_distances() {
    assert_eq!(sample_rows(10, 3), [0, 3, 6]);
    assert_eq!(sample_rows(10, 4), [0, 2, 4, 6]);
    assert_eq!(sample_rows(3, 10), [0, 1, 2]);
    assert_eq!(sample_rows(0, 10), [0usize; 0]);
}

#[test]
fn the_first_nearest_centroid_is_chosen() {
    assert_eq!(nearest_centroid(&[5, 3, 4, 3]), 1);
    assert_eq!(nearest_centroid(&[INFINITE, INFINITE + 1]), 0);
    assert_eq!(nearest_centroid(&[INFINITE, 9]), 1);
    assert_eq!(nearest_centroid(&[]), 0);
}

#[test]
fn sampled_rows_are_counted_by_cell() {
    assert_eq!(count_cells(&[1, 0, 1, 3, 1], 4), [1, 3, 0, 1]);
    assert_eq!(count_cells(&[], 2), [0, 0]);
}

#[test]
fn warm_queries_follow_the_generator() {
    let (q, next) = warm_query(WARM_SEED);
    let mut s = 0xDEADBEEFu32;
    for k in 0..D {
        s = s.wrapping_mul(1664525).wrapping_add(1013904223);
        if (k == 5 || k == 6) && s & 1 == 0 {
            assert_eq!(q[k], None);
        } else {
            assert_eq!(q[k], Some((s >> 8) & 0xFFFFFF));
        }
    }
    assert_eq!(q.len(), D);
    assert_eq!(next, s);
    let (q, _) = warm_query(0);
    assert_eq!(q[0], Some(1013904223 / 256));
}
