use rinha_vini::pairs::{first_numbers, number};

#[test]
fn keys_are_numbered_by_place() {
    assert_eq!(number(&[7, 7, 3]), [(7, 0), (7, 1), (3, 2)]);
    assert_eq!(number(&[]), []);
}

#[test]
fn the_first_numbers_are_taken() {
    let mut pairs = number(&[9, 4, 6]);
    pairs.sort();
    assert_eq!(first_numbers(&pairs, 3), [1, 2, 0]);
    assert_eq!(first_numbers(&pairs, 1), [1]);
    assert_eq!(first_numbers(&pairs, 0), [0u32; 0]);
}
