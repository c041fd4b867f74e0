use imshow::utils::{chunks, chunks_up_to};

#[test]
fn test_chunks_up_to() {
    let expected = vec![vec![0, 1], vec![2, 3]];
    assert_eq!(expected, chunks_up_to(4, 2));
}

#[test]
fn test_chunks_evenly() {
    let values: Vec<u32> = (0..4).collect();
    let expected = vec![vec![0, 1], vec![2, 3]];
    assert_eq!(expected, chunks(values, 2));
}

#[test]
fn test_chunks_oddly() {
    let values: Vec<u32> = (0..8).collect();
    let expected = vec![vec![0, 1, 2], vec![3, 4, 5], vec![6, 7]];
    assert_eq!(expected, chunks(values, 3));
}

#[test]
fn chunks_of_nothing_is_empty() {
    assert!(chunks(Vec::new(), 3).is_empty());
    assert!(chunks_up_to(0, 1).is_empty());
}

#[test]
fn chunk_larger_than_input() {
    assert_eq!(chunks(vec![7, 8], 5), vec![vec![7, 8]]);
}
