use char_analyzer::collector::join_parts;

#[test]
fn joins_in_listing_order() {
    let parts = vec![b"ab".to_vec(), Vec::new(), b"cde".to_vec()];
    assert_eq!(join_parts(&parts), b"abcde".to_vec());
}

#[test]
fn empty_directory_gives_empty_buffer() {
    assert_eq!(join_parts(&Vec::new()), Vec::<u8>::new());
}

#[test]
fn length_is_sum_in_any_order() {
    let a = b"first".to_vec();
    let b = b"second file".to_vec();
    let c = b"3".to_vec();
    let total = a.len() + b.len() + c.len();
    let one = join_parts(&vec![a.clone(), b.clone(), c.clone()]);
    let other = join_parts(&vec![c, a, b]);
    assert_eq!(one.len(), total);
    assert_eq!(other.len(), total);
}
