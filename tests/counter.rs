use char_analyzer::counter::{count_chars, scan_file, TABLE_SIZE};

#[test]
fn counts_each_byte() {
    let counts = count_chars(&b"aab".to_vec());
    assert_eq!(counts.len(), TABLE_SIZE);
    assert_eq!(counts[b'a' as usize], 2);
    assert_eq!(counts[b'b' as usize], 1);
    assert_eq!(counts.iter().filter(|c| **c > 0).count(), 2);
}

#[test]
fn counts_add_up_to_length() {
    let content = b"hello, world\n\x00\xff\xff".to_vec();
    let counts = count_chars(&content);
    assert_eq!(counts.iter().sum::<usize>(), content.len());
}

#[test]
fn empty_input_gives_empty_map() {
    let counts = count_chars(&Vec::new());
    assert_eq!(counts.iter().sum::<usize>(), 0);
    let map = scan_file(Vec::new());
    assert_eq!(map.len(), 0);
    assert_eq!(map.entries(), Vec::new());
    assert_eq!(map.to_json(), Ok("{}".to_string()));
}

#[test]
fn scenario_aab() {
    let map = scan_file(b"aab".to_vec());
    assert_eq!(map.entries(), vec![(1, 'b'), (2, 'a')]);
    assert_eq!(map.get(1), Some('b'));
    assert_eq!(map.get(2), Some('a'));
    assert_eq!(map.get(3), None);
    assert_eq!(map.to_json(), Ok("{\"1\":\"b\",\"2\":\"a\"}".to_string()));
}

#[test]
fn scenario_aabb_collides() {
    let map = scan_file(b"aabb".to_vec());
    assert_eq!(map.len(), 1);
    let winner = map.get(2).unwrap();
    assert!(winner == 'a' || winner == 'b');
    assert_eq!(map.get(1), None);
}

#[test]
fn collision_keeps_largest_byte() {
    let map = scan_file(b"xyzzyx".to_vec());
    assert_eq!(map.entries(), vec![(2, 'z')]);
}

#[test]
fn distinct_counts_keep_every_char() {
    let map = scan_file(b"cbcacb".to_vec());
    assert_eq!(map.entries(), vec![(1, 'a'), (2, 'b'), (3, 'c')]);
    let entries = map.entries();
    for w in entries.windows(2) {
        assert!(w[0].0 < w[1].0);
    }
}

#[test]
fn bytes_read_as_latin1_chars() {
    let map = scan_file(vec![0xe9, 0xe9, 0x00]);
    assert_eq!(map.entries(), vec![(1, '\u{0}'), (2, '\u{e9}')]);
}

#[test]
fn json_round_trip() {
    let map = scan_file(b"\"\"\\q\x01\x01\x01\xe9\xe9\xe9\xe9".to_vec());
    let text = map.to_json().unwrap();
    let parsed: std::collections::BTreeMap<usize, char> = serde_json::from_str(&text).unwrap();
    let back: Vec<(usize, char)> = parsed.into_iter().collect();
    assert_eq!(back, map.entries());
    assert_eq!(back, vec![(1, 'q'), (2, '"'), (3, '\u{1}'), (4, '\u{e9}')]);
}

#[test]
fn json_keys_ascend_numerically() {
    let mut content = vec![b'a'; 10];
    content.extend(vec![b'b'; 9]);
    let map = scan_file(content);
    assert_eq!(map.to_json(), Ok("{\"9\":\"b\",\"10\":\"a\"}".to_string()));
}
