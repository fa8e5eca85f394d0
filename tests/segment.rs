use persistent_string::util::BytesSegment;

#[test]
fn segment_constructors() {
    let s = BytesSegment::new(2, 5);
    assert_eq!((s.begin, s.end), (2, 5));
    assert_eq!(s.len(), 3);
    let s = BytesSegment::of_length(4, 0);
    assert_eq!((s.begin, s.end), (4, 4));
    assert_eq!(s.len(), 0);
    let s = BytesSegment::non_empty_of_length(1, 2);
    assert_eq!((s.begin, s.end), (1, 3));
    assert!(BytesSegment::try_non_empty_of_length(3, 0).is_none());
    let s = BytesSegment::try_non_empty_of_length(3, 4).unwrap();
    assert_eq!((s.begin, s.end), (3, 7));
}

#[test]
fn segment_as_str() {
    let buffer = "xxañ日yy".as_bytes();
    let s = BytesSegment::new(2, 8);
    assert_eq!(s.as_str(buffer), "añ日");
    assert_eq!(s.chars(buffer), vec!['a', 'ñ', '日']);
    assert_eq!(BytesSegment::new(0, 0).as_str(buffer), "");
}

#[test]
fn segment_split_at() {
    let buffer = "hello world".as_bytes();
    let s = BytesSegment::new(0, 11);
    let (left, right) = s.split_at(5);
    assert_eq!((left.begin, left.end), (0, 5));
    assert_eq!((right.begin, right.end), (5, 11));
    assert_eq!(left.as_str(buffer), "hello");
    assert_eq!(right.as_str(buffer), " world");
    let (empty, all) = s.split_at(0);
    assert_eq!(empty.len(), 0);
    assert_eq!(all.len(), 11);
}
