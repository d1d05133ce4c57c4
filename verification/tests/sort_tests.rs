use pagedb::data::decode_index;
use pagedb::data::decode_key;
use pagedb::data::decode_value;
use pagedb::data::Index;
use pagedb::data::Key;
use pagedb::data::Value;
use pagedb::iter::ForwardIterator;
use pagedb::iter::MergingIterBuilder;
use pagedb::iter::RewindableIterator;
use pagedb::iter::SeekableIterator;
use pagedb::page::PageKind;
use pagedb::page::PageMut;
use pagedb::page::PageRef;
use pagedb::page::PageTier;
use pagedb::sort::SortedPageBuilder;
use pagedb::sort::SortedPageIter;
use pagedb::sort::SortedPageRef;

fn put(raw: &[u8], lsn: u64, val: &[u8]) -> (Key, Value) {
    (Key::new(raw.to_vec(), lsn), Value::Put(val.to_vec()))
}

fn del(raw: &[u8], lsn: u64) -> (Key, Value) {
    (Key::new(raw.to_vec(), lsn), Value::Delete)
}

fn build_page(items: Vec<(Key, Value)>) -> SortedPageRef {
    let builder =
        SortedPageBuilder::new(PageTier::Leaf, PageKind::Data).with_slice(items);
    let size = builder.size();
    let mut page = PageMut::new(vec![0u8; size]);
    builder.build(&mut page);
    let page: PageRef = page.into();
    SortedPageRef::new(page)
}

#[test]
fn key_encoding_exact_bytes() {
    let key = Key::new(vec![1, 2], 5);
    assert_eq!(key.encode_size(), 14);
    let mut out = Vec::new();
    key.encode_to(&mut out);
    assert_eq!(out, vec![2, 0, 0, 0, 1, 2, 5, 0, 0, 0, 0, 0, 0, 0]);
    let (back, end) = decode_key(&out, 0).unwrap();
    assert_eq!(end, 14);
    assert_eq!(back.as_raw(), &vec![1, 2]);
    assert_eq!(back.lsn, 5);
}

#[test]
fn value_encoding_exact_bytes() {
    let put_value = Value::Put(vec![9, 8]);
    assert_eq!(put_value.encode_size(), 3);
    let mut out = Vec::new();
    put_value.encode_to(&mut out);
    assert_eq!(out, vec![0, 9, 8]);
    match decode_value(&out, 0, 3).unwrap() {
        Value::Put(b) => assert_eq!(b, vec![9, 8]),
        Value::Delete => panic!("decoded the wrong variant"),
    }

    let delete = Value::Delete;
    assert_eq!(delete.encode_size(), 1);
    let mut out = Vec::new();
    delete.encode_to(&mut out);
    assert_eq!(out, vec![1]);
    assert!(matches!(decode_value(&out, 0, 1), Some(Value::Delete)));

    // an unknown tag is rejected, not misread
    assert!(decode_value(&[7, 7], 0, 2).is_none());
}

#[test]
fn index_encoding_exact_bytes() {
    let index = Index::new(3, 4);
    assert_eq!(index.encode_size(), 16);
    let mut out = Vec::new();
    index.encode_to(&mut out);
    assert_eq!(out, vec![3, 0, 0, 0, 0, 0, 0, 0, 4, 0, 0, 0, 0, 0, 0, 0]);
    let (back, end) = decode_index(&out, 0).unwrap();
    assert_eq!(end, 16);
    assert_eq!(back, Index::new(3, 4));
}

#[test]
fn sorted_page_round_trip() {
    let items = vec![
        put(b"apple", 9, b"red"),
        put(b"apple", 3, b"green"),
        del(b"banana", 7),
        put(b"cherry", 1, b""),
    ];
    let expected: Vec<(Vec<u8>, u64, Option<Vec<u8>>)> = vec![
        (b"apple".to_vec(), 9, Some(b"red".to_vec())),
        (b"apple".to_vec(), 3, Some(b"green".to_vec())),
        (b"banana".to_vec(), 7, None),
        (b"cherry".to_vec(), 1, Some(Vec::new())),
    ];
    let page = build_page(items);
    assert_eq!(page.len(), 4);
    let mut iter = SortedPageIter::new(page);
    for _ in 0..2 {
        for (raw, lsn, val) in expected.iter() {
            let (k, v) = iter.next().unwrap();
            assert_eq!(k.as_raw(), raw);
            assert_eq!(k.lsn, *lsn);
            match (v, val) {
                (Value::Put(b), Some(want)) => assert_eq!(&b, want),
                (Value::Delete, None) => {}
                _ => panic!("value did not survive the round trip"),
            }
        }
        assert!(iter.next().is_none());
        iter.rewind();
    }
}

#[test]
fn empty_page_round_trip() {
    let page = build_page(Vec::new());
    assert_eq!(page.len(), 0);
    assert!(page.get(0).is_none());
}

#[test]
fn rank_finds_or_places() {
    let items = vec![
        put(b"b", 5, b"1"),
        put(b"d", 9, b"2"),
        put(b"d", 2, b"3"),
        put(b"f", 1, b"4"),
    ];
    let page = build_page(items);
    // exact matches
    assert_eq!(page.rank(&Key::new(b"b".to_vec(), 5)), Ok(0));
    assert_eq!(page.rank(&Key::new(b"d".to_vec(), 2)), Ok(2));
    // a missing key lands at its insertion point
    assert_eq!(page.rank(&Key::new(b"a".to_vec(), 1)), Err(0));
    assert_eq!(page.rank(&Key::new(b"c".to_vec(), 1)), Err(1));
    // higher sequence numbers come first within one raw key
    assert_eq!(page.rank(&Key::new(b"d".to_vec(), u64::MAX)), Err(1));
    assert_eq!(page.rank(&Key::new(b"d".to_vec(), 0)), Err(3));
    assert_eq!(page.rank(&Key::new(b"z".to_vec(), 1)), Err(4));
}

#[test]
fn page_iter_seek() {
    let items = vec![put(b"b", 1, b"1"), put(b"d", 1, b"2"), put(b"f", 1, b"3")];
    let page = build_page(items);
    let mut iter = SortedPageIter::new(page);
    assert!(iter.seek(&Key::new(b"d".to_vec(), 1)));
    let (k, _) = iter.next().unwrap();
    assert_eq!(k.as_raw(), &b"d".to_vec());
    assert!(!iter.seek(&Key::new(b"e".to_vec(), 1)));
    let (k, _) = iter.next().unwrap();
    assert_eq!(k.as_raw(), &b"f".to_vec());
    assert!(!iter.seek(&Key::new(b"g".to_vec(), 1)));
    assert!(iter.next().is_none());
}

#[test]
fn split_iter_partitions_the_page() {
    let items = vec![
        put(b"a", 1, b"1"),
        put(b"b", 1, b"2"),
        put(b"c", 1, b"3"),
        put(b"d", 1, b"4"),
    ];
    let page = build_page(items);
    let (sep, mut left, mut right) = page.into_split_iter().unwrap();
    assert_eq!(sep.as_raw(), &b"c".to_vec());
    assert_eq!(sep.lsn, u64::MAX);
    let mut seen = Vec::new();
    while let Some((k, _)) = left.next() {
        assert!(k.as_raw().as_slice() < sep.as_raw().as_slice());
        seen.push(k.as_raw().clone());
    }
    while let Some((k, _)) = right.next() {
        assert!(k.as_raw().as_slice() >= sep.as_raw().as_slice());
        seen.push(k.as_raw().clone());
    }
    assert_eq!(
        seen,
        vec![b"a".to_vec(), b"b".to_vec(), b"c".to_vec(), b"d".to_vec()]
    );
}

#[test]
fn split_iter_refuses_single_run() {
    // every key in the first half shares the middle raw key
    let items = vec![put(b"a", 9, b"1"), put(b"a", 5, b"2"), put(b"a", 1, b"3")];
    let page = build_page(items);
    assert!(page.into_split_iter().is_none());
}

#[test]
fn merging_two_pages() {
    // the earlier-added page wins ties on the full key
    let newer = build_page(vec![put(b"a", 2, b"new"), put(b"c", 2, b"new")]);
    let older = build_page(vec![put(b"a", 1, b"old"), put(b"b", 1, b"old")]);
    let mut builder = MergingIterBuilder::new();
    builder.add(SortedPageIter::new(newer));
    builder.add(SortedPageIter::new(older));
    let mut merged = builder.build();
    let expected: Vec<(&[u8], u64, &[u8])> = vec![
        (b"a", 2, b"new"),
        (b"a", 1, b"old"),
        (b"b", 1, b"old"),
        (b"c", 2, b"new"),
    ];
    for (raw, lsn, val) in expected {
        let (k, v) = merged.next().unwrap();
        assert_eq!(k.as_raw(), &raw.to_vec());
        assert_eq!(k.lsn, lsn);
        match v {
            Value::Put(b) => assert_eq!(b, val.to_vec()),
            Value::Delete => panic!("unexpected tombstone"),
        }
    }
    assert!(merged.next().is_none());
}
