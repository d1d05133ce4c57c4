use pagedb::iter::ForwardIterator;
use pagedb::iter::ItemIter;
use pagedb::iter::MergingIterBuilder;
use pagedb::iter::RewindableIterator;
use pagedb::iter::SliceIter;

#[test]
fn item_iter() {
    let mut iter = ItemIter::new(1u64);
    for _ in 0..2 {
        assert_eq!(iter.next(), Some(1));
        assert_eq!(iter.next(), None);
        iter.rewind();
    }

    let mut iter: ItemIter<()> = None.into();
    for _ in 0..2 {
        assert_eq!(iter.next(), None);
        iter.rewind();
    }
}

#[test]
fn slice_iter() {
    let mut iter = SliceIter::new(vec![1u64, 2]);
    for _ in 0..2 {
        assert_eq!(iter.next(), Some(1));
        assert_eq!(iter.next(), Some(2));
        assert_eq!(iter.next(), None);
        iter.rewind();
    }
}

fn kv(items: &[(u64, &str)]) -> Vec<(u64, String)> {
    items.iter().map(|(k, v)| (*k, v.to_string())).collect()
}

#[test]
fn merging_iter() {
    let input = [
        kv(&[(1, "a"), (3, "a"), (7, "a")]),
        kv(&[(2, "b"), (4, "b")]),
        kv(&[(1, "c"), (2, "c"), (8, "c")]),
        kv(&[(3, "d"), (7, "d")]),
    ];
    let output = kv(&[
        (1, "a"),
        (1, "c"),
        (2, "b"),
        (2, "c"),
        (3, "a"),
        (3, "d"),
        (4, "b"),
        (7, "a"),
        (7, "d"),
        (8, "c"),
    ]);

    let mut builder = MergingIterBuilder::new();
    for slice in input.iter() {
        builder.add(SliceIter::new(slice.clone()));
    }
    let mut iter = builder.build();

    for _ in 0..2 {
        for item in output.iter() {
            assert_eq!(iter.next(), Some(item.clone()));
        }
        assert_eq!(iter.next(), None);
        iter.rewind();
    }

    assert!(!iter.seek(&0));
    assert_eq!(iter.next(), Some((1, "a".to_string())));
    assert_eq!(iter.next(), Some((1, "c".to_string())));
    assert!(!iter.seek(&9));
    assert_eq!(iter.next(), None);
    assert!(iter.seek(&1));
    assert_eq!(iter.next(), Some((1, "a".to_string())));
    assert!(iter.seek(&3));
    assert_eq!(iter.next(), Some((3, "a".to_string())));
    assert_eq!(iter.next(), Some((3, "d".to_string())));
    assert!(!iter.seek(&5));
    assert_eq!(iter.next(), Some((7, "a".to_string())));
    assert_eq!(iter.next(), Some((7, "d".to_string())));
    assert_eq!(iter.next(), Some((8, "c".to_string())));
}

#[test]
fn merging_iter_seek_only_at_or_after() {
    let mut builder = MergingIterBuilder::new();
    builder.add(SliceIter::new(kv(&[(1, "x"), (5, "x")])));
    builder.add(SliceIter::new(kv(&[(3, "y"), (5, "y"), (9, "y")])));
    let mut iter = builder.build();
    assert!(iter.seek(&5));
    assert_eq!(iter.next(), Some((5, "x".to_string())));
    assert_eq!(iter.next(), Some((5, "y".to_string())));
    assert_eq!(iter.next(), Some((9, "y".to_string())));
    assert_eq!(iter.next(), None);
}
