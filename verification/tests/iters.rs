use bwtree::iter::{ForwardIter, MergingIterBuilder, OptionIter, RewindableIter, SeekableIter, SliceIter};

#[test]
fn slice_iter() {
    let data: Vec<(u64, u64)> = vec![(1, 2), (3, 4)];
    let mut iter = SliceIter::new(&data);
    for _ in 0..2 {
        assert_eq!(iter.last(), None);
        assert_eq!(iter.next(), Some(&(1, 2)));
        assert_eq!(iter.last(), Some(&(1, 2)));
        assert_eq!(iter.next(), Some(&(3, 4)));
        assert_eq!(iter.last(), Some(&(3, 4)));
        assert_eq!(iter.next(), None);
        iter.rewind();
    }
}

#[test]
fn option_iter() {
    let mut iter = OptionIter::new(Some((1u64, 2u64)));
    for _ in 0..2 {
        assert_eq!(iter.last(), None);
        assert_eq!(iter.next(), Some(&(1, 2)));
        assert_eq!(iter.last(), Some(&(1, 2)));
        assert_eq!(iter.next(), None);
        iter.rewind();
    }
}

#[test]
fn merging_iter() {
    let data: Vec<Vec<(u64, u64)>> = vec![
        vec![(1, 0), (3, 0)],
        vec![(2, 0), (4, 0)],
        vec![(1, 0), (8, 0)],
        vec![(3, 0), (7, 0)],
    ];
    let sorted_data: Vec<(u64, u64)> = vec![
        (1, 0),
        (1, 0),
        (2, 0),
        (3, 0),
        (3, 0),
        (4, 0),
        (7, 0),
        (8, 0),
    ];

    let mut merger = MergingIterBuilder::new();
    for item in data.iter() {
        merger.add(SliceIter::new(item));
    }
    let mut iter = merger.build();

    // Tests next() and rewind()
    for _ in 0..2 {
        assert_eq!(iter.last(), None);
        for item in sorted_data.iter() {
            assert_eq!(iter.next(), Some(item));
            assert_eq!(iter.last(), Some(item));
        }
        assert_eq!(iter.next(), None);
        iter.rewind();
    }

    // Tests seek()
    iter.seek(&0);
    assert_eq!(iter.next(), Some(&(1, 0)));
    iter.seek(&9);
    assert_eq!(iter.next(), None);
    iter.seek(&1);
    assert_eq!(iter.next(), Some(&(1, 0)));
    iter.seek(&3);
    assert_eq!(iter.next(), Some(&(3, 0)));
    iter.seek(&5);
    assert_eq!(iter.next(), Some(&(7, 0)));
}

#[test]
fn option_iter_empty() {
    let mut iter: OptionIter<u64, u64> = OptionIter::new(None);
    assert_eq!(iter.last(), None);
    assert_eq!(iter.next(), None);
    iter.rewind();
    assert_eq!(iter.next(), None);
}

#[test]
fn merging_iter_no_children() {
    let mut iter: bwtree::iter::MergingIter<u64, u64, SliceIter<u64, u64>> =
        MergingIterBuilder::new().build();
    assert_eq!(iter.last(), None);
    assert_eq!(iter.next(), None);
    assert_eq!(iter.next(), None);
}
