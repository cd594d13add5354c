use bwtree::base::PageKind;
use bwtree::data_page::DataPageBuilder;
use bwtree::iter::{ForwardIter, RewindableIter, SliceIter};
use bwtree::pagecache::ScratchAlloc;

#[test]
fn data_page() {
    let data: Vec<(u64, u64)> = vec![(1, 0), (2, 0), (4, 0), (7, 0), (8, 0)];
    let mut iter = SliceIter::new(&data);
    let mut alloc = ScratchAlloc::new();
    let page = DataPageBuilder::new()
        .build_from_iter(&mut alloc, &mut iter)
        .unwrap();

    let hdr = page.as_ptr();
    assert_eq!(hdr.kind(), PageKind::Data);
    assert_eq!(hdr.is_index(), false);

    let page = page.as_ref();
    assert_eq!(page.seek(&0), Some(&(1, 0)));
    assert_eq!(page.seek_back(&0), None);
    assert_eq!(page.seek(&3), Some(&(4, 0)));
    assert_eq!(page.seek_back(&3), Some(&(2, 0)));
    assert_eq!(page.seek(&9), None);
    assert_eq!(page.seek_back(&9), Some(&(8, 0)));

    let mut iter = page.iter();
    assert_eq!(iter.last(), None);
    for _ in 0..2 {
        for item in data.iter() {
            assert_eq!(iter.next(), Some(item));
            assert_eq!(iter.last(), Some(item));
        }
        iter.rewind();
    }
}

#[test]
fn data_page_len_and_get() {
    let data: Vec<(u64, u64)> = vec![(10, 1), (20, 2)];
    let mut iter = SliceIter::new(&data);
    let mut alloc = ScratchAlloc::new();
    let page = DataPageBuilder::new()
        .build_from_iter(&mut alloc, &mut iter)
        .unwrap();
    let r = page.as_ref();
    assert_eq!(r.len(), 2);
    assert_eq!(r.get(0), Some(&(10, 1)));
    assert_eq!(r.get(1), Some(&(20, 2)));
    assert_eq!(r.get(2), None);
    // each u64 entry costs an offset slot plus two encoded words
    assert_eq!(page.as_ptr().content_size(), 2 * (4 + 8 + 8));
}

#[test]
fn data_page_empty_build() {
    let mut alloc = ScratchAlloc::new();
    let page = DataPageBuilder::new().build::<u64, u64, _>(&mut alloc).unwrap();
    let r = page.as_ref();
    assert_eq!(r.len(), 0);
    assert_eq!(r.seek(&1), None);
}

#[test]
fn builder_sizing_accounts_entries() {
    let mut b = DataPageBuilder::new();
    assert_eq!(b.size(), 0);
    b.add(&1u64, &2u64);
    assert_eq!(b.size(), 4 + 8 + 8);
    b.add(&3u64, &4u64);
    assert_eq!(b.size(), 2 * (4 + 8 + 8));
}
