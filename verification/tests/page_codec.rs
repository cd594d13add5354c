use bwtree::base::{PageKind, PagePtr, PageVer};
use bwtree::error::Error;
use bwtree::pagecache::PageAddr;

#[test]
fn page_ptr() {
    let mut ptr = PagePtr::new();
    ptr.set_default();
    assert_eq!(ptr.ver(), PageVer::new(0));
    ptr.set_ver(ptr.ver().next());
    assert_eq!(ptr.ver(), PageVer::new(1));
    assert_eq!(ptr.len(), 0);
    ptr.set_len(2);
    assert_eq!(ptr.len(), 2);
    assert_eq!(ptr.next(), 0);
    ptr.set_next(3);
    assert_eq!(ptr.next(), 3);
    assert_eq!(ptr.kind(), PageKind::Data);
    ptr.set_kind(PageKind::Split);
    assert_eq!(ptr.kind(), PageKind::Split);
    assert_eq!(ptr.is_index(), false);
    ptr.set_index(true);
    assert_eq!(ptr.is_index(), true);
    assert_eq!(ptr.content_size(), 0);
    ptr.set_content_size(4);
    assert_eq!(ptr.content_size(), 4);
}

#[test]
fn header_codec_round_trip() {
    let mut ptr = PagePtr::new();
    ptr.set_ver(PageVer::new(0x0102_0304_0506));
    ptr.set_len(7);
    ptr.set_kind(PageKind::Split);
    ptr.set_index(true);
    ptr.set_next(0xDEAD_BEEF_0BAD_F00D);
    ptr.set_content_size(0x0A0B_0C0D);
    let bytes = ptr.encode();
    assert_eq!(bytes.len(), 20);
    // little-endian version field
    assert_eq!(bytes[0], 0x06);
    assert_eq!(bytes[5], 0x01);
    assert_eq!(bytes[6], 7);
    let back = PagePtr::decode(&bytes).unwrap();
    assert_eq!(back.ver(), PageVer::new(0x0102_0304_0506));
    assert_eq!(back.len(), 7);
    assert_eq!(back.kind(), PageKind::Split);
    assert!(back.is_index());
    assert_eq!(back.next(), 0xDEAD_BEEF_0BAD_F00D);
    assert_eq!(back.content_size(), 0x0A0B_0C0D);
    assert_eq!(back.size(), 20 + 0x0A0B_0C0D);
}

#[test]
fn header_decode_rejects_bad_input() {
    let short = vec![0u8; 19];
    assert!(matches!(PagePtr::decode(&short), Err(Error::Corrupted(_))));
    let mut bad_kind = vec![0u8; 20];
    bad_kind[7] = 0x7F;
    assert!(matches!(PagePtr::decode(&bad_kind), Err(Error::Corrupted(_))));
}

#[test]
fn page_addr_tagging() {
    assert_eq!(PageAddr::decode(5), PageAddr::Mem(5));
    assert_eq!(PageAddr::decode(0x8000_0000_0000_0007), PageAddr::Disk(7));
    assert_eq!(PageAddr::Mem(5).encode(), 5);
    assert_eq!(PageAddr::decode(PageAddr::Disk(9).encode()), PageAddr::Disk(9));
    assert!(Error::Again.is_again());
    assert!(!Error::Alloc.is_again());
}
