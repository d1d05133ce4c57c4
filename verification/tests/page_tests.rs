use pagedb::page::PageBuild;
use pagedb::page::PageInfo;
use pagedb::page::PageKind;
use pagedb::page::PageMut;
use pagedb::page::PageTier;

#[test]
fn page() {
    let buf = vec![0u8; 17];
    let mut page = PageMut::new(buf);
    {
        let builder = PageBuild::new(PageKind::Data, PageTier::Leaf);
        builder.build(&mut page);
        assert!(page.as_page().tier().is_leaf());
        assert!(page.as_page().kind().is_data());
    }
    {
        let builder = PageBuild::new(PageKind::Split, PageTier::Inner);
        builder.build(&mut page);
        assert!(page.as_page().tier().is_inner());
        assert!(page.as_page().kind().is_split());
    }

    assert_eq!(page.as_page().epoch(), 0);
    page.set_epoch(1);
    assert_eq!(page.as_page().epoch(), 1);
    assert_eq!(page.as_page().chain_len(), 1);
    page.set_chain_len(2);
    assert_eq!(page.as_page().chain_len(), 2);
    assert_eq!(page.as_page().chain_next(), 0);
    page.set_chain_next(3);
    assert_eq!(page.as_page().chain_next(), 3);
    assert_eq!(page.as_page().size(), 17);
    assert_eq!(page.as_page().data().len(), 17);
    assert_eq!(page.as_page().content().len(), 1);
}

#[test]
fn page_header_bytes_exact() {
    let mut page = PageMut::new(vec![0u8; 16]);
    let builder = PageBuild::new(PageKind::Split, PageTier::Inner);
    builder.build(&mut page);
    page.set_epoch(0x0102_0304_0506);
    page.set_chain_len(7);
    page.set_chain_next(0x1122_3344_5566_7788);
    let buf = page.into_buf();
    // epoch, little-endian, low six bytes
    assert_eq!(&buf[0..6], &[0x06, 0x05, 0x04, 0x03, 0x02, 0x01]);
    // flags: kind Split (bit pattern 2) plus tier Inner (bit 0)
    assert_eq!(buf[6], 3);
    assert_eq!(buf[7], 7);
    assert_eq!(
        &buf[8..16],
        &[0x88, 0x77, 0x66, 0x55, 0x44, 0x33, 0x22, 0x11]
    );
}

#[test]
fn page_epoch_masked_to_48_bits() {
    let mut page = PageMut::new(vec![0u8; 16]);
    let builder = PageBuild::new(PageKind::Data, PageTier::Leaf);
    builder.build(&mut page);
    page.set_epoch(u64::MAX);
    assert_eq!(page.as_page().epoch(), (1u64 << 48) - 1);
}

#[test]
fn page_info_matches_header() {
    let mut page = PageMut::new(vec![0u8; 32]);
    let builder = PageBuild::new(PageKind::Data, PageTier::Inner);
    builder.build(&mut page);
    page.set_epoch(99);
    page.set_chain_len(4);
    page.set_chain_next(1234);
    let info = page.as_page().info();
    assert_eq!(info.epoch(), 99);
    assert_eq!(info.chain_len(), 4);
    assert_eq!(info.chain_next(), 1234);
    assert_eq!(info.size(), 32);
    assert!(info.tier().is_inner());
    assert!(info.kind().is_data());
}

#[test]
fn page_info_from_raw() {
    let info = PageInfo::from_raw(5, 6, 7);
    assert_eq!(info.value(), (5, 6));
    assert_eq!(info.size(), 7);
    assert_eq!(info.epoch(), 5);
    assert_eq!(info.chain_len(), 0);
}
