use sqlite_clone::btree::{calc_payload_on_page, BtreePage, Freeblock, PageHeader, PageType};

fn leaf_page_with_one_cell() -> Vec<u8> {
    let mut b = vec![0u8; 512];
    b[0] = 0x0d; // table leaf
    b[3] = 0;
    b[4] = 1; // one cell
    let cell_start: u16 = 507;
    b[5..7].copy_from_slice(&cell_start.to_be_bytes());
    b[8..10].copy_from_slice(&cell_start.to_be_bytes());
    // cell: payload size 3, row id 7, record [header 2, serial type 1, value 5]
    b[507..512].copy_from_slice(&[0x03, 0x07, 0x02, 0x01, 0x05]);
    b
}

#[test]
fn page_parse_and_cells() {
    let bytes = leaf_page_with_one_cell();
    let page = BtreePage::deserialize(&bytes, 2, 512, 0).unwrap();
    assert!(page.is_leaf());
    assert!(!page.is_interior());
    assert_eq!(page.get_page_type(), "TableLeaf");
    match &page {
        BtreePage::TableLeaf(pg) => {
            assert_eq!(pg.header.num_cells, 1);
            assert_eq!(pg.header.cell_start, 507);
            let cells = pg.cells().unwrap();
            assert_eq!(cells.len(), 1);
            assert_eq!(cells[0].0 .0, 7);
            assert_eq!(cells[0].1.values.len(), 1);
        },
        _ => panic!("wrong page kind"),
    }
}

#[test]
fn page_round_trip() {
    // a page parsed from bytes and re-serialized equals the input
    let bytes = leaf_page_with_one_cell();
    let page = BtreePage::deserialize(&bytes, 2, 512, 0).unwrap();
    assert_eq!(page.serialize(), bytes);
}

#[test]
fn page_one_round_trip_keeps_file_header() {
    // on page 1 the B-tree header starts at offset 100, and that is the
    // only way the page is special: its serialization reproduces the
    // whole page, the 100 file-header bytes included
    let mut b = vec![0u8; 512];
    for (i, x) in b.iter_mut().enumerate().take(100) {
        *x = (i % 251) as u8; // arbitrary file-header bytes, kept verbatim
    }
    b[100] = 0x0d;
    b[103] = 0;
    b[104] = 1;
    let cell_start: u16 = 507;
    b[105..107].copy_from_slice(&cell_start.to_be_bytes());
    b[108..110].copy_from_slice(&cell_start.to_be_bytes());
    b[507..512].copy_from_slice(&[0x03, 0x07, 0x02, 0x01, 0x05]);
    let page = BtreePage::deserialize(&b, 1, 512, 0).unwrap();
    assert_eq!(page.serialize(), b);
}

#[test]
fn page_unknown_type_byte_is_malformed() {
    let mut b = vec![0u8; 512];
    b[0] = 0x42;
    assert_eq!(
        BtreePage::deserialize(&b, 2, 512, 0).unwrap_err(),
        sqlite_clone::Error::MalformedPage
    );
}

#[test]
fn page_header_round_trip_interior() {
    let mut b = vec![0u8; 64];
    b[0] = 0x05; // table interior
    b[1] = 0x00;
    b[2] = 0x10; // first freeblock
    b[3] = 0;
    b[4] = 2; // two cells
    b[5] = 0x01;
    b[6] = 0x80; // cell content start
    b[7] = 3; // fragmented bytes
    b[8..12].copy_from_slice(&9u32.to_be_bytes()); // right-most child
    b[12..14].copy_from_slice(&400u16.to_be_bytes());
    b[14..16].copy_from_slice(&390u16.to_be_bytes());
    let h = PageHeader::deserialize(&b, 0).unwrap();
    assert_eq!(h.page_type, PageType::TableInterior);
    assert_eq!(h.first_freeblock, 0x10);
    assert_eq!(h.num_cells, 2);
    assert_eq!(h.cell_start, 0x180);
    assert_eq!(h.fragmented_bytes, 3);
    assert_eq!(h.right_pointer, Some(9));
    assert_eq!(h.cell_pointers, vec![400, 390]);
    assert_eq!(h.serialize(), b[..16].to_vec());
}

#[test]
fn page_type_codes() {
    assert_eq!(PageType::from_byte(0x02).unwrap(), PageType::IndexInterior);
    assert_eq!(PageType::from_byte(0x05).unwrap(), PageType::TableInterior);
    assert_eq!(PageType::from_byte(0x0a).unwrap(), PageType::IndexLeaf);
    assert_eq!(PageType::from_byte(0x0d).unwrap(), PageType::TableLeaf);
    assert!(PageType::from_byte(0x03).is_err());
    assert!(PageType::TableInterior.is_interior());
    assert!(!PageType::TableInterior.is_leaf());
    assert!(PageType::IndexLeaf.is_leaf());
}

#[test]
fn payload_threshold_values() {
    // U = 512: X = 477 for tables, M = 39; spills use K when it fits
    assert_eq!(calc_payload_on_page(512, 0, 100, false), 100);
    assert_eq!(calc_payload_on_page(512, 0, 477, false), 477);
    assert_eq!(calc_payload_on_page(512, 0, 500, false), 39);
    assert_eq!(calc_payload_on_page(512, 0, 550, false), 42);
    assert_eq!(calc_payload_on_page(512, 0, 1000, false), 39);
    // U = 512 index pages: X = 102; K = 103 misses, so the minimum holds
    assert_eq!(calc_payload_on_page(512, 0, 102, true), 102);
    assert_eq!(calc_payload_on_page(512, 0, 103, true), 39);
    assert_eq!(calc_payload_on_page(512, 0, 600, true), 92);
}

#[test]
fn payload_threshold_monotone_below_max() {
    let mut prev = 0;
    for p in 0..=477 {
        let v = calc_payload_on_page(512, 0, p, false);
        assert_eq!(v, p);
        assert!(v >= prev);
        prev = v;
    }
}

#[test]
fn freeblock_parse() {
    let fb = Freeblock::deserialize(&[0x01, 0x02, 0x00, 0x10]).unwrap();
    assert_eq!(fb.next, Some(0x0102));
    assert_eq!(fb.size, 0x10);
    let fb2 = Freeblock::deserialize(&[0x00, 0x00, 0x00, 0x08]).unwrap();
    assert_eq!(fb2.next, None);
    assert!(Freeblock::deserialize(&[0x00]).is_err());
}
