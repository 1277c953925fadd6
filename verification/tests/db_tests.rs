use sqlite_clone::btree::Record;
use sqlite_clone::datatypes::{DataType, Value, VarInt};
use sqlite_clone::db::Database;
use sqlite_clone::pager::Pager;
use sqlite_clone::DbOptions;

const PAGE: usize = 512;

fn file_header(num_pages: u32, first_freelist: u32, num_freelist: u32) -> Vec<u8> {
    let mut h = Vec::new();
    h.extend_from_slice(b"SQLite format 3\0");
    h.extend_from_slice(&(PAGE as u16).to_be_bytes());
    h.push(1);
    h.push(1);
    h.push(0); // reserved space
    h.push(64);
    h.push(32);
    h.push(32);
    h.extend_from_slice(&1u32.to_be_bytes()); // change counter
    h.extend_from_slice(&num_pages.to_be_bytes());
    h.extend_from_slice(&first_freelist.to_be_bytes());
    h.extend_from_slice(&num_freelist.to_be_bytes());
    h.extend_from_slice(&1u32.to_be_bytes()); // schema cookie
    h.extend_from_slice(&4u32.to_be_bytes()); // schema format
    h.extend_from_slice(&0u32.to_be_bytes());
    h.extend_from_slice(&0u32.to_be_bytes());
    h.extend_from_slice(&1u32.to_be_bytes()); // utf-8
    h.extend_from_slice(&0u32.to_be_bytes());
    h.extend_from_slice(&0u32.to_be_bytes());
    h.extend_from_slice(&0u32.to_be_bytes());
    h.extend_from_slice(&[0u8; 20]);
    h.extend_from_slice(&1u32.to_be_bytes()); // version valid for
    h.extend_from_slice(&3035004u32.to_be_bytes());
    h
}

/// Lays a leaf page out of the given cells: header at `hdr_off`, cell
/// pointers after it, cell bodies packed at the end of the page.
fn build_leaf_page(page: &mut [u8], hdr_off: usize, type_byte: u8, cells: &[Vec<u8>]) {
    let total: usize = cells.iter().map(|c| c.len()).sum();
    let mut pos = PAGE - total;
    let cell_start = pos as u16;
    page[hdr_off] = type_byte;
    page[hdr_off + 3..hdr_off + 5].copy_from_slice(&(cells.len() as u16).to_be_bytes());
    page[hdr_off + 5..hdr_off + 7].copy_from_slice(&cell_start.to_be_bytes());
    for (i, c) in cells.iter().enumerate() {
        page[hdr_off + 8 + 2 * i..hdr_off + 10 + 2 * i]
            .copy_from_slice(&(pos as u16).to_be_bytes());
        page[pos..pos + c.len()].copy_from_slice(c);
        pos += c.len();
    }
}

fn table_leaf_cell(row_id: i64, rec: &Record) -> Vec<u8> {
    let payload = rec.serialize();
    let mut c = VarInt::new(payload.len() as i64).serialize();
    c.extend_from_slice(&VarInt::new(row_id).serialize());
    c.extend_from_slice(&payload);
    c
}

fn index_leaf_cell(rec: &Record) -> Vec<u8> {
    let payload = rec.serialize();
    let mut c = VarInt::new(payload.len() as i64).serialize();
    c.extend_from_slice(&payload);
    c
}

fn text_record(s: &str) -> Record {
    Record::new(
        vec![DataType::String(s.len())],
        vec![Value::String(s.to_string())],
    )
}

fn schema_record(kind: &str, name: &str, tbl: &str, root: i8) -> Record {
    Record::new(
        vec![
            DataType::String(kind.len()),
            DataType::String(name.len()),
            DataType::String(tbl.len()),
            DataType::Int8(1),
            DataType::String(1),
        ],
        vec![
            Value::String(kind.to_string()),
            Value::String(name.to_string()),
            Value::String(tbl.to_string()),
            Value::Int8(root),
            Value::String("s".to_string()),
        ],
    )
}

/// A three-page database: the schema on page 1 declares the table
/// `users` rooted at page 2 and the index `idx_users_name` at page 3;
/// `users` holds rows (1, "a"), (2, "b"), (3, "c").
fn fixture() -> Vec<u8> {
    let mut file = vec![0u8; 3 * PAGE];
    file[..100].copy_from_slice(&file_header(3, 0, 0));

    let schema_cells = vec![
        table_leaf_cell(1, &schema_record("table", "users", "users", 2)),
        table_leaf_cell(2, &schema_record("index", "idx_users_name", "users", 3)),
    ];
    build_leaf_page(&mut file[..PAGE], 100, 0x0d, &schema_cells);

    let user_cells = vec![
        table_leaf_cell(1, &text_record("a")),
        table_leaf_cell(2, &text_record("b")),
        table_leaf_cell(3, &text_record("c")),
    ];
    build_leaf_page(&mut file[PAGE..2 * PAGE], 0, 0x0d, &user_cells);

    let name_entry = |s: &str, rid: i8| {
        Record::new(
            vec![DataType::String(s.len()), DataType::Int8(1)],
            vec![Value::String(s.to_string()), Value::Int8(rid)],
        )
    };
    let index_cells = vec![
        index_leaf_cell(&name_entry("a", 1)),
        index_leaf_cell(&name_entry("b", 2)),
        index_leaf_cell(&name_entry("c", 3)),
    ];
    build_leaf_page(&mut file[2 * PAGE..], 0, 0x0a, &index_cells);
    file
}

/// Lays an interior page out of `(child, key)` cells plus the
/// right-most child pointer.
fn build_table_interior_page(page: &mut [u8], hdr_off: usize, cells: &[(u32, i64)], right: u32) {
    let encoded: Vec<Vec<u8>> = cells
        .iter()
        .map(|(child, key)| {
            let mut c = child.to_be_bytes().to_vec();
            c.extend_from_slice(&VarInt::new(*key).serialize());
            c
        })
        .collect();
    let total: usize = encoded.iter().map(|c| c.len()).sum();
    let mut pos = PAGE - total;
    page[hdr_off] = 0x05;
    page[hdr_off + 3..hdr_off + 5].copy_from_slice(&(encoded.len() as u16).to_be_bytes());
    page[hdr_off + 5..hdr_off + 7].copy_from_slice(&(pos as u16).to_be_bytes());
    page[hdr_off + 8..hdr_off + 12].copy_from_slice(&right.to_be_bytes());
    for (i, c) in encoded.iter().enumerate() {
        page[hdr_off + 12 + 2 * i..hdr_off + 14 + 2 * i]
            .copy_from_slice(&(pos as u16).to_be_bytes());
        page[pos..pos + c.len()].copy_from_slice(c);
        pos += c.len();
    }
}

/// A four-page database whose table spans an interior page: the root at
/// page 2 points left to page 3 (rows 1 and 2, keys up to 2) and right
/// to page 4 (row 3).
fn deep_fixture() -> Vec<u8> {
    let mut file = vec![0u8; 4 * PAGE];
    file[..100].copy_from_slice(&file_header(4, 0, 0));
    let schema_cells = vec![table_leaf_cell(1, &schema_record("table", "users", "users", 2))];
    build_leaf_page(&mut file[..PAGE], 100, 0x0d, &schema_cells);
    build_table_interior_page(&mut file[PAGE..2 * PAGE], 0, &[(3, 2)], 4);
    let left_cells = vec![
        table_leaf_cell(1, &text_record("a")),
        table_leaf_cell(2, &text_record("b")),
    ];
    build_leaf_page(&mut file[2 * PAGE..3 * PAGE], 0, 0x0d, &left_cells);
    let right_cells = vec![table_leaf_cell(3, &text_record("c"))];
    build_leaf_page(&mut file[3 * PAGE..], 0, 0x0d, &right_cells);
    file
}

#[test]
fn descent_crosses_interior_pages() {
    let mut db = Database::new(deep_fixture()).unwrap();
    let users = db.table("users").unwrap();
    let expect = ["a", "b", "c"];
    for rid in 1..=3i64 {
        let rec = users.get_row(&mut db.pager, VarInt::new(rid)).unwrap();
        assert!(rec.values[0] == Value::String(expect[(rid - 1) as usize].to_string()));
    }
    assert!(users.get_row(&mut db.pager, VarInt::new(4)).is_none());
    assert!(users.get_row(&mut db.pager, VarInt::new(0)).is_none());
}

#[test]
fn scan_crosses_interior_pages_in_order() {
    let mut db = Database::new(deep_fixture()).unwrap();
    let users = db.table("users").unwrap();
    let rows = users.list_records(&mut db.pager);
    assert_eq!(rows.len(), 3);
    for (i, (rid, _)) in rows.iter().enumerate() {
        assert_eq!(rid.0, (i + 1) as i64);
    }
    // every scanned pair is found again by the keyed descent
    for (rid, rec) in rows {
        let found = users.get_row(&mut db.pager, rid).unwrap();
        assert!(found.values[0] == rec.values[0]);
    }
}

#[test]
fn index_descent_crosses_interior_pages() {
    // page 2 is an index interior: one cell (child page 3, entry ("b", 2))
    // and page 4 as the right-most child
    let mut file = vec![0u8; 4 * PAGE];
    file[..100].copy_from_slice(&file_header(4, 0, 0));
    let schema_cells = vec![table_leaf_cell(
        1,
        &schema_record("index", "idx_users_name", "users", 2),
    )];
    build_leaf_page(&mut file[..PAGE], 100, 0x0d, &schema_cells);

    let name_entry = |s: &str, rid: i8| {
        Record::new(
            vec![DataType::String(s.len()), DataType::Int8(1)],
            vec![Value::String(s.to_string()), Value::Int8(rid)],
        )
    };
    let interior_cell = {
        let payload = name_entry("b", 2).serialize();
        let mut c = 3u32.to_be_bytes().to_vec();
        c.extend_from_slice(&VarInt::new(payload.len() as i64).serialize());
        c.extend_from_slice(&payload);
        c
    };
    let total = interior_cell.len();
    let pos = PAGE - total;
    let pg2 = &mut file[PAGE..2 * PAGE];
    pg2[0] = 0x02; // index interior
    pg2[3..5].copy_from_slice(&1u16.to_be_bytes());
    pg2[5..7].copy_from_slice(&(pos as u16).to_be_bytes());
    pg2[8..12].copy_from_slice(&4u32.to_be_bytes()); // right-most child
    pg2[12..14].copy_from_slice(&(pos as u16).to_be_bytes());
    pg2[pos..pos + total].copy_from_slice(&interior_cell);

    let left = vec![index_leaf_cell(&name_entry("a", 1))];
    build_leaf_page(&mut file[2 * PAGE..3 * PAGE], 0, 0x0a, &left);
    let right = vec![index_leaf_cell(&name_entry("c", 3))];
    build_leaf_page(&mut file[3 * PAGE..], 0, 0x0a, &right);

    let mut db = Database::new(file).unwrap();
    let idx = db.index("idx_users_name").unwrap();
    let probe = |s: &str| {
        Record::new(
            vec![DataType::String(s.len())],
            vec![Value::String(s.to_string())],
        )
    };
    // "b" matches the interior cell itself; "a" descends left, "c" right
    let b = idx.get_index(&mut db.pager, probe("b")).unwrap();
    assert!(b.values[1] == Value::Int8(2));
    let a = idx.get_index(&mut db.pager, probe("a")).unwrap();
    assert!(a.values[1] == Value::Int8(1));
    let c = idx.get_index(&mut db.pager, probe("c")).unwrap();
    assert!(c.values[1] == Value::Int8(3));
    assert!(idx.get_index(&mut db.pager, probe("z")).is_none());
}

#[test]
fn open_database_builds_catalog() {
    let db = Database::new(fixture()).unwrap();
    assert_eq!(db.tables.len(), 1);
    assert_eq!(db.indexes.len(), 1);
    assert_eq!(db.tables[0].name.as_str(), "users");
    assert_eq!(db.tables[0].root_page, 2);
    assert_eq!(db.indexes[0].name.as_str(), "idx_users_name");
    assert_eq!(db.indexes[0].root_page, 3);
    assert_eq!(db.db_options().page_size, PAGE);
}

#[test]
fn get_row_finds_the_record() {
    let mut db = Database::new(fixture()).unwrap();
    let users = db.table("users").unwrap();
    let rec = users.get_row(&mut db.pager, VarInt::new(2)).unwrap();
    assert!(rec.values[0] == Value::String("b".to_string()));
    assert!(users.get_row(&mut db.pager, VarInt::new(5)).is_none());
}

#[test]
fn scan_rows_yields_all_rows_in_order() {
    let mut db = Database::new(fixture()).unwrap();
    let users = db.table("users").unwrap();
    let rows = users.list_records(&mut db.pager);
    assert_eq!(rows.len(), 3);
    let expect = ["a", "b", "c"];
    for (i, (rid, rec)) in rows.iter().enumerate() {
        assert_eq!(rid.0, (i + 1) as i64);
        assert!(rec.values[0] == Value::String(expect[i].to_string()));
    }
}

#[test]
fn scan_then_lookup_agree() {
    // every pair the scan yields is found again by get_row
    let mut db = Database::new(fixture()).unwrap();
    let users = db.table("users").unwrap();
    let rows = users.list_records(&mut db.pager);
    for (rid, rec) in rows {
        let found = users.get_row(&mut db.pager, rid).unwrap();
        assert!(found.values[0] == rec.values[0]);
    }
}

#[test]
fn index_probe_with_prefix_key() {
    // a one-column search key matches the index entry that trails the
    // row id, and the entry's last column carries that row id
    let mut db = Database::new(fixture()).unwrap();
    let idx = db.index("idx_users_name").unwrap();
    let key = Record::new(
        vec![DataType::String(1)],
        vec![Value::String("b".to_string())],
    );
    let entry = idx.get_index(&mut db.pager, key).unwrap();
    assert!(entry.values[1] == Value::Int8(2));
    let missing = Record::new(
        vec![DataType::String(1)],
        vec![Value::String("z".to_string())],
    );
    assert!(idx.get_index(&mut db.pager, missing).is_none());
}

#[test]
fn index_scan_entries_are_found_with_prefix_keys() {
    // for every entry of the index, probing with the prefix that drops
    // the trailing row id returns that entry
    let mut db = Database::new(fixture()).unwrap();
    let idx = db.index("idx_users_name").unwrap();
    for name in ["a", "b", "c"] {
        let key = Record::new(
            vec![DataType::String(1)],
            vec![Value::String(name.to_string())],
        );
        let entry = idx.get_index(&mut db.pager, key).unwrap();
        assert!(entry.values[0] == Value::String(name.to_string()));
    }
}

#[test]
fn missing_objects_are_not_found() {
    let db = Database::new(fixture()).unwrap();
    assert_eq!(db.table("nobody").unwrap_err(), sqlite_clone::Error::NotFound);
    assert_eq!(db.index("users").unwrap_err(), sqlite_clone::Error::NotFound);
}

#[test]
fn pager_reads_and_caches_pages() {
    let file = fixture();
    let opts = DbOptions::deserialize(&file).unwrap();
    let mut pager = Pager::new(file.clone(), &opts).unwrap();
    assert_eq!(pager.num_pages, 3);
    let raw = pager.read_from_file(2).unwrap();
    assert_eq!(raw, file[PAGE..2 * PAGE].to_vec());
    assert!(pager.read_from_file(0).is_err());
    assert!(pager.read_from_file(4).is_err());
    // a page served twice comes back as the same parse
    let first = pager.get_page(2).unwrap();
    let second = pager.get_page(2).unwrap();
    assert_eq!(first.serialize(), second.serialize());
    assert_eq!(first.serialize(), file[PAGE..2 * PAGE].to_vec());
}

#[test]
fn every_fixture_page_round_trips() {
    // page-by-page round trip over the whole file: concatenating the
    // re-serialized pages, page 1 first, reproduces the input bytes
    let file = fixture();
    let opts = DbOptions::deserialize(&file).unwrap();
    let mut pager = Pager::new(file.clone(), &opts).unwrap();
    let mut out = Vec::new();
    for pg in 1..=pager.num_pages {
        out.extend(pager.get_page(pg).unwrap().serialize());
    }
    assert_eq!(out, file);
}

#[test]
fn pager_insert_replaces_cached_page() {
    let file = fixture();
    let opts = DbOptions::deserialize(&file).unwrap();
    let mut pager = Pager::new(file.clone(), &opts).unwrap();
    let page = pager.get_page(2).unwrap();
    pager.insert(2, page);
    let back = pager.get_page(2).unwrap();
    assert_eq!(back.serialize(), file[PAGE..2 * PAGE].to_vec());
}

#[test]
fn freelist_walk_collects_trunks_and_leaves() {
    // a freelist whose trunk at page 2 lists the leaf page 3
    let mut file = vec![0u8; 3 * PAGE];
    file[..100].copy_from_slice(&file_header(3, 2, 2));
    build_leaf_page(&mut file[..PAGE], 100, 0x0d, &[]);
    file[PAGE..PAGE + 4].copy_from_slice(&0u32.to_be_bytes());
    file[PAGE + 4..PAGE + 8].copy_from_slice(&1u32.to_be_bytes());
    file[PAGE + 8..PAGE + 12].copy_from_slice(&3u32.to_be_bytes());
    let opts = DbOptions::deserialize(&file).unwrap();
    let pager = Pager::new(file, &opts).unwrap();
    let pages = pager.freelist_pages(opts.first_freelist as usize).unwrap();
    assert_eq!(pages, vec![2, 3]);
    // no page of a live B-tree shows up in the freelist
    assert!(!pages.contains(&1));
}

#[test]
fn freelist_empty_when_no_trunk() {
    let db = Database::new(fixture()).unwrap();
    let pages = db.pager.freelist_pages(db.options.first_freelist as usize).unwrap();
    assert!(pages.is_empty());
}
