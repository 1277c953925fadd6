//! The database facade: opens a database image, parses the file header,
//! walks the schema B-tree rooted at page 1, and routes lookups to the
//! tables' and indexes' root pages by name.
use crate::btree::{scan_matches, spec_scan, Btree, Record};
use crate::datatypes::VarInt;
use crate::datatypes::{spec_int_val, Value};
use crate::pager::{pager_wf, Pager};
use crate::{spec_db_options, DbOptions, Error};
use vstd::prelude::*;
use vstd::string::StringSliceAdditionalSpecFns;
use vstd::utf8::encode_utf8;

verus! {

/// One schema object: its name, the table it belongs to, and the page
/// its B-tree roots at.
#[derive(Debug, Clone)]
pub struct CatalogEntry {
    pub name: String,
    pub table_name: String,
    pub root_page: usize,
}

/// An open database: the decoded header, the pager over the file image,
/// and the catalogs collected from the schema B-tree.
pub struct Database {
    pub options: DbOptions,
    pub pager: Pager,
    pub tables: Vec<CatalogEntry>,
    pub indexes: Vec<CatalogEntry>,
}

/// An open database stands over a pager that satisfies its invariant
/// with the header's own geometry.
pub open spec fn db_wf(db: Database) -> bool {
    &&& pager_wf(db.pager)
    &&& db.pager.page_size == db.options.page_size
    &&& db.pager.reserved_space == db.options.reserved_space
}

/// The position of the first catalog entry carrying the name, searched
/// from entry `i` on; names compare in binary collation, by their UTF-8
/// bytes.
pub open spec fn spec_catalog_find(entries: Seq<CatalogEntry>, name: Seq<char>, i: nat) -> Option<
    int,
>
    decreases entries.len() - i,
{
    if i >= entries.len() {
        None
    } else if encode_utf8(entries[i as int].name@) == encode_utf8(name) {
        Some(i as int)
    } else {
        spec_catalog_find(entries, name, i + 1)
    }
}

/// Whether `db`'s two catalogs hold exactly the tables and indexes the
/// given schema rows declare, in row order.
pub open spec fn catalogs_of_rows(db: Database, rows: Seq<(VarInt, Record)>) -> bool {
    &&& db.tables@.len() == spec_schema_sel(rows, "table".spec_bytes(), 0).len()
    &&& forall|k: int|
        0 <= k < db.tables@.len() ==> spec_entry_of_row(
            #[trigger] db.tables@[k],
            rows[spec_schema_sel(rows, "table".spec_bytes(), 0)[k]].1,
        )
    &&& db.indexes@.len() == spec_schema_sel(rows, "index".spec_bytes(), 0).len()
    &&& forall|k: int|
        0 <= k < db.indexes@.len() ==> spec_entry_of_row(
            #[trigger] db.indexes@[k],
            rows[spec_schema_sel(rows, "index".spec_bytes(), 0)[k]].1,
        )
}

/// Whether a schema row declares an object of the given kind (the kind
/// is the UTF-8 of `"table"` or `"index"`): five columns whose first
/// holds the kind, whose second and third name the object and its
/// table, and whose fourth holds a usable root page number.
pub open spec fn spec_schema_row(rec: Record, kind: Seq<u8>) -> bool {
    &&& rec.values@.len() >= 4
    &&& (rec.values@[0] matches Value::String(t) && encode_utf8(t@) == kind)
    &&& rec.values@[1] is String
    &&& rec.values@[2] is String
    &&& (spec_int_val(rec.values@[3]) matches Some(rp) && 0 <= rp <= usize::MAX)
}

/// Whether `e` is the catalog entry a schema row declares.
pub open spec fn spec_entry_of_row(e: CatalogEntry, rec: Record) -> bool {
    &&& (rec.values@[1] matches Value::String(nm) && e.name@ == nm@)
    &&& (rec.values@[2] matches Value::String(tn) && e.table_name@ == tn@)
    &&& (spec_int_val(rec.values@[3]) matches Some(rp) && e.root_page == rp)
}

/// Tests two byte strings for equality.
fn db_bytes_eq(a: &[u8], b: &[u8]) -> (r: bool)
    ensures
        r == (a@ == b@),
{
    if a.len() != b.len() {
        return false;
    }
    let mut i: usize = 0;
    while i < a.len()
        invariant
            i <= a@.len() == b@.len(),
            forall|j: int| 0 <= j < i ==> a@[j] == b@[j],
        decreases a@.len() - i,
    {
        if a[i] != b[i] {
            return false;
        }
        i = i + 1;
    }
    proof {
        assert(a@ =~= b@);
    }
    true
}

/// The indices of the schema rows that declare an object of the given
/// kind, in row order, searched from row `j` on.
pub open spec fn spec_schema_sel(rows: Seq<(VarInt, Record)>, kind: Seq<u8>, j: nat) -> Seq<int>
    decreases rows.len() - j,
{
    if j >= rows.len() {
        Seq::empty()
    } else if spec_schema_row(rows[j as int].1, kind) {
        seq![j as int] + spec_schema_sel(rows, kind, j + 1)
    } else {
        spec_schema_sel(rows, kind, j + 1)
    }
}

/// Collects the catalog entries of one kind out of the schema rows, in
/// row order: one entry per row of the kind, each carrying that row's
/// names and root page, and nothing else enters.
#[verifier::loop_isolation(false)]
fn build_catalog(rows: &Vec<(VarInt, Record)>, kind: &str) -> (r: Vec<CatalogEntry>)
    ensures
        r@.len() == spec_schema_sel(rows@, kind.spec_bytes(), 0).len(),
        forall|k: int|
            0 <= k < r@.len() ==> spec_entry_of_row(
                #[trigger] r@[k],
                rows@[spec_schema_sel(rows@, kind.spec_bytes(), 0)[k]].1,
            ),
{
    let ghost kb = kind.spec_bytes();
    let ghost sel = spec_schema_sel(rows@, kb, 0);
    let kind_bytes = kind.as_bytes();
    let mut out: Vec<CatalogEntry> = Vec::new();
    let mut j: usize = 0;
    proof {
        assert(Seq::<int>::empty() + spec_schema_sel(rows@, kb, 0) =~= spec_schema_sel(
            rows@,
            kb,
            0,
        ));
    }
    let ghost mut taken: Seq<int> = Seq::empty();
    while j < rows.len()
        invariant
            j <= rows@.len(),
            out@.len() == taken.len(),
            sel == taken + spec_schema_sel(rows@, kb, j as nat),
            forall|k: int|
                0 <= k < out@.len() ==> 0 <= #[trigger] taken[k] < rows@.len()
                    && spec_entry_of_row(out@[k], rows@[taken[k]].1),
        decreases rows@.len() - j,
    {
        let rec = &rows[j].1;
        let mut added: Option<CatalogEntry> = None;
        if rec.values.len() >= 4 {
            let kind_ok = match &rec.values[0] {
                Value::String(t) => db_bytes_eq(t.as_str().as_bytes(), kind_bytes),
                _ => false,
            };
            if kind_ok {
                let name = match &rec.values[1] {
                    Value::String(nm) => Some(nm.clone()),
                    _ => None,
                };
                let table_name = match &rec.values[2] {
                    Value::String(tn) => Some(tn.clone()),
                    _ => None,
                };
                let root = match rec.values[3].get_int_val() {
                    Some(rp) => {
                        if rp >= 0 && (rp as u64) <= (usize::MAX as u64) {
                            Some(rp as usize)
                        } else {
                            None
                        }
                    },
                    None => None,
                };
                match (name, table_name, root) {
                    (Some(nm), Some(tn), Some(rp)) => {
                        added = Some(CatalogEntry { name: nm, table_name: tn, root_page: rp });
                    },
                    _ => {},
                }
            }
        }
        match added {
            Some(e) => {
                proof {
                    assert(spec_schema_row(rows@[j as int].1, kb));
                    assert(spec_entry_of_row(e, rows@[j as int].1));
                    assert((taken + (seq![j as int] + spec_schema_sel(rows@, kb, (j + 1) as nat)))
                        =~= (taken.push(j as int) + spec_schema_sel(rows@, kb, (j + 1) as nat)));
                }
                out.push(e);
                proof {
                    taken = taken.push(j as int);
                }
            },
            None => {
                proof {
                    assert(!spec_schema_row(rows@[j as int].1, kb));
                }
            },
        }
        j = j + 1;
    }
    proof {
        assert(taken + Seq::<int>::empty() =~= taken);
        assert(taken =~= sel);
    }
    out
}

impl Database {
    /// Opens a database image: parses the 100-byte header, sets a pager
    /// over the image, and collects every table and index of the schema
    /// B-tree at page 1 into the catalogs.
    pub fn new(file: Vec<u8>) -> (r: Result<Database, Error>)
        ensures
            (match spec_db_options(file@) {
                Err(e) => r == Err::<Database, Error>(e),
                Ok(opts) => {
                    if file@.len() % (opts.page_size as nat) != 0 {
                        r == Err::<Database, Error>(Error::InvalidHeader)
                    } else {
                        r matches Ok(db) && db_wf(db) && db.options == opts && db.pager.file@
                            == file@ && (exists|rows: Seq<(VarInt, Record)>|
                            #![trigger catalogs_of_rows(db, rows)]
                            {
                                &&& scan_matches(
                                    rows,
                                    spec_scan(
                                        file@,
                                        opts.page_size as nat,
                                        opts.reserved_space as nat,
                                        1,
                                        (file@.len() / (opts.page_size as nat) + 1) as nat,
                                    ),
                                )
                                &&& catalogs_of_rows(db, rows)
                            })
                    }
                },
            }),
    {
        let options = match DbOptions::deserialize(file.as_slice()) {
            Ok(o) => o,
            Err(e) => {
                return Err(e);
            },
        };
        let mut pager = match Pager::new(file, &options) {
            Ok(p) => p,
            Err(e) => {
                return Err(e);
            },
        };
        let schema = Btree::new("sqlite_schema".to_owned(), "sqlite_schema".to_owned(), 1);
        let rows = schema.list_records(&mut pager);
        let tables = build_catalog(&rows, "table");
        let indexes = build_catalog(&rows, "index");
        let db = Database { options, pager, tables, indexes };
        proof {
            assert(catalogs_of_rows(db, rows@));
        }
        Ok(db)
    }

    /// The decoded file header.
    pub fn db_options(&self) -> (r: DbOptions)
        ensures
            r == self.options,
    {
        self.options
    }

    /// A navigator over the named table's B-tree; `NotFound` when the
    /// catalog holds no table of that name.
    pub fn table(&self, name: &str) -> (r: Result<Btree, Error>)
        ensures
            (match spec_catalog_find(self.tables@, name@, 0) {
                None => r == Err::<Btree, Error>(Error::NotFound),
                Some(k) => r matches Ok(bt) && bt.name@ == self.tables@[k].name@ && bt.table_name@
                    == self.tables@[k].table_name@ && bt.root_page == self.tables@[k].root_page,
            }),
    {
        catalog_lookup(&self.tables, name)
    }

    /// A navigator over the named index's B-tree; `NotFound` when the
    /// catalog holds no index of that name.
    pub fn index(&self, name: &str) -> (r: Result<Btree, Error>)
        ensures
            (match spec_catalog_find(self.indexes@, name@, 0) {
                None => r == Err::<Btree, Error>(Error::NotFound),
                Some(k) => r matches Ok(bt) && bt.name@ == self.indexes@[k].name@ && bt.table_name@
                    == self.indexes@[k].table_name@ && bt.root_page == self.indexes@[k].root_page,
            }),
    {
        catalog_lookup(&self.indexes, name)
    }
}

/// Finds the first entry of the given name and builds its navigator.
#[verifier::loop_isolation(false)]
fn catalog_lookup(entries: &Vec<CatalogEntry>, name: &str) -> (r: Result<Btree, Error>)
    ensures
        (match spec_catalog_find(entries@, name@, 0) {
            None => r == Err::<Btree, Error>(Error::NotFound),
            Some(k) => r matches Ok(bt) && bt.name@ == entries@[k].name@ && bt.table_name@
                == entries@[k].table_name@ && bt.root_page == entries@[k].root_page,
        }),
{
    let mut i: usize = 0;
    while i < entries.len()
        invariant
            i <= entries@.len(),
            spec_catalog_find(entries@, name@, 0) == spec_catalog_find(entries@, name@, i as nat),
        decreases entries@.len() - i,
    {
        let e = &entries[i];
        if db_bytes_eq(e.name.as_str().as_bytes(), name.as_bytes()) {
            return Ok(Btree::new(e.name.clone(), e.table_name.clone(), e.root_page));
        }
        i = i + 1;
    }
    Err(Error::NotFound)
}

} // verus!