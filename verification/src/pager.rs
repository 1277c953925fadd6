//! The paged-storage layer: serves pages out of an in-memory database
//! image, keeps parsed pages in a bounded least-recently-used cache, and
//! walks the free-page list.
use crate::btree::{
    btree_page_wf, page_bytes, page_geometry_is, page_header_of, spec_page_offset,
    spec_parse_header, spec_payload_pre, BtreePage, HeaderView,
};
use crate::parsing::{be_u32, push_u32, spec_be_u32, spec_u32b};
use crate::{DbOptions, Error};
use vstd::arithmetic::mul::lemma_mul_inequality;
use vstd::prelude::*;
use vstd::slice::{slice_subrange, slice_to_vec};

verus! {

/// The name for what the page cache holds: its contents, keyed by page
/// number.
pub uninterp spec fn cache_contents(c: PageCache) -> Map<usize, BtreePage>;

/// The name for the capacity the page cache was made with: it never
/// holds more entries than this bound.
pub uninterp spec fn cache_bound(c: PageCache) -> nat;

/// A bounded least-recently-used cache of parsed pages.
#[verifier::external_body]
pub struct PageCache {
    cache: lru::LruCache<usize, BtreePage>,
}

impl PageCache {
    /// Relies on lru::LruCache::new: a fresh cache holds nothing.
    #[verifier::external_body]
    pub fn new(cap: usize) -> (r: Self)
        requires
            cap >= 1,
        ensures
            forall|k: usize| !cache_contents(r).contains_key(k),
            cache_bound(r) == cap,
    {
        Self { cache: lru::LruCache::new(std::num::NonZeroUsize::new(cap).unwrap()) }
    }

    /// Relies on lru::LruCache::get: returns a copy of the entry under
    /// the key; only recency changes, never the contents.
    #[verifier::external_body]
    pub fn get(&mut self, page_num: usize) -> (r: Option<BtreePage>)
        ensures
            cache_contents(*final(self)) == cache_contents(*old(self)),
            cache_bound(*final(self)) == cache_bound(*old(self)),
            match r {
                Some(p) => cache_contents(*old(self)).contains_key(page_num) && p
                    == cache_contents(*old(self))[page_num],
                None => !cache_contents(*old(self)).contains_key(page_num),
            },
    {
        self.cache.get(&page_num).cloned()
    }

    /// Relies on lru::LruCache::put: the entry stands under its key
    /// afterwards; at capacity the least-recently-used other entry
    /// leaves, so the entry count never passes the bound, and no
    /// surviving entry changes.
    #[verifier::external_body]
    pub fn put(&mut self, page_num: usize, page: BtreePage)
        ensures
            cache_contents(*final(self)).contains_key(page_num),
            cache_contents(*final(self))[page_num] == page,
            cache_bound(*final(self)) == cache_bound(*old(self)),
            cache_contents(*final(self)).dom().finite(),
            cache_contents(*final(self)).dom().len() <= cache_bound(*final(self)),
            forall|k: usize|
                cache_contents(*final(self)).contains_key(k) ==> k == page_num || (cache_contents(
                    *old(self),
                ).contains_key(k) && cache_contents(*final(self))[k] == cache_contents(*old(self))[k]),
    {
        self.cache.put(page_num, page);
    }
}

/// The raw bytes of page `page_num` (1-based) in a file image.
pub open spec fn spec_page_raw(file: Seq<u8>, page_num: nat, ps: nat) -> Seq<u8> {
    file.subrange(((page_num - 1) * ps) as int, (page_num * ps) as int)
}

/// What it means for `pg` to be the parse of page `page_num` of the
/// file image under the given geometry.
pub open spec fn spec_page_of(
    file: Seq<u8>,
    page_num: nat,
    ps: nat,
    rs: nat,
    pg: BtreePage,
) -> bool {
    &&& 1 <= page_num
    &&& page_num * ps <= file.len()
    &&& btree_page_wf(pg)
    &&& page_bytes(pg) == spec_page_raw(file, page_num, ps)
    &&& spec_parse_header(
        spec_page_raw(file, page_num, ps).skip(spec_page_offset(page_num) as int),
        spec_page_offset(page_num),
    ) == Ok::<HeaderView, Error>(page_header_of(pg))
    &&& page_geometry_is(pg, ps, rs)
}

/// The paged-storage layer over an in-memory database image.
pub struct Pager {
    pub file: Vec<u8>,
    pub file_length: usize,
    pub cache: PageCache,
    pub num_pages: usize,
    pub page_size: usize,
    pub reserved_space: u8,
}

/// The pager's invariant: a geometry the thresholds admit, a whole
/// number of pages, and every cached page equal to the parse of its own
/// bytes in the file image.
pub open spec fn pager_wf(p: Pager) -> bool {
    &&& spec_payload_pre(p.page_size as nat, p.reserved_space as nat)
    &&& p.file_length == p.file@.len()
    &&& p.file_length == p.num_pages * p.page_size
    &&& cache_contents(p.cache).dom().finite()
    &&& cache_contents(p.cache).dom().len() <= cache_bound(p.cache)
    &&& forall|k: usize|
        cache_contents(p.cache).contains_key(k) ==> spec_page_of(
            p.file@,
            k as nat,
            p.page_size as nat,
            p.reserved_space as nat,
            #[trigger] cache_contents(p.cache)[k],
        )
}

/// The fields of a pager that no read ever changes.
pub open spec fn pager_same_file(a: Pager, b: Pager) -> bool {
    &&& a.file@ == b.file@
    &&& a.file_length == b.file_length
    &&& a.num_pages == b.num_pages
    &&& a.page_size == b.page_size
    &&& a.reserved_space == b.reserved_space
}

impl Pager {
    /// Takes over a database image whose length must be a whole number of
    /// pages of the header's page size.
    pub fn new(file: Vec<u8>, db_options: &DbOptions) -> (r: Result<Self, Error>)
        requires
            spec_payload_pre(db_options.page_size as nat, db_options.reserved_space as nat),
        ensures
            file@.len() % (db_options.page_size as nat) != 0 ==> r == Err::<Pager, Error>(
                Error::InvalidHeader,
            ),
            file@.len() % (db_options.page_size as nat) == 0 ==> (r matches Ok(p) && pager_wf(p)
                && p.file@ == file@ && p.page_size == db_options.page_size && p.reserved_space
                == db_options.reserved_space && p.num_pages == file@.len() / (
            db_options.page_size as nat) && (forall|k: usize|
                !cache_contents(p.cache).contains_key(k))),
    {
        let file_length = file.len();
        if file_length % db_options.page_size != 0 {
            return Err(Error::InvalidHeader);
        }
        let num_pages = file_length / db_options.page_size;
        proof {
            vstd::arithmetic::div_mod::lemma_fundamental_div_mod(
                file_length as int,
                db_options.page_size as int,
            );
            assert(num_pages * db_options.page_size == db_options.page_size * num_pages)
                by (nonlinear_arith);
            assert(file_length == num_pages * db_options.page_size);
        }
        let cache = PageCache::new(10);
        proof {
            assert(cache_contents(cache).dom() =~= Set::<usize>::empty());
        }
        Ok(
            Self {
                file,
                file_length,
                cache,
                num_pages,
                page_size: db_options.page_size,
                reserved_space: db_options.reserved_space,
            },
        )
    }

    /// Reads the raw bytes of a page straight from the file image; fails
    /// `OutOfRange` outside `[1, num_pages]`.
    pub fn read_from_file(&self, page_num: usize) -> (r: Result<Vec<u8>, Error>)
        requires
            pager_wf(*self),
        ensures
            1 <= page_num <= self.num_pages ==> (r matches Ok(v) && v@ == spec_page_raw(
                self.file@,
                page_num as nat,
                self.page_size as nat,
            )),
            !(1 <= page_num <= self.num_pages) ==> r == Err::<Vec<u8>, Error>(Error::OutOfRange),
    {
        if page_num < 1 || page_num > self.num_pages {
            return Err(Error::OutOfRange);
        }
        proof {
            lemma_mul_inequality(page_num as int, self.num_pages as int, self.page_size as int);
            assert(((page_num - 1) as int) * (self.page_size as int) == (page_num as int) * (
            self.page_size as int) - self.page_size) by (nonlinear_arith);
        }
        let start = (page_num - 1) * self.page_size;
        let v = slice_to_vec(
            slice_subrange(self.file.as_slice(), start, start + self.page_size),
        );
        Ok(v)
    }

    /// Replaces the cached copy of a page.  The write path is out of
    /// scope here, so only a page equal to the parse of its own bytes in
    /// the file may enter: anything else would let the cache contradict
    /// the file.  A page `get_page` returned satisfies that already.
    pub fn insert(&mut self, page_num: usize, page: BtreePage)
        requires
            pager_wf(*old(self)),
            spec_page_of(
                old(self).file@,
                page_num as nat,
                old(self).page_size as nat,
                old(self).reserved_space as nat,
                page,
            ),
        ensures
            pager_wf(*final(self)),
            pager_same_file(*final(self), *old(self)),
            cache_contents(final(self).cache).contains_key(page_num),
            cache_contents(final(self).cache)[page_num] == page,
    {
        self.cache.put(page_num, page);
    }

    /// Serves the parsed page: from the cache when it holds it, else read
    /// from the file, parsed, and cached; the result always equals the
    /// parse of the page's own bytes.
    pub fn get_page(&mut self, page_num: usize) -> (r: Result<BtreePage, Error>)
        requires
            pager_wf(*old(self)),
        ensures
            pager_wf(*final(self)),
            pager_same_file(*final(self), *old(self)),
            r is Ok ==> cache_contents(final(self).cache).contains_key(page_num),
            ({
                let ps = old(self).page_size as nat;
                let rs = old(self).reserved_space as nat;
                let file = old(self).file@;
                if page_num < 1 || page_num > old(self).num_pages {
                    r == Err::<BtreePage, Error>(Error::OutOfRange)
                } else {
                    let raw = spec_page_raw(file, page_num as nat, ps);
                    let off = spec_page_offset(page_num as nat);
                    match spec_parse_header(raw.skip(off as int), off) {
                        Err(e) => r == Err::<BtreePage, Error>(e),
                        Ok(hv) => r matches Ok(p) && spec_page_of(file, page_num as nat, ps, rs, p),
                    }
                }
            }),
    {
        if page_num < 1 || page_num > self.num_pages {
            return Err(Error::OutOfRange);
        }
        proof {
            lemma_mul_inequality(page_num as int, self.num_pages as int, self.page_size as int);
            assert(((page_num - 1) as int) * (self.page_size as int) == (page_num as int) * (
            self.page_size as int) - self.page_size) by (nonlinear_arith);
        }
        match self.cache.get(page_num) {
            Some(p) => {
                return Ok(p);
            },
            None => {},
        }
        let raw = match self.read_from_file(page_num) {
            Ok(v) => v,
            Err(e) => {
                proof {
                    assert(false);
                }
                return Err(e);
            },
        };
        let parsed = match BtreePage::deserialize(
            raw.as_slice(),
            page_num,
            self.page_size,
            self.reserved_space,
        ) {
            Ok(p) => p,
            Err(e) => {
                return Err(e);
            },
        };
        self.cache.put(page_num, parsed);
        match self.cache.get(page_num) {
            Some(p) => Ok(p),
            None => {
                proof {
                    assert(false);
                }
                Err(Error::Io)
            },
        }
    }
}

/// The next-trunk field of a freelist trunk page.
pub open spec fn spec_freelist_next(s: Seq<u8>) -> nat {
    spec_be_u32(s.subrange(0, 4)) as nat
}

/// The leaf-count field of a freelist trunk page.
pub open spec fn spec_freelist_count(s: Seq<u8>) -> nat {
    spec_be_u32(s.subrange(4, 8)) as nat
}

/// The `k`-th free leaf page number listed on a trunk page.
pub open spec fn spec_freelist_leaf(s: Seq<u8>, k: int) -> nat {
    spec_be_u32(s.subrange((k + 2) * 4, (k + 3) * 4)) as nat
}

/// Whether a trunk page's fields fit inside its bytes.
pub open spec fn spec_freelist_ok(s: Seq<u8>) -> bool {
    s.len() >= 8 && (spec_freelist_count(s) + 2) * 4 <= s.len()
}

/// A freelist trunk page: the next trunk's page number (zero for none)
/// and the free leaf page numbers it lists.
#[derive(Debug, Clone)]
pub struct FreelistPage {
    pub free_pages: Vec<usize>,
    pub next_page_link: Option<usize>,
}

impl FreelistPage {
    /// Parses a trunk page: a 32-bit next-trunk pointer, a 32-bit leaf
    /// count, then that many 32-bit leaf page numbers.
    #[verifier::loop_isolation(false)]
    pub fn deserialize(i: &[u8]) -> (r: Result<Self, Error>)
        ensures
            !spec_freelist_ok(i@) ==> r == Err::<FreelistPage, Error>(Error::MalformedPage),
            spec_freelist_ok(i@) ==> (r matches Ok(f) && f.next_page_link == (
            if spec_freelist_next(i@) > 0 {
                Some(spec_freelist_next(i@) as usize)
            } else {
                None
            }) && f.free_pages@.len() == spec_freelist_count(i@) && (forall|k: int|
                0 <= k < f.free_pages@.len() ==> f.free_pages@[k] == spec_freelist_leaf(
                    i@,
                    k,
                ) as usize)),
    {
        if i.len() < 8 {
            return Err(Error::MalformedPage);
        }
        let next_page = read_u32_at(i, 0);
        let list_size = read_u32_at(i, 4);
        if ((list_size as u64) + 2) * 4 > (i.len() as u64) {
            return Err(Error::MalformedPage);
        }
        let count = list_size as usize;
        let mut ints: Vec<usize> = Vec::new();
        let mut k: usize = 0;
        while k < count
            invariant
                k <= count,
                ints@.len() == k,
                forall|j: int| 0 <= j < k ==> ints@[j] == spec_freelist_leaf(i@, j) as usize,
            decreases count - k,
        {
            let p = read_u32_at(i, (k + 2) * 4);
            ints.push(p as usize);
            k = k + 1;
        }
        Ok(
            Self {
                free_pages: ints,
                next_page_link: if next_page > 0 {
                    Some(next_page as usize)
                } else {
                    None
                },
            },
        )
    }

    /// Serializes a trunk page back to a full page of bytes: the next
    /// pointer, the leaf count, the leaf page numbers, zero padding.
    #[verifier::loop_isolation(false)]
    pub fn serialize(&self, page_size: usize) -> (r: Vec<u8>)
        requires
            (match self.next_page_link {
                Some(p) => p <= u32::MAX,
                None => true,
            }),
            forall|k: int| 0 <= k < self.free_pages@.len() ==> #[trigger] self.free_pages@[k]
                <= u32::MAX,
            (self.free_pages@.len() + 2) * 4 <= page_size,
        ensures
            r@ == spec_freelist_ser(*self, page_size as nat),
            r@.len() == page_size,
    {
        let ghost pages = self.free_pages@;
        let mut out: Vec<u8> = Vec::new();
        match self.next_page_link {
            Some(pg) => push_u32(&mut out, pg as u32),
            None => push_u32(&mut out, 0),
        }
        push_u32(&mut out, self.free_pages.len() as u32);
        let ghost base = out@;
        proof {
            lemma_u32s_bytes_index(pages);
            assert(base + spec_u32s_bytes(pages).take(0) =~= base);
        }
        let mut k: usize = 0;
        while k < self.free_pages.len()
            invariant
                k <= pages.len(),
                out@ == base + spec_u32s_bytes(pages).take(4 * k),
            decreases pages.len() - k,
        {
            let ghost pbs = spec_u32s_bytes(pages);
            proof {
                assert(pbs.take(4 * k) + spec_u32b(pages[k as int] as u32) =~= pbs.take(
                    4 * (k + 1),
                ));
                assert((base + pbs.take(4 * k)) + spec_u32b(pages[k as int] as u32) =~= base
                    + pbs.take(4 * (k + 1)));
            }
            push_u32(&mut out, self.free_pages[k] as u32);
            k = k + 1;
        }
        proof {
            assert(spec_u32s_bytes(pages).take(4 * pages.len() as int) =~= spec_u32s_bytes(pages));
        }
        let ghost before_zeros = out@;
        let mut z: usize = 0;
        proof {
            assert(before_zeros + Seq::new(0, |j: int| 0u8) =~= before_zeros);
        }
        while out.len() < page_size
            invariant
                out@ == before_zeros + Seq::new(z as nat, |j: int| 0u8),
                out@.len() == before_zeros.len() + z,
                before_zeros.len() + z <= page_size || z == 0,
            decreases page_size - out@.len(),
        {
            proof {
                assert((before_zeros + Seq::new(z as nat, |j: int| 0u8)).push(0u8) =~= before_zeros
                    + Seq::new((z + 1) as nat, |j: int| 0u8));
            }
            out.push(0);
            z = z + 1;
        }
        proof {
            assert(out@ =~= spec_freelist_ser(*self, page_size as nat));
        }
        out
    }
}

/// The concatenated big-endian bytes of a list of page numbers.
pub open spec fn spec_u32s_bytes(ps: Seq<usize>) -> Seq<u8>
    decreases ps.len(),
{
    if ps.len() == 0 {
        Seq::empty()
    } else {
        spec_u32b(ps[0] as u32) + spec_u32s_bytes(ps.skip(1))
    }
}

proof fn lemma_u32s_bytes_index(ps: Seq<usize>)
    ensures
        spec_u32s_bytes(ps).len() == 4 * ps.len(),
        forall|i: int|
            0 <= i < ps.len() ==> spec_u32s_bytes(ps).subrange(4 * i, 4 * i + 4) == spec_u32b(
                (#[trigger] ps[i]) as u32,
            ),
    decreases ps.len(),
{
    if ps.len() != 0 {
        lemma_u32s_bytes_index(ps.skip(1));
        assert forall|i: int|
            0 <= i < ps.len() implies spec_u32s_bytes(ps).subrange(4 * i, 4 * i + 4) == spec_u32b(
            (#[trigger] ps[i]) as u32,
        ) by {
            if i == 0 {
                assert(spec_u32s_bytes(ps).subrange(0, 4) =~= spec_u32b(ps[0] as u32));
            } else {
                assert(ps.skip(1)[i - 1] == ps[i]);
                assert(spec_u32s_bytes(ps).subrange(4 * i, 4 * i + 4) =~= spec_u32s_bytes(
                    ps.skip(1),
                ).subrange(4 * (i - 1), 4 * (i - 1) + 4));
            }
        }
    }
}

/// The serialization of a trunk page into a full page.
pub open spec fn spec_freelist_ser(f: FreelistPage, page_size: nat) -> Seq<u8> {
    let next: u32 = match f.next_page_link {
        Some(p) => p as u32,
        None => 0,
    };
    let base = spec_u32b(next) + spec_u32b(f.free_pages@.len() as u32) + spec_u32s_bytes(
        f.free_pages@,
    );
    base + Seq::new((page_size - base.len()) as nat, |j: int| 0u8)
}

/// Reads the big-endian 32-bit field at byte `at`.
fn read_u32_at(i: &[u8], at: usize) -> (r: u32)
    requires
        at + 4 <= i@.len(),
    ensures
        r == spec_be_u32(i@.subrange(at as int, at + 4)),
{
    let n = i.len();
    match be_u32(slice_subrange(i, at, at + 4)) {
        Ok(v) => v,
        Err(_) => {
            proof {
                assert(false);
            }
            0
        },
    }
}

/// The pages of the free list reachable from trunk page `trunk`: each
/// trunk and the leaves it lists, then the next trunk's pages, visiting
/// at most `fuel` trunks.  A zero trunk ends the list; running out of
/// fuel means the chain cannot be acyclic and is malformed.
pub open spec fn spec_freelist_walk(file: Seq<u8>, ps: nat, trunk: nat, fuel: nat) -> Result<
    Seq<usize>,
    Error,
>
    decreases fuel,
{
    if trunk == 0 {
        Ok(Seq::empty())
    } else if fuel == 0 {
        Err(Error::MalformedPage)
    } else if !(trunk * ps <= file.len()) {
        Err(Error::OutOfRange)
    } else {
        let raw = spec_page_raw(file, trunk, ps);
        if !spec_freelist_ok(raw) {
            Err(Error::MalformedPage)
        } else {
            let count = spec_freelist_count(raw);
            let next = spec_freelist_next(raw);
            match spec_freelist_walk(file, ps, next, (fuel - 1) as nat) {
                Err(e) => Err(e),
                Ok(rest) => Ok(
                    seq![trunk as usize] + Seq::new(
                        count,
                        |k: int| spec_freelist_leaf(raw, k) as usize,
                    ) + rest,
                ),
            }
        }
    }
}

impl Pager {
    /// Walks the freelist trunk chain from `first_trunk` and returns
    /// every page of the list, trunks and leaves alike; zero means an
    /// empty list, and a chain longer than the file has pages is
    /// malformed (it must contain a cycle).
    #[verifier::loop_isolation(false)]
    pub fn freelist_pages(&self, first_trunk: usize) -> (r: Result<Vec<usize>, Error>)
        requires
            pager_wf(*self),
        ensures
            (match spec_freelist_walk(
                self.file@,
                self.page_size as nat,
                first_trunk as nat,
                (self.num_pages + 1) as nat,
            ) {
                Ok(s) => r matches Ok(v) && v@ == s,
                Err(e) => r == Err::<Vec<usize>, Error>(e),
            }),
    {
        let ghost file = self.file@;
        let ghost ps = self.page_size as nat;
        let ghost fuel0 = (self.num_pages + 1) as nat;
        let mut out: Vec<usize> = Vec::new();
        let mut trunk: usize = first_trunk;
        proof {
            assert((self.num_pages as int) * 196 <= (self.num_pages as int) * (
            self.page_size as int)) by (nonlinear_arith)
                requires
                    self.page_size >= 196,
            ;
        }
        let mut fuel: usize = self.num_pages + 1;
        proof {
            assert(out@ + Seq::<usize>::empty() =~= out@);
        }
        while trunk != 0
            invariant
                (match spec_freelist_walk(file, ps, trunk as nat, fuel as nat) {
                    Ok(rest) => spec_freelist_walk(file, ps, first_trunk as nat, fuel0) == Ok::<
                        Seq<usize>,
                        Error,
                    >(out@ + rest),
                    Err(e) => spec_freelist_walk(file, ps, first_trunk as nat, fuel0) == Err::<
                        Seq<usize>,
                        Error,
                    >(e),
                }),
            decreases fuel,
        {
            if fuel == 0 {
                return Err(Error::MalformedPage);
            }
            proof {
                assert(trunk <= self.num_pages ==> (trunk as int) * (self.page_size as int) <= (
                self.num_pages as int) * (self.page_size as int)) by (nonlinear_arith);
                assert(trunk > self.num_pages ==> (trunk as int) * (self.page_size as int) > (
                self.num_pages as int) * (self.page_size as int)) by (nonlinear_arith)
                    requires
                        self.page_size >= 196,
                ;
            }
            if trunk > self.num_pages {
                return Err(Error::OutOfRange);
            }
            let raw = match self.read_from_file(trunk) {
                Ok(v) => v,
                Err(e) => {
                    proof {
                        assert(false);
                    }
                    return Err(e);
                },
            };
            let fl = match FreelistPage::deserialize(raw.as_slice()) {
                Ok(f) => f,
                Err(e) => {
                    return Err(e);
                },
            };
            let ghost rawspec = spec_page_raw(file, trunk as nat, ps);
            let ghost leaves = Seq::new(
                spec_freelist_count(rawspec),
                |k: int| spec_freelist_leaf(rawspec, k) as usize,
            );
            proof {
                assert(fl.free_pages@ =~= leaves);
            }
            let ghost before = out@;
            out.push(trunk);
            let mut j: usize = 0;
            while j < fl.free_pages.len()
                invariant
                    j <= fl.free_pages@.len(),
                    out@ == before + seq![trunk as usize] + fl.free_pages@.subrange(0, j as int),
                decreases fl.free_pages@.len() - j,
            {
                proof {
                    assert((before + seq![trunk as usize] + fl.free_pages@.subrange(
                        0,
                        j as int,
                    )).push(fl.free_pages@[j as int]) =~= before + seq![trunk as usize]
                        + fl.free_pages@.subrange(0, j + 1));
                }
                out.push(fl.free_pages[j]);
                j = j + 1;
            }
            proof {
                assert(fl.free_pages@.subrange(0, fl.free_pages@.len() as int) =~= fl.free_pages@);
                assert(out@ =~= before + (seq![trunk as usize] + leaves));
                let nextg: nat = spec_freelist_next(rawspec);
                match spec_freelist_walk(file, ps, nextg, (fuel - 1) as nat) {
                    Ok(rest2) => {
                        assert((before + (seq![trunk as usize] + leaves)) + rest2 =~= before + ((
                        seq![trunk as usize] + leaves) + rest2));
                        assert(before + ((seq![trunk as usize] + leaves) + rest2) =~= before + (
                        seq![trunk as usize] + leaves + rest2));
                    },
                    Err(_) => {},
                }
            }
            let next: usize = match fl.next_page_link {
                Some(n) => n,
                None => 0,
            };
            trunk = next;
            fuel = fuel - 1;
        }
        proof {
            assert(out@ + Seq::<usize>::empty() =~= out@);
        }
        Ok(out)
    }
}

} // verus!
