//! The directory table: one entry per indexed directory, sorted by path, and its
//! lookups by exact path and by path prefix.
use vstd::prelude::*;
use vstd::string::*;
use crate::index::header::{u32_at, u64_at, read_u32_at, read_u64_at, FEATURE_DIR_TABLE};
use crate::index::layout::{bytes_lt, compare_bytes, lemma_bytes_lt_total, lemma_bytes_lt_transitive, lemma_bytes_lt_irreflexive};
use crate::index::reader::IndexReader;

verus! {

/// A directory's entry: its path, mtime and inode, and the run of file ids that holds
/// its files.
#[derive(Debug, Clone)]
pub struct DirTableEntry {
    pub path: String,
    pub mtime: i64,
    pub ino: u64,
    pub first_file_id: u32,
    pub num_files: u32,
}

/// The record at `p`: its path bytes, mtime, inode, first file id, file count, and where
/// the next record starts; `None` when it runs past the data.
pub open spec fn dir_record_at(d: Seq<u8>, p: int) -> Option<(Seq<u8>, i64, u64, u32, u32, int)> {
    if p < 0 || p + 4 > d.len() {
        None
    } else {
        let q = p + 4 + u32_at(d, p);
        if q + 24 > d.len() {
            None
        } else {
            Some(
                (
                    d.subrange(p + 4, q),
                    u64_at(d, q) as i64,
                    u64_at(d, q + 8),
                    u32_at(d, q + 16),
                    u32_at(d, q + 20),
                    q + 24,
                ),
            )
        }
    }
}

/// The record at `p`, when it lies inside the data and its path is UTF-8.
pub open spec fn dir_valid_at(d: Seq<u8>, p: int) -> Option<(Seq<u8>, i64, u64, u32, u32, int)> {
    match dir_record_at(d, p) {
        Some(r) => if vstd::utf8::valid_utf8(r.0) {
            Some(r)
        } else {
            None
        },
        None => None,
    }
}

/// Where record `k` of the table at `start` begins, when the records before it read.
pub open spec fn dir_pos(d: Seq<u8>, start: int, k: nat) -> Option<int>
    decreases k,
{
    if k == 0 {
        Some(start)
    } else {
        match dir_pos(d, start, (k - 1) as nat) {
            Some(p) => match dir_valid_at(d, p) {
                Some(r) => Some(r.5),
                None => None,
            },
            None => None,
        }
    }
}

/// Record `k` of the table at `start`.
pub open spec fn dir_at(d: Seq<u8>, start: int, k: int) -> Option<(Seq<u8>, i64, u64, u32, u32, int)> {
    match dir_pos(d, start, k as nat) {
        Some(p) => dir_valid_at(d, p),
        None => None,
    }
}

/// `s` begins with the bytes of `p`.
#[verifier::opaque]
pub open spec fn starts_with_bytes(s: Seq<u8>, p: Seq<u8>) -> bool {
    p.len() <= s.len() && s.subrange(0, p.len() as int) == p
}

/// The path bytes of a record, empty for none.
pub open spec fn path_of(r: Option<(Seq<u8>, i64, u64, u32, u32, int)>) -> Seq<u8> {
    match r {
        Some(t) => t.0,
        None => Seq::empty(),
    }
}

/// The first `n` records of the table read.
pub open spec fn dir_table_reads(d: Seq<u8>, start: int, n: int) -> bool {
    forall|k: int| 0 <= k < n ==> #[trigger] dir_at(d, start, k as int) is Some
}

/// The first `n` records are in non-decreasing order of path bytes.
pub open spec fn dir_table_sorted(d: Seq<u8>, start: int, n: int) -> bool {
    forall|i: int, j: int|
        0 <= i < j < n ==> !bytes_lt(
            path_of((#[trigger] dir_at(d, start, j as int))),
            path_of((#[trigger] dir_at(d, start, i as int))),
        )
}

/// Once a record does not read, no later record is reached.
pub proof fn lemma_dir_pos_stops(d: Seq<u8>, start: int, k: nat, k2: nat)
    requires
        dir_pos(d, start, k) is None,
        k <= k2,
    ensures
        dir_pos(d, start, k2) is None,
    decreases k2,
{
    if k < k2 {
        lemma_dir_pos_stops(d, start, k, (k2 - 1) as nat);
    }
}

/// Record `k` reads, its path starts with `p`, and `e` was built from it.
pub open spec fn run_entry_ok(d: Seq<u8>, start: int, k: int, p: Seq<u8>, e: DirTableEntry) -> bool {
    &&& dir_at(d, start, k) is Some
    &&& starts_with_bytes(path_of(dir_at(d, start, k)), p)
    &&& dir_entry_matches(e, dir_at(d, start, k)->0)
}

/// An entry built from a record.
#[verifier::opaque]
pub open spec fn dir_entry_matches(e: DirTableEntry, r: (Seq<u8>, i64, u64, u32, u32, int)) -> bool {
    &&& e.path@ == vstd::utf8::decode_utf8(r.0)
    &&& e.mtime == r.1
    &&& e.ino == r.2
    &&& e.first_file_id == r.3
    &&& e.num_files == r.4
}

/// `std::str::from_utf8`, made owned: `Some` exactly for valid UTF-8, with the
/// characters it decodes.
#[verifier::external_body]
fn utf8_string(bytes: &[u8]) -> (r: Option<String>)
    ensures
        r is Some <==> vstd::utf8::valid_utf8(bytes@),
        r matches Some(s) ==> s@ == vstd::utf8::decode_utf8(bytes@),
{
    std::str::from_utf8(bytes).ok().map(|s| s.to_string())
}

/// Walks the table at `start` to record `idx`: where its path lies, its fields.
fn dir_record(data: &[u8], start: u64, idx: u64) -> (r: Option<(usize, usize, i64, u64, u32, u32)>)
    ensures
        r is Some <==> dir_at(data@, start as int, idx as int) is Some,
        r matches Some(t) ==> ({
            let rec = dir_at(data@, start as int, idx as int)->0;
            &&& t.0 + t.1 <= data@.len()
            &&& data@.subrange(t.0 as int, t.0 + t.1) == rec.0
            &&& t.2 == rec.1
            &&& t.3 == rec.2
            &&& t.4 == rec.3
            &&& t.5 == rec.4
        }),
{
    let ulen = data.len();
    let len = ulen as u64;
    let mut pos: u64 = start;
    let mut counter: u64 = 0;
    loop
        invariant
            len == data@.len(),
            ulen == data@.len(),
            counter <= idx,
            dir_pos(data@, start as int, counter as nat) == Some(pos as int),
        decreases idx - counter,
    {
        proof {
            if dir_valid_at(data@, pos as int) is None && counter < idx {
                assert(dir_pos(data@, start as int, (counter + 1) as nat) is None);
                lemma_dir_pos_stops(data@, start as int, (counter + 1) as nat, idx as nat);
            }
        }
        if pos > len || len - pos < 4 {
            return None;
        }
        let upos = pos as usize;
        let path_len = read_u32_at(data, upos) as u64;
        if path_len > len - pos - 4 || len - pos - 4 - path_len < 24 {
            return None;
        }
        let pstart = upos + 4;
        let plen = path_len as usize;
        let q = pstart + plen;
        let valid = match utf8_string(&data[pstart..q]) {
            Some(_) => true,
            None => false,
        };
        if !valid {
            return None;
        }
        let mtime = read_u64_at(data, q) as i64;
        let ino = read_u64_at(data, q + 8);
        let first_file_id = read_u32_at(data, q + 16);
        let num_files = read_u32_at(data, q + 20);
        proof {
            assert(dir_valid_at(data@, pos as int) is Some);
        }
        if counter == idx {
            return Some((pstart, plen, mtime, ino, first_file_id, num_files));
        }
        pos = (q + 24) as u64;
        counter = counter + 1;
    }
}

/// Record `idx` of the table at `start`, as its path and fields.
fn read_dir_entry_at(data: &[u8], start: u64, idx: u64) -> (r: Option<DirTableEntry>)
    ensures
        r is Some <==> dir_at(data@, start as int, idx as int) is Some,
        r matches Some(e) ==> dir_entry_matches(e, dir_at(data@, start as int, idx as int)->0),
{
    let rec = dir_record(data, start, idx);
    if rec.is_none() {
        return None;
    }
    let (ps, pl, mtime, ino, first_file_id, num_files) = rec.unwrap();
    let ulen = data.len();
    assert(ps + pl <= ulen);
    match utf8_string(&data[ps..ps + pl]) {
        Some(path) => {
            let e = DirTableEntry { path, mtime, ino, first_file_id, num_files };
            proof {
                reveal(dir_entry_matches);
            }
            Some(e)
        },
        None => None,
    }
}

/// Whether `p` is a prefix of `a`.
fn bytes_start_with(a: &[u8], p: &[u8]) -> (b: bool)
    ensures
        b == starts_with_bytes(a@, p@),
{
    if p.len() > a.len() {
        proof {
            reveal(starts_with_bytes);
        }
        return false;
    }
    let c = compare_bytes(&a[0..p.len()], p);
    proof {
        reveal(starts_with_bytes);
        assert(a@.subrange(0, p@.len() as int) =~= a@.subrange(0, p@.len() as int));
    }
    c == 0
}

/// Record `idx` of the table at `start`, when it reads and its path starts with `p`.
fn entry_with_prefix(data: &[u8], start: u64, idx: u64, p: &[u8]) -> (r: Option<DirTableEntry>)
    ensures
        r matches Some(e) ==> dir_at(data@, start as int, idx as int) is Some && starts_with_bytes(path_of(dir_at(data@, start as int, idx as int)), p@) && dir_entry_matches(e, dir_at(data@, start as int, idx as int)->0),
        r is None ==> dir_at(data@, start as int, idx as int) is None || !starts_with_bytes(path_of(dir_at(data@, start as int, idx as int)), p@),
{
    let rec = dir_record(data, start, idx);
    if rec.is_none() {
        return None;
    }
    let (ps, pl, _m, _i, _f, _n) = rec.unwrap();
    let ulen = data.len();
    assert(ps + pl <= ulen);
    if !bytes_start_with(&data[ps..ps + pl], p) {
        return None;
    }
    read_dir_entry_at(data, start, idx)
}

/// The records from `from` on, for as long as they read and their paths start with `p`.
fn collect_run(data: &[u8], start: u64, from: u64, n: u64, p: &[u8]) -> (r: Vec<DirTableEntry>)
    requires
        from <= n,
    ensures
        from + r@.len() <= n,
        forall|q: int| 0 <= q < r@.len() ==> run_entry_ok(data@, start as int, from + q, p@, #[trigger] r@[q]),
        from + r@.len() < n ==> (dir_at(data@, start as int, from + r@.len()) is None || !starts_with_bytes(path_of(dir_at(data@, start as int, from + r@.len())), p@)),
{
    let mut results: Vec<DirTableEntry> = Vec::new();
    let mut i: u64 = from;
    let mut stop = false;
    while !stop && i < n
        invariant
            from <= i <= n,
            results@.len() == i - from,
            forall|q: int| 0 <= q < results@.len() ==> run_entry_ok(data@, start as int, from + q, p@, #[trigger] results@[q]),
            stop ==> i < n && (dir_at(data@, start as int, i as int) is None || !starts_with_bytes(
                path_of(dir_at(data@, start as int, i as int)),
                p@,
            )),
        decreases n - i, if stop { 0int } else { 1int },
    {
        match entry_with_prefix(data, start, i, p) {
            Some(e) => {
                let ghost before = results@;
                results.push(e);
                proof {
                    assert forall|q: int| 0 <= q < results@.len() implies run_entry_ok(data@, start as int, from + q, p@, #[trigger] results@[q]) by {
                        if q < before.len() {
                            assert(results@[q] == before[q]);
                        } else {
                            assert(from + q == i);
                        }
                    }
                }
                i = i + 1;
            },
            None => {
                stop = true;
            },
        }
    }
    results
}

/// The first index in `0..n` whose path does not sort before `prefix`, by binary search;
/// `None` when a record on the way does not read or every path sorts before `prefix`.
fn find_first_prefix(data: &[u8], start: u64, n: u64, prefix: &[u8]) -> (r: Option<u64>)
    ensures
        r matches Some(i) ==> i < n,
        (dir_table_reads(data@, start as int, n as int) && dir_table_sorted(data@, start as int, n as int)) ==> ({
            &&& r matches Some(i) ==> (forall|j: int| 0 <= j < i ==> bytes_lt(path_of((#[trigger] dir_at(data@, start as int, j as int))), prefix@))
                && !bytes_lt(path_of(dir_at(data@, start as int, i as int)), prefix@)
            &&& r is None ==> forall|j: int| 0 <= j < n ==> bytes_lt(path_of((#[trigger] dir_at(data@, start as int, j as int))), prefix@)
        }),
{
    let mut lo: u64 = 0;
    let mut hi: u64 = n;
    while lo < hi
        invariant
            lo <= hi <= n,
            (dir_table_reads(data@, start as int, n as int) && dir_table_sorted(data@, start as int, n as int)) ==> (
                (forall|j: int| 0 <= j < lo ==> bytes_lt(path_of((#[trigger] dir_at(data@, start as int, j as int))), prefix@))
                && (hi < n ==> !bytes_lt(path_of(dir_at(data@, start as int, hi as int)), prefix@))),
        decreases hi - lo,
    {
        let mid = lo + (hi - lo) / 2;
        let rec = dir_record(data, start, mid);
        if rec.is_none() {
            proof {
                if dir_table_reads(data@, start as int, n as int) {
                    assert(dir_at(data@, start as int, mid as int) is Some);
                }
            }
            return None;
        }
        let (ps, pl, _m, _i, _f, _n) = rec.unwrap();
        let ulen = data.len();
        assert(ps + pl <= ulen);
        let c = compare_bytes(&data[ps..ps + pl], prefix);
        if c < 0 {
            proof {
                let kmid = path_of(dir_at(data@, start as int, mid as int));
                assert forall|j: int| 0 <= j < mid + 1 && dir_table_reads(data@, start as int, n as int) && dir_table_sorted(data@, start as int, n as int)
                    implies bytes_lt(path_of((#[trigger] dir_at(data@, start as int, j as int))), prefix@) by {
                    if j < mid {
                        let kj = path_of(dir_at(data@, start as int, j as int));
                        assert(!bytes_lt(kmid, kj));
                        lemma_bytes_lt_total(kj, kmid);
                        if kj != kmid {
                            lemma_bytes_lt_transitive(kj, kmid, prefix@);
                        }
                    }
                }
            }
            lo = mid + 1;
        } else {
            hi = mid;
        }
    }
    if lo < n {
        Some(lo)
    } else {
        None
    }
}

/// What a lookup of `path` in the directory table may return: an entry built from a
/// record with that path; nothing without a directory table; and, where the table reads
/// through and is sorted, nothing only when no record has that path.
pub open spec fn dir_lookup(rd: IndexReader, path: Seq<u8>, r: Option<DirTableEntry>) -> bool {
    &&& r matches Some(e) ==> exists|k: int|
        0 <= k < rd.header.num_dir_entries && (#[trigger] rd.dir_record_spec(k)) is Some
            && path_of(rd.dir_record_spec(k)) == path && dir_entry_matches(e, rd.dir_record_spec(k)->0)
    &&& (rd.header.features & FEATURE_DIR_TABLE == 0 || rd.header.num_dir_entries == 0) ==> r is None
    &&& (r is None && rd.header.features & FEATURE_DIR_TABLE != 0 && rd.dir_table_ok()) ==> forall|k: int|
        0 <= k < rd.header.num_dir_entries ==> path_of((#[trigger] rd.dir_record_spec(k))) != path
}

/// What a prefix listing gives: entries each built from a record that starts with `p`;
/// none without a directory table; and, over a table that reads and is sorted, the
/// entries of the run of records from `s` on, where `s` is the first record not below
/// `p` and the run ends at the first record that does not start with `p`.
pub open spec fn prefix_listing(rd: IndexReader, p: Seq<u8>, r: Seq<DirTableEntry>) -> bool {
    let n = rd.header.num_dir_entries;
    &&& forall|i: int| 0 <= i < r.len() ==> rd.has_entry_with_prefix(p, #[trigger] r[i])
    &&& (rd.header.features & FEATURE_DIR_TABLE == 0 || n == 0) ==> r.len() == 0
    &&& (rd.header.features & FEATURE_DIR_TABLE != 0 && n != 0 && rd.dir_table_ok()) ==> exists|s: int|
        #![trigger rd.dir_record_spec(s)]
        0 <= s <= n
        && (forall|j: int| 0 <= j < s ==> bytes_lt(path_of((#[trigger] rd.dir_record_spec(j))), p))
        && (s < n ==> !bytes_lt(path_of(rd.dir_record_spec(s)), p))
        && s + r.len() <= n
        && (forall|i: int| 0 <= i < r.len() ==> run_entry_ok(
            rd.data@,
            rd.header.dir_table_offset as int,
            s + i,
            p,
            #[trigger] r[i],
        ))
        && (s + r.len() < n ==> !starts_with_bytes(path_of(rd.dir_record_spec(s + r.len())), p))
}

impl<'a> IndexReader<'a> {
    /// The directory table reads through and is sorted by path.
    pub open spec fn dir_table_ok(&self) -> bool {
        &&& dir_table_reads(self.data@, self.header.dir_table_offset as int, self.header.num_dir_entries as int)
        &&& dir_table_sorted(self.data@, self.header.dir_table_offset as int, self.header.num_dir_entries as int)
    }

    /// Some record of the directory table reads, starts with `p`, and `e` was built from it.
    pub open spec fn has_entry_with_prefix(&self, p: Seq<u8>, e: DirTableEntry) -> bool {
        exists|k: int|
            0 <= k < self.header.num_dir_entries && #[trigger] run_entry_ok(
                self.data@,
                self.header.dir_table_offset as int,
                k,
                p,
                e,
            )
    }

    /// Record `k` of the directory table.
    pub open spec fn dir_record_spec(&self, k: int) -> Option<(Seq<u8>, i64, u64, u32, u32, int)> {
        dir_at(self.data@, self.header.dir_table_offset as int, k as int)
    }

    /// The entry whose path is `dir_path`, by binary search over the sorted table. With
    /// no directory table, nothing.
    pub fn dir_entry(&self, dir_path: &str) -> (r: Option<DirTableEntry>)
        ensures
            dir_lookup(*self, dir_path.spec_bytes(), r),
            r matches Some(e) ==> exists|k: int|
                0 <= k < self.header.num_dir_entries && (#[trigger] self.dir_record_spec(k)) is Some
                    && path_of(self.dir_record_spec(k)) == dir_path.spec_bytes() && dir_entry_matches(e, self.dir_record_spec(k)->0),
            (self.header.features & FEATURE_DIR_TABLE == 0 || self.header.num_dir_entries == 0) ==> r is None,
            (r is None && self.header.features & FEATURE_DIR_TABLE != 0 && self.dir_table_ok()) ==> forall|k: int|
                0 <= k < self.header.num_dir_entries ==> path_of((#[trigger] self.dir_record_spec(k))) != dir_path.spec_bytes(),
    {
        if !self.has_feature(FEATURE_DIR_TABLE) || self.header.num_dir_entries == 0 {
            return None;
        }
        let start = self.header.dir_table_offset;
        let n = self.header.num_dir_entries;
        let key = dir_path.as_bytes();
        let mut lo: u64 = 0;
        let mut hi: u64 = n;
        while lo < hi
            invariant
                lo <= hi <= n,
                n == self.header.num_dir_entries,
                start == self.header.dir_table_offset,
                key@ == dir_path.spec_bytes(),
                !(self.header.features & FEATURE_DIR_TABLE == 0 || self.header.num_dir_entries == 0),
                self.dir_table_ok() ==> (forall|j: int| 0 <= j < lo ==> path_of((#[trigger] self.dir_record_spec(j))) != key@)
                    && (forall|j: int| hi <= j < n ==> path_of((#[trigger] self.dir_record_spec(j))) != key@),
            decreases hi - lo,
        {
            let mid = lo + (hi - lo) / 2;
            let rec = dir_record(self.data, start, mid);
            if rec.is_none() {
                return None;
            }
            let (ps, pl, _m, _i, _f, _n) = rec.unwrap();
            let ulen = self.data.len();
            assert(ps + pl <= ulen);
            let c = compare_bytes(&self.data[ps..ps + pl], key);
            proof {
                lemma_bytes_lt_irreflexive(key@);
            }
            if c < 0 {
                proof {
                    let kmid = path_of(self.dir_record_spec(mid as int));
                    assert forall|j: int| 0 <= j < mid + 1 && self.dir_table_ok() implies path_of((#[trigger] self.dir_record_spec(j))) != key@ by {
                        if j < mid {
                            let kj = path_of(self.dir_record_spec(j));
                            assert(!bytes_lt(kmid, kj));
                            lemma_bytes_lt_total(kj, kmid);
                            if kj != kmid {
                                lemma_bytes_lt_transitive(kj, kmid, key@);
                            }
                        }
                    }
                }
                lo = mid + 1;
            } else if c > 0 {
                proof {
                    let kmid = path_of(self.dir_record_spec(mid as int));
                    assert forall|j: int| mid <= j < n && self.dir_table_ok() implies path_of((#[trigger] self.dir_record_spec(j))) != key@ by {
                        if j > mid {
                            let kj = path_of(self.dir_record_spec(j));
                            assert(!bytes_lt(kj, kmid));
                            lemma_bytes_lt_total(kj, kmid);
                            if kj != kmid {
                                lemma_bytes_lt_transitive(key@, kmid, kj);
                            }
                        }
                    }
                }
                hi = mid;
            } else {
                return read_dir_entry_at(self.data, start, mid);
            }
        }
        None
    }

    /// The entries whose paths start with `prefix`: the run of entries from the first
    /// path that does not sort before `prefix`, up to the first that does not start
    /// with it or does not read. With no directory table, nothing.
    pub fn dir_entries_for_prefix(&self, prefix: &str) -> (r: Vec<DirTableEntry>)
        ensures
            prefix_listing(*self, prefix.spec_bytes(), r@),
    {
        if !self.has_feature(FEATURE_DIR_TABLE) || self.header.num_dir_entries == 0 {
            return Vec::new();
        }
        let start = self.header.dir_table_offset;
        let n = self.header.num_dir_entries;
        let pbytes = prefix.as_bytes();
        let start_idx = match find_first_prefix(self.data, start, n, pbytes) {
            Some(idx) => idx,
            None => {
                proof {
                    if self.dir_table_ok() {
                        assert(forall|j: int| 0 <= j < n ==> bytes_lt(path_of((#[trigger] self.dir_record_spec(j))), prefix.spec_bytes()));
                        let _ = self.dir_record_spec(n as int);
                    }
                }
                return Vec::new();
            },
        };
        let results = collect_run(self.data, start, start_idx, n, pbytes);
        proof {
            let d = self.data@;
            let dt = self.header.dir_table_offset as int;
            assert forall|q: int| 0 <= q < results@.len() implies self.has_entry_with_prefix(prefix.spec_bytes(), #[trigger] results@[q]) by {
                assert(run_entry_ok(d, dt, start_idx + q, prefix.spec_bytes(), results@[q]));
            }
            if self.dir_table_ok() {
                let s = start_idx as int;
                if s + results@.len() < n {
                    assert(dir_at(d, dt, s + results@.len()) is Some);
                }
                let _ = self.dir_record_spec(s);
            }
        }
        results
    }
}

} // verus!
