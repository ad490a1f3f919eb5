//! Statistics over the trigram table.
use vstd::prelude::*;
use crate::bitmap::{roaring_decoded, bitmap_deserialize, bitmap_len};
use crate::index::header::{read_u32_at, read_u64_at};
use crate::index::image::{slot_pos, slot_len, slot_offset, slot_bitmap};
use crate::index::reader::{IndexReader, slot_bitmap_ok};

verus! {

/// How many trigrams the index holds, how large their bitmaps are, and how many files
/// they reference.
#[derive(Debug, Clone)]
pub struct TrigramStats {
    pub count: usize,
    pub total_bitmap_bytes: u64,
    pub min_docs: u64,
    pub max_docs: u64,
    pub avg_docs: u64,
    pub total_docs_indexed: u64,
}

impl Default for TrigramStats {
    fn default() -> (r: Self)
        ensures
            r.count == 0 && r.total_bitmap_bytes == 0 && r.min_docs == 0 && r.max_docs == 0 && r.avg_docs == 0
                && r.total_docs_indexed == 0,
    {
        TrigramStats { count: 0, total_bitmap_bytes: 0, min_docs: 0, max_docs: 0, avg_docs: 0, total_docs_indexed: 0 }
    }
}

/// The size of the set a slot's bitmap decodes to.
pub open spec fn slot_card(d: Seq<u8>, dir: int, j: int, bm: int) -> int {
    match roaring_decoded(slot_bitmap(d, dir, j, 3, bm)) {
        Some(s) => s.len() as int,
        None => 0,
    }
}

/// The statistics after the first `k` slots of a table of `n`: total bitmap bytes, total
/// documents, least and most documents of a decodable bitmap, and whether the scan ran
/// past the data (which ends it). Bytes count every slot read; documents only those
/// whose bitmap lies in the data and decodes. The least is replaced by a count when it is
/// still 0, when the table has one trigram, or when the count is smaller.
pub open spec fn stats_scan(d: Seq<u8>, dir: int, bm: int, n: int, k: nat) -> (int, int, int, int, bool)
    decreases k,
{
    if k == 0 {
        (0, 0, 0, 0, false)
    } else {
        let p = stats_scan(d, dir, bm, n, (k - 1) as nat);
        let j = k - 1;
        if p.4 {
            p
        } else if slot_pos(dir, j + 1, 3) > d.len() {
            (p.0, p.1, p.2, p.3, true)
        } else {
            let bytes = p.0 + slot_len(d, dir, j, 3);
            if slot_bitmap_ok(d, dir, j, 3, bm) {
                let card = slot_card(d, dir, j, bm);
                let mn = if n == 1 || p.2 == 0 || card < p.2 { card } else { p.2 };
                let mx = if card > p.3 { card } else { p.3 };
                (bytes, p.1 + card, mn, mx, false)
            } else {
                (bytes, p.1, p.2, p.3, false)
            }
        }
    }
}

/// Once the scan has run past the data, later slots change nothing.
proof fn lemma_scan_stopped(d: Seq<u8>, dir: int, bm: int, n: int, k: nat, k2: nat)
    requires
        stats_scan(d, dir, bm, n, k).4,
        k <= k2,
    ensures
        stats_scan(d, dir, bm, n, k2) == stats_scan(d, dir, bm, n, k),
    decreases k2,
{
    if k < k2 {
        lemma_scan_stopped(d, dir, bm, n, k, (k2 - 1) as nat);
    }
}

impl<'a> IndexReader<'a> {
    /// Statistics over the trigram table (see `stats_scan`): the trigram count, the total
    /// bitmap bytes, the least, most and total documents per trigram, and the average
    /// (the total divided by the count, 0 for an empty table). Totals are kept modulo
    /// 2^64, as `u64` additions that wrap keep them.
    pub fn trigram_stats(&self) -> (r: TrigramStats)
        ensures
            ({
                let n = self.header.num_trigrams as int;
                let st = stats_scan(self.data@, self.header.trigram_dir_offset as int, self.header.bitmap_data_offset as int, n, n as nat);
                &&& r.count == self.header.num_trigrams as usize
                &&& r.total_bitmap_bytes == st.0 % 0x1_0000_0000_0000_0000
                &&& r.total_docs_indexed == st.1 % 0x1_0000_0000_0000_0000
                &&& r.min_docs == st.2
                &&& r.max_docs == st.3
                &&& r.avg_docs == if n > 0 { (st.1 % 0x1_0000_0000_0000_0000) / n } else { 0 }
            }),
    {
        let n = self.header.num_trigrams;
        let dir = self.header.trigram_dir_offset;
        let bm = self.header.bitmap_data_offset;
        let ulen = self.data.len();
        let len = ulen as u64;
        let ghost d = self.data@;
        let mut bytes: u128 = 0;
        let mut docs: u128 = 0;
        let mut mn: u64 = 0;
        let mut mx: u64 = 0;
        let mut stopped = false;
        let mut i: u64 = 0;
        while i < n && !stopped
            invariant
                0 <= i <= n,
                len == d.len(),
                ulen == d.len(),
                d == self.data@,
                n == self.header.num_trigrams,
                dir == self.header.trigram_dir_offset,
                bm == self.header.bitmap_data_offset,
                stats_scan(d, dir as int, bm as int, n as int, i as nat) == (bytes as int, docs as int, mn as int, mx as int, stopped),
                !stopped ==> i <= 0x1_0000_0000_0000_0000int / 15,
                i <= 0x1_0000_0000_0000_0000int / 15 + 1,
                bytes <= i * 0xFFFF_FFFF,
                docs <= i * 0x1_0000_0000,
            decreases n - i,
        {
            let es: u64 = 15;
            let fits = dir <= len && (len - dir) / es >= i + 1;
            proof {
                assert((i + 1) * 15 == i * 15 + 15);
                if dir <= len {
                    vstd::arithmetic::div_mod::lemma_fundamental_div_mod((len - dir) as int, 15);
                    crate::index::reader::lemma_room((len - dir) as int, 15, (i + 1) as int);
                }
            }
            if !fits {
                stopped = true;
            } else {
                proof {
                    assert(i + 1 <= 0x1_0000_0000_0000_0000int / 15) by {
                        vstd::arithmetic::div_mod::lemma_div_is_ordered((len - dir) as int, 0x1_0000_0000_0000_0000int, 15);
                    }
                }
                let off = (dir + i * 15) as usize;
                let blen = read_u32_at(self.data, off + 11);
                let boff = read_u64_at(self.data, off + 3);
                proof {
                    assert(blen == slot_len(d, dir as int, i as int, 3));
                    assert(boff == slot_offset(d, dir as int, i as int, 3));
                }
                bytes = bytes + (blen as u128);
                if bm <= len && boff <= len - bm && (blen as u64) <= len - bm - boff {
                    let start = (bm + boff) as usize;
                    let end = (bm + boff + blen as u64) as usize;
                    proof {
                        assert(self.data@.subrange(start as int, end as int) == slot_bitmap(d, dir as int, i as int, 3, bm as int));
                    }
                    match bitmap_deserialize(&self.data[start..end]) {
                        Some(b) => {
                            let card = bitmap_len(&b);
                            docs = docs + (card as u128);
                            if n == 1 || mn == 0 || card < mn {
                                mn = card;
                            }
                            if card > mx {
                                mx = card;
                            }
                        },
                        None => {},
                    }
                }
            }
            i = i + 1;
        }
        proof {
            if stopped {
                lemma_scan_stopped(d, dir as int, bm as int, n as int, i as nat, n as nat);
            }
        }
        let total = docs as u64;
        let avg = if n > 0 { total / n } else { 0 };
        proof {
            assert(total == docs % 0x1_0000_0000_0000_0000) by (bit_vector)
                requires
                    total == docs as u64,
            ;
            let tb = bytes as u64;
            assert(tb == bytes % 0x1_0000_0000_0000_0000) by (bit_vector)
                requires
                    tb == bytes as u64,
            ;
        }
        TrigramStats {
            count: n as usize,
            total_bitmap_bytes: bytes as u64,
            min_docs: mn,
            max_docs: mx,
            avg_docs: avg,
            total_docs_indexed: total,
        }
    }
}

} // verus!
