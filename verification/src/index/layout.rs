//! The on-disk encodings of the index sections, as specifications, and the facts that
//! connect a section's bytes to what it was written from.
use vstd::prelude::*;
use vstd::bytes::*;

verus! {

/// The concatenation of byte pieces, in order.
pub open spec fn concat(pieces: Seq<Seq<u8>>) -> Seq<u8>
    decreases pieces.len(),
{
    if pieces.len() == 0 {
        Seq::empty()
    } else {
        concat(pieces.drop_last()) + pieces.last()
    }
}

/// Where piece `j` starts inside `concat(pieces)`.
pub open spec fn piece_start(pieces: Seq<Seq<u8>>, j: int) -> int {
    concat(pieces.take(j)).len() as int
}

pub proof fn lemma_concat_push(pieces: Seq<Seq<u8>>, x: Seq<u8>)
    ensures
        concat(pieces.push(x)) == concat(pieces) + x,
{
    assert(pieces.push(x).drop_last() =~= pieces);
}

/// Piece `j` sits at `piece_start(pieces, j)` inside the concatenation, and starts and
/// lengths add up.
pub proof fn lemma_concat_piece(pieces: Seq<Seq<u8>>, j: int)
    requires
        0 <= j < pieces.len(),
    ensures
        piece_start(pieces, j) + pieces[j].len() <= concat(pieces).len(),
        piece_start(pieces, j + 1) == piece_start(pieces, j) + pieces[j].len(),
        concat(pieces).subrange(piece_start(pieces, j), piece_start(pieces, j) + pieces[j].len())
            == pieces[j],
    decreases pieces.len(),
{
    if j == pieces.len() - 1 {
        assert(pieces.take(j + 1) =~= pieces);
        assert(pieces.take(j) =~= pieces.drop_last());
        let c = concat(pieces.drop_last());
        assert(concat(pieces) == c + pieces.last());
        assert((c + pieces.last()).subrange(c.len() as int, (c.len() + pieces.last().len()) as int)
            =~= pieces.last());
    } else {
        let init = pieces.drop_last();
        lemma_concat_piece(init, j);
        assert(init.take(j) =~= pieces.take(j));
        assert(init.take(j + 1) =~= pieces.take(j + 1));
        let c = concat(init);
        assert(concat(pieces) == c + pieces.last());
        assert((c + pieces.last()).subrange(piece_start(pieces, j), piece_start(pieces, j)
            + pieces[j].len()) =~= c.subrange(piece_start(pieces, j), piece_start(pieces, j)
            + pieces[j].len()));
    }
}

/// The concatenation of the first `j` pieces is a prefix of the whole.
pub proof fn lemma_concat_prefix(pieces: Seq<Seq<u8>>, j: int)
    requires
        0 <= j <= pieces.len(),
    ensures
        concat(pieces.take(j)).len() <= concat(pieces).len(),
        concat(pieces).subrange(0, piece_start(pieces, j)) == concat(pieces.take(j)),
    decreases pieces.len(),
{
    if j == pieces.len() {
        assert(pieces.take(j) =~= pieces);
        assert(concat(pieces).subrange(0, concat(pieces).len() as int) =~= concat(pieces));
    } else {
        let init = pieces.drop_last();
        lemma_concat_prefix(init, j);
        assert(init.take(j) =~= pieces.take(j));
        let c = concat(init);
        assert(concat(pieces) == c + pieces.last());
        assert((c + pieces.last()).subrange(0, piece_start(pieces, j)) =~= c.subrange(
            0,
            piece_start(pieces, j),
        ));
    }
}

/// A concatenation of pieces of one fixed size `w` has piece `j` at `j * w`.
pub proof fn lemma_concat_fixed(pieces: Seq<Seq<u8>>, w: int, j: int)
    requires
        0 <= j <= pieces.len(),
        forall|i: int| 0 <= i < pieces.len() ==> #[trigger] pieces[i].len() == w,
    ensures
        piece_start(pieces, j) == j * w,
    decreases j,
{
    if j > 0 {
        lemma_concat_fixed(pieces, w, j - 1);
        lemma_concat_piece(pieces, j - 1);
        assert(pieces[j - 1].len() == w);
        assert(j * w == (j - 1) * w + w) by (nonlinear_arith);
    } else {
        assert(pieces.take(0) =~= Seq::<Seq<u8>>::empty());
        assert(concat(pieces.take(0)).len() == 0);
        assert(j * w == 0) by (nonlinear_arith)
            requires
                j == 0,
        ;
    }
}

/// The length of a concatenation is the start of the one-past-last piece.
pub proof fn lemma_concat_len(pieces: Seq<Seq<u8>>)
    ensures
        piece_start(pieces, pieces.len() as int) == concat(pieces).len(),
{
    assert(pieces.take(pieces.len() as int) =~= pieces);
}

/// Encodings of `u64` values, eight bytes each.
pub open spec fn u64_pieces(vals: Seq<u64>) -> Seq<Seq<u8>> {
    vals.map_values(|v: u64| spec_u64_to_le_bytes(v))
}

/// One file as the writer records it: the path and MIME type as UTF-8 bytes.
pub struct FileRecord {
    pub path: Seq<u8>,
    pub size: u64,
    pub mtime: i64,
    pub mode: u32,
    pub mime: Seq<u8>,
}

/// A file's record in the file directory: path length (u32), path, size, mtime, mode,
/// MIME length (one byte), MIME type. Lengths are stored truncated to their field width.
pub open spec fn record_bytes(r: FileRecord) -> Seq<u8> {
    spec_u32_to_le_bytes(r.path.len() as u32) + r.path + spec_u64_to_le_bytes(r.size)
        + spec_u64_to_le_bytes(r.mtime as u64) + spec_u32_to_le_bytes(r.mode) + seq![
        r.mime.len() as u8,
    ] + r.mime
}

/// A record whose lengths fit their fields, so that it reads back whole.
pub open spec fn record_fits(r: FileRecord) -> bool {
    r.path.len() <= u32::MAX && r.mime.len() <= 255
}

pub open spec fn record_pieces(files: Seq<FileRecord>) -> Seq<Seq<u8>> {
    files.map_values(|r: FileRecord| record_bytes(r))
}

/// The file directory: all records, in the order they were added.
pub open spec fn file_dir_bytes(files: Seq<FileRecord>) -> Seq<u8> {
    concat(record_pieces(files))
}

/// Where record `i` starts inside the file directory.
pub open spec fn record_offset(files: Seq<FileRecord>, i: int) -> int {
    piece_start(record_pieces(files), i)
}

/// 256 to the power `n`.
pub open spec fn pow256(n: nat) -> nat
    decreases n,
{
    if n == 0 {
        1
    } else {
        256 * pow256((n - 1) as nat)
    }
}

/// The big-endian value of a byte string. For keys of one length this orders them as
/// their bytes compare.
pub open spec fn pack_be(s: Seq<u8>) -> nat
    decreases s.len(),
{
    if s.len() == 0 {
        0
    } else {
        pack_be(s.drop_last()) * 256 + s.last() as nat
    }
}

/// A key packs into a value below `256` to the power of its length.
pub proof fn lemma_pack_bound(s: Seq<u8>)
    ensures
        pack_be(s) < pow256(s.len()),
    decreases s.len(),
{
    if s.len() > 0 {
        lemma_pack_bound(s.drop_last());
        let p = pack_be(s.drop_last());
        let q = pow256((s.len() - 1) as nat);
        assert(p * 256 + s.last() < q * 256) by (nonlinear_arith)
            requires
                p < q,
                s.last() < 256,
        ;
    }
}

/// Keys of one length with the same value are the same bytes.
pub proof fn lemma_pack_injective(s: Seq<u8>, t: Seq<u8>)
    requires
        s.len() == t.len(),
        pack_be(s) == pack_be(t),
    ensures
        s == t,
    decreases s.len(),
{
    if s.len() > 0 {
        let ps = pack_be(s.drop_last());
        let pt = pack_be(t.drop_last());
        let a = s.last() as int;
        let b = t.last() as int;
        assert(ps == pt && a == b) by (nonlinear_arith)
            requires
                ps * 256 + a == pt * 256 + b,
                0 <= a < 256,
                0 <= b < 256,
                ps >= 0,
                pt >= 0,
        ;
        lemma_pack_injective(s.drop_last(), t.drop_last());
        assert(s =~= s.drop_last().push(s.last()));
        assert(t =~= t.drop_last().push(t.last()));
    }
}

/// Eight bytes span `2^64` values.
pub proof fn lemma_pow256_8()
    ensures
        pow256(8) == 0x1_0000_0000_0000_0000,
        pow256(3) == 0x100_0000,
        pow256(2) == 0x1_0000,
{
    reveal_with_fuel(pow256, 9);
}

/// A key of at most eight bytes packs into a `u64`.
pub proof fn lemma_pack_fits(s: Seq<u8>)
    requires
        s.len() <= 8,
    ensures
        pack_be(s) <= u64::MAX,
{
    lemma_pack_bound(s);
    lemma_pow256_8();
    lemma_pow256_mono(s.len(), 8);
}

/// Powers of 256 grow with the exponent.
pub proof fn lemma_pow256_mono(a: nat, b: nat)
    requires
        a <= b,
    ensures
        pow256(a) <= pow256(b),
    decreases b,
{
    if a < b {
        lemma_pow256_mono(a, (b - 1) as nat);
    }
}

/// The big-endian value of a key of at most eight bytes.
pub(crate) fn pack_key(b: &[u8]) -> (v: u64)
    requires
        b@.len() <= 8,
    ensures
        v == pack_be(b@),
{
    let n = b.len();
    let mut acc: u64 = 0;
    let mut i: usize = 0;
    while i < n
        invariant
            n == b@.len(),
            n <= 8,
            0 <= i <= n,
            acc == pack_be(b@.take(i as int)),
        decreases n - i,
    {
        proof {
            lemma_pack_bound(b@.take(i as int));
            lemma_pow256_mono(i as nat, 7);
            reveal_with_fuel(pow256, 8);
            assert(acc * 256 + 255 <= u64::MAX) by (nonlinear_arith)
                requires
                    acc < pow256(i as nat),
                    pow256(i as nat) <= pow256(7),
                    pow256(7) == 0x100_0000_0000_0000,
            ;
            assert(b@.take(i + 1).drop_last() =~= b@.take(i as int));
        }
        acc = acc * 256 + (b[i] as u64);
        i = i + 1;
    }
    proof {
        assert(b@.take(n as int) =~= b@);
    }
    acc
}

/// Byte-wise lexicographic order, which is also the order of `str` comparison.
pub open spec fn bytes_lt(a: Seq<u8>, b: Seq<u8>) -> bool
    decreases a.len(),
{
    if a.len() == 0 {
        b.len() > 0
    } else if b.len() == 0 {
        false
    } else if a[0] < b[0] {
        true
    } else if a[0] > b[0] {
        false
    } else {
        bytes_lt(a.drop_first(), b.drop_first())
    }
}

/// No byte string sorts before itself.
pub proof fn lemma_bytes_lt_irreflexive(a: Seq<u8>)
    ensures
        !bytes_lt(a, a),
    decreases a.len(),
{
    if a.len() > 0 {
        lemma_bytes_lt_irreflexive(a.drop_first());
    }
}

/// The byte order is transitive.
pub proof fn lemma_bytes_lt_transitive(a: Seq<u8>, b: Seq<u8>, c: Seq<u8>)
    requires
        bytes_lt(a, b),
        bytes_lt(b, c),
    ensures
        bytes_lt(a, c),
    decreases a.len(),
{
    if a.len() > 0 && b.len() > 0 && c.len() > 0 && a[0] == b[0] && b[0] == c[0] {
        lemma_bytes_lt_transitive(a.drop_first(), b.drop_first(), c.drop_first());
    }
}

/// Two different byte strings are ordered one way or the other.
pub proof fn lemma_bytes_lt_total(a: Seq<u8>, b: Seq<u8>)
    ensures
        a == b || bytes_lt(a, b) || bytes_lt(b, a),
    decreases a.len(),
{
    if a.len() == 0 {
        if b.len() == 0 {
            assert(a =~= b);
        }
    } else if b.len() > 0 && a[0] == b[0] {
        lemma_bytes_lt_total(a.drop_first(), b.drop_first());
        if a.drop_first() == b.drop_first() {
            assert(a =~= seq![a[0]] + a.drop_first());
            assert(b =~= seq![b[0]] + b.drop_first());
        }
    }
}

/// Two byte strings never sort before each other.
pub proof fn lemma_bytes_lt_asymmetric(a: Seq<u8>, b: Seq<u8>)
    requires
        bytes_lt(a, b),
    ensures
        !bytes_lt(b, a),
{
    if bytes_lt(b, a) {
        lemma_bytes_lt_transitive(a, b, a);
        lemma_bytes_lt_irreflexive(a);
    }
}

/// Compares two byte strings: -1, 0 or 1 as `a` sorts before, equal to, or after `b`.
pub(crate) fn compare_bytes(a: &[u8], b: &[u8]) -> (c: i8)
    ensures
        c == 0 <==> a@ == b@,
        c < 0 <==> bytes_lt(a@, b@),
        c > 0 <==> bytes_lt(b@, a@),
{
    let n = a.len();
    let m = b.len();
    let mut i: usize = 0;
    proof {
        assert(a@.skip(0) =~= a@);
        assert(b@.skip(0) =~= b@);
        assert(a@.take(0) =~= b@.take(0));
    }
    while i < n && i < m && a[i] == b[i]
        invariant
            n == a@.len(),
            m == b@.len(),
            0 <= i <= n,
            i <= m,
            a@.take(i as int) == b@.take(i as int),
            bytes_lt(a@, b@) == bytes_lt(a@.skip(i as int), b@.skip(i as int)),
            bytes_lt(b@, a@) == bytes_lt(b@.skip(i as int), a@.skip(i as int)),
        decreases n - i,
    {
        proof {
            assert(a@.skip(i as int).drop_first() =~= a@.skip(i + 1));
            assert(b@.skip(i as int).drop_first() =~= b@.skip(i + 1));
            assert(a@.take(i + 1) =~= a@.take(i as int).push(a@[i as int]));
            assert(b@.take(i + 1) =~= b@.take(i as int).push(b@[i as int]));
        }
        i = i + 1;
    }
    proof {
        lemma_bytes_lt_irreflexive(a@);
        if i == n && i == m {
            assert(a@ =~= a@.take(i as int));
            assert(b@ =~= b@.take(i as int));
        } else {
            if a@ == b@ {
                if i < n && i < m {
                    assert(a@[i as int] == b@[i as int]);
                }
            }
        }
    }
    if i == n && i == m {
        0
    } else if i == n {
        -1
    } else if i == m {
        1
    } else if a[i] < b[i] {
        -1
    } else {
        1
    }
}

/// Prepending a byte adds it at the key's highest place.
pub proof fn lemma_pack_prepend(x: u8, s: Seq<u8>)
    ensures
        pack_be(seq![x] + s) == x * pow256(s.len()) + pack_be(s),
    decreases s.len(),
{
    if s.len() == 0 {
        assert(seq![x] + s =~= seq![x]);
        assert(seq![x].drop_last() =~= Seq::<u8>::empty());
        assert(pack_be(seq![x]) == pack_be(Seq::<u8>::empty()) * 256 + x);
        assert(pow256(0) == 1);
        assert(x * 1 == x);
    } else {
        let init = s.drop_last();
        lemma_pack_prepend(x, init);
        assert((seq![x] + s).drop_last() =~= seq![x] + init);
        let p = pack_be(init);
        let q = pow256(init.len());
        assert((x * q + p) * 256 + s.last() == x * (256 * q) + (p * 256 + s.last())) by (nonlinear_arith);
        assert((seq![x] + s).last() == s.last());
        assert(pow256(s.len()) == 256 * q);
        assert(pack_be(seq![x] + s) == pack_be(seq![x] + init) * 256 + s.last());
    }
}

/// The `n` big-endian bytes of a value below `256^n`.
pub(crate) fn unpack_key(k: u64, n: usize) -> (r: Vec<u8>)
    requires
        n <= 8,
        k < pow256(n as nat),
    ensures
        r@.len() == n,
        pack_be(r@) == k,
{
    let mut r: Vec<u8> = Vec::new();
    let mut rest: u64 = k;
    let mut i: usize = 0;
    proof {
        assert(pow256(0) == 1);
        assert(rest * 1 == rest);
        assert(pack_be(r@) == 0);
    }
    while i < n
        invariant
            0 <= i <= n,
            n <= 8,
            r@.len() == i,
            k == rest * pow256(i as nat) + pack_be(r@),
        decreases n - i,
    {
        let d = (rest % 256) as u8;
        let ghost old_r = r@;
        let ghost old_rest = rest;
        r.insert(0, d);
        rest = rest / 256;
        proof {
            assert(r@ =~= seq![d] + old_r);
            lemma_pack_prepend(d, old_r);
            let q = pow256(i as nat);
            assert(pow256((i + 1) as nat) == 256 * q);
            assert(old_rest == rest * 256 + d);
            assert(old_rest * q == rest * (256 * q) + d * q) by (nonlinear_arith)
                requires
                    old_rest == rest * 256 + d,
            ;
        }
        i = i + 1;
    }
    proof {
        lemma_pack_bound(r@);
        if rest > 0 {
            assert(rest * pow256(n as nat) >= pow256(n as nat)) by (nonlinear_arith)
                requires
                    rest > 0,
            ;
        }
    }
    r
}

} // verus!
