//! The KMC file pair: a prefix file (`.kmc_pre`) and a suffix file (`.kmc_suf`).
//!
//! Prefix file, integers little-endian:
//!
//! | bytes                 | content                                           |
//! |-----------------------|---------------------------------------------------|
//! | 4                     | marker `KMCP`                                     |
//! | 8 * (4^lut + 1)       | prefix table: index of the first record of each   |
//! |                       | `lut`-symbol prefix, then the number of records   |
//! | 36                    | header: k, mode, counter size, lut, min count,    |
//! |                       | max count (`u32` each), total (`u64`), version    |
//! |                       | (`u32`)                                           |
//! | 4                     | header offset, always 36                          |
//! | 4                     | marker `KMCP`                                     |
//!
//! Suffix file: marker `KMCS`, then one record per k-mer in ascending order
//! (the `k - lut` suffix symbols packed big-endian in `(k - lut) / 4` bytes,
//! then the count in `counter size` bytes little-endian), then marker `KMCS`.
//! A record's k-mer is its prefix (the bucket of the prefix table that holds
//! its index) followed by its suffix.
use vstd::prelude::*;

use vstd::arithmetic::div_mod::{lemma_fundamental_div_mod, lemma_fundamental_div_mod_converse};
use vstd::arithmetic::mul::lemma_mul_inequality;

use crate::codec::{lemma_pow4_32, lemma_pow4_bounded, lemma_pow4_monotone, pow4, pow4_u64};
use crate::error::KmcError;

verus! {

/// Size of the header of the prefix file.
pub const HEADER_LEN: usize = 36;

/// The only supported file-format version.
pub const FORMAT_VERSION: u64 = 0;

/// The little-endian value of the `n` bytes of `b` from `off`.
pub open spec fn le(b: Seq<u8>, off: int, n: nat) -> nat
    decreases n,
{
    if n == 0 {
        0
    } else {
        b[off] as nat + 256 * le(b, off + 1, (n - 1) as nat)
    }
}

/// The big-endian value of the `n` bytes of `b` from `off`.
pub open spec fn be(b: Seq<u8>, off: int, n: nat) -> nat
    decreases n,
{
    if n == 0 {
        0
    } else {
        be(b, off, (n - 1) as nat) * 256 + b[off + n - 1] as nat
    }
}

pub proof fn lemma_pow4_add(a: nat, b: nat)
    ensures
        pow4(a + b) == pow4(a) * pow4(b),
    decreases a,
{
    if a > 0 {
        lemma_pow4_add((a - 1) as nat, b);
        assert(pow4(a) == 4 * pow4((a - 1) as nat));
        assert((a - 1 + b) as nat + 1 == a + b);
        assert(pow4(a + b) == 4 * pow4((a - 1 + b) as nat));
        let x = pow4((a - 1) as nat);
        let y = pow4(b);
        assert(4 * (x * y) == (4 * x) * y) by (nonlinear_arith);
        assert(pow4(a + b) == pow4(a) * y);
    } else {
        assert(pow4(0) == 1);
        assert(a + b == b);
    }
}

proof fn lemma_byte_step(n: nat)
    ensures
        pow4(4 * (n + 1)) == 256 * pow4(4 * n),
{
    lemma_pow4_add(4, 4 * n);
    assert(pow4(4) == 256) by {
        reveal_with_fuel(pow4, 5);
    }
    assert(4 * (n + 1) == 4 + 4 * n);
}

/// Last byte of the prefix file's marker `KMCP`.
pub const PRE_TAG: u8 = 0x50;

/// Last byte of the suffix file's marker `KMCS`.
pub const SUF_TAG: u8 = 0x53;

/// Whether `b` holds the marker `KMC` followed by `tag` at `off`.
pub open spec fn is_marker(b: Seq<u8>, off: int, tag: u8) -> bool {
    b[off] == 0x4B && b[off + 1] == 0x4D && b[off + 2] == 0x43 && b[off + 3] == tag
}

/// The `n`-byte header field at `rel` from the start of the header.
pub open spec fn header_field(pre: Seq<u8>, rel: int, n: nat) -> nat {
    le(pre, pre.len() - 44 + rel, n)
}

/// The k-mer length `k`.
pub open spec fn kmer_len_of(pre: Seq<u8>) -> nat {
    header_field(pre, 0, 4)
}

/// The counter mode (0: plain counts).
pub open spec fn mode_of(pre: Seq<u8>) -> nat {
    header_field(pre, 4, 4)
}

/// Bytes of a record's count.
pub open spec fn counter_size_of(pre: Seq<u8>) -> nat {
    header_field(pre, 8, 4)
}

/// Symbols of the prefix that the table indexes.
pub open spec fn lut_of(pre: Seq<u8>) -> nat {
    header_field(pre, 12, 4)
}

/// Number of records.
pub open spec fn total_of(pre: Seq<u8>) -> nat {
    header_field(pre, 24, 8)
}

/// The file-format version.
pub open spec fn version_of(pre: Seq<u8>) -> nat {
    header_field(pre, 32, 4)
}

/// Distance from the header's start to the header offset field.
pub open spec fn header_offset_of(pre: Seq<u8>) -> nat {
    le(pre, pre.len() - 8, 4)
}

/// Number of prefix buckets, `4^lut`.
pub open spec fn n_buckets(pre: Seq<u8>) -> nat {
    pow4(lut_of(pre))
}

/// Entry `p` of the prefix table.
pub open spec fn table_entry(pre: Seq<u8>, p: int) -> nat {
    le(pre, 4 + 8 * p, 8)
}

/// Bytes of a record's suffix.
pub open spec fn suffix_len(pre: Seq<u8>) -> nat {
    ((kmer_len_of(pre) - lut_of(pre)) / 4) as nat
}

/// Bytes of a record.
pub open spec fn record_len(pre: Seq<u8>) -> nat {
    suffix_len(pre) + counter_size_of(pre)
}

/// The prefix file's markers and header are well formed and supported.
pub open spec fn header_ok(pre: Seq<u8>) -> bool {
    &&& pre.len() >= 64
    &&& is_marker(pre, 0, PRE_TAG)
    &&& is_marker(pre, pre.len() - 4, PRE_TAG)
    &&& header_offset_of(pre) == HEADER_LEN
    &&& version_of(pre) == FORMAT_VERSION
    &&& mode_of(pre) == 0
    &&& 1 <= kmer_len_of(pre) <= 32
    &&& lut_of(pre) <= kmer_len_of(pre)
    &&& (kmer_len_of(pre) - lut_of(pre)) % 4 == 0
    &&& 1 <= counter_size_of(pre) <= 4
    &&& pre.len() == 56 + 8 * n_buckets(pre)
}

/// The prefix table starts at zero, never decreases and ends at the total.
pub open spec fn table_ok(pre: Seq<u8>) -> bool {
    &&& table_entry(pre, 0) == 0
    &&& table_entry(pre, n_buckets(pre) as int) == total_of(pre)
    &&& forall|p: int|
        0 <= p < n_buckets(pre) ==> #[trigger] table_entry(pre, p) <= table_entry(pre, p + 1)
}

/// The suffix file has its markers and exactly `total` records.
pub open spec fn suffix_file_ok(pre: Seq<u8>, suf: Seq<u8>) -> bool {
    &&& suf.len() >= 8
    &&& suf.len() == 8 + total_of(pre) * record_len(pre)
    &&& is_marker(suf, 0, SUF_TAG)
    &&& is_marker(suf, suf.len() - 4, SUF_TAG)
}

/// The file pair follows the layout of this module.
pub open spec fn layout_ok(pre: Seq<u8>, suf: Seq<u8>) -> bool {
    header_ok(pre) && table_ok(pre) && suffix_file_ok(pre, suf)
}

/// The bucket of the prefix table that holds record `i`.
pub open spec fn bucket_of(pre: Seq<u8>, i: int) -> int {
    choose|p: int|
        0 <= p < n_buckets(pre) && #[trigger] table_entry(pre, p) <= i < table_entry(pre, p + 1)
}

/// Offset of record `i` in the suffix file.
pub open spec fn record_offset(pre: Seq<u8>, i: int) -> int {
    4 + i * record_len(pre)
}

/// The k-mer of record `i`: its bucket's prefix, then its suffix.
pub open spec fn kmer_at(pre: Seq<u8>, suf: Seq<u8>, i: int) -> nat {
    (bucket_of(pre, i) as nat) * pow4((kmer_len_of(pre) - lut_of(pre)) as nat) + be(
        suf,
        record_offset(pre, i),
        suffix_len(pre),
    )
}

/// The count of record `i`.
pub open spec fn count_at(pre: Seq<u8>, suf: Seq<u8>, i: int) -> nat {
    le(suf, record_offset(pre, i) + suffix_len(pre), counter_size_of(pre))
}

/// The records of the file pair in stored order: (packed k-mer, count).
pub open spec fn stored_records(pre: Seq<u8>, suf: Seq<u8>) -> Seq<(u64, u32)> {
    Seq::new(
        total_of(pre),
        |i: int| (kmer_at(pre, suf, i) as u64, count_at(pre, suf, i) as u32),
    )
}

pub proof fn lemma_table_monotone(pre: Seq<u8>, a: int, b: int)
    requires
        table_ok(pre),
        0 <= a <= b <= n_buckets(pre),
    ensures
        table_entry(pre, a) <= table_entry(pre, b),
    decreases b - a,
{
    if a < b {
        lemma_table_monotone(pre, a, b - 1);
        assert(table_entry(pre, b - 1) <= table_entry(pre, b - 1 + 1));
    }
}

/// Record `i` lies in bucket `p` exactly when the table says so.
pub proof fn lemma_bucket_of(pre: Seq<u8>, p: int, i: int)
    requires
        table_ok(pre),
        0 <= p < n_buckets(pre),
        table_entry(pre, p) <= i < table_entry(pre, p + 1),
    ensures
        bucket_of(pre, i) == p,
{
    let q = bucket_of(pre, i);
    assert(0 <= q < n_buckets(pre) && table_entry(pre, q) <= i < table_entry(pre, q + 1));
    if q < p {
        lemma_table_monotone(pre, q + 1, p);
    } else if p < q {
        lemma_table_monotone(pre, p + 1, q);
    }
}

/// Read `n <= 8` bytes little-endian.
fn read_le(b: &[u8], off: usize, n: usize) -> (r: u64)
    requires
        off + n <= b@.len(),
        n <= 8,
    ensures
        r as nat == le(b@, off as int, n as nat),
        r < pow4(4 * n as nat),
{
    let len = b.len();
    let mut v: u64 = 0;
    let mut j: usize = n;
    while j > 0
        invariant
            len == b@.len(),
            j <= n <= 8,
            off + n <= b@.len(),
            v as nat == le(b@, off + j, (n - j) as nat),
            v < pow4(4 * (n - j) as nat),
        decreases j,
    {
        j = j - 1;
        proof {
            lemma_byte_step((n - j - 1) as nat);
            lemma_pow4_bounded(4 * (n - j) as nat);
            assert(le(b@, off + j, (n - j) as nat) == b@[off + j] as nat + 256 * le(
                b@,
                off + j + 1,
                (n - j - 1) as nat,
            ));
        }
        v = b[off + j] as u64 + 256 * v;
    }
    v
}

/// Read `n <= 8` bytes big-endian.
fn read_be(b: &[u8], off: usize, n: usize) -> (r: u64)
    requires
        off + n <= b@.len(),
        n <= 8,
    ensures
        r as nat == be(b@, off as int, n as nat),
        r < pow4(4 * n as nat),
{
    let len = b.len();
    let mut v: u64 = 0;
    let mut j: usize = 0;
    while j < n
        invariant
            len == b@.len(),
            j <= n <= 8,
            off + n <= b@.len(),
            v as nat == be(b@, off as int, j as nat),
            v < pow4(4 * j as nat),
        decreases n - j,
    {
        proof {
            lemma_byte_step(j as nat);
            lemma_pow4_bounded(4 * (j + 1) as nat);
        }
        v = v * 256 + b[off + j] as u64;
        j = j + 1;
    }
    v
}

} // verus!

verus! {

/// Decode record `i`, which lies in bucket `p`.
fn decode_record(
    pre: &[u8],
    suf: &[u8],
    lut: u64,
    m: u64,
    sl: usize,
    cs: usize,
    p: usize,
    i: usize,
) -> (r: (u64, u32))
    requires
        layout_ok(pre@, suf@),
        lut as nat == lut_of(pre@),
        lut > 0 ==> m as nat == pow4((kmer_len_of(pre@) - lut_of(pre@)) as nat),
        sl as nat == suffix_len(pre@),
        cs as nat == counter_size_of(pre@),
        0 <= p < n_buckets(pre@),
        table_entry(pre@, p as int) <= i < table_entry(pre@, p + 1),
    ensures
        i < total_of(pre@),
        r == stored_records(pre@, suf@)[i as int],
{
    let ghost pre_s = pre@;
    let ghost suf_s = suf@;
    let ghost k = kmer_len_of(pre_s);
    let ghost total = total_of(pre_s);
    let ghost rl = record_len(pre_s);
    let ghost nb = n_buckets(pre_s);
    proof {
        lemma_table_monotone(pre_s, p + 1, nb as int);
        lemma_bucket_of(pre_s, p as int, i as int);
        assert((i + 1) * rl <= total * rl) by (nonlinear_arith)
            requires
                i + 1 <= total,
        ;
        assert((i + 1) * rl == i * rl + rl) by (nonlinear_arith);
    }
    let len = suf.len();
    let off = 4 + i * (sl + cs);
    let sfx = read_be(suf, off, sl);
    let cnt = read_le(suf, off + sl, cs);
    proof {
        assert(4 * sl == k - lut);
    }
    let kmer: u64 = if lut == 0 {
        proof {
            assert(nb == 1);
            assert(p == 0);
        }
        sfx
    } else {
        let ghost s = (k - lut) as nat;
        proof {
            lemma_pow4_add(lut as nat, s);
            assert(lut + s == k);
            lemma_pow4_bounded(k);
            assert(p * m + sfx < (p + 1) * m) by (nonlinear_arith)
                requires
                    sfx < m,
            ;
            lemma_mul_inequality(p + 1, nb as int, m as int);
        }
        p as u64 * m + sfx
    };
    (kmer, cnt as u32)
}

/// Check the prefix table: first entry zero, never decreasing, last entry `total`.
fn check_table(pre: &[u8], nb: usize, total: u64) -> (ok: bool)
    requires
        pre@.len() == 56 + 8 * nb,
        nb == n_buckets(pre@),
        total == total_of(pre@),
    ensures
        ok == table_ok(pre@),
{
    let len = pre.len();
    let first = read_le(pre, 4, 8);
    if first != 0 {
        return false;
    }
    let mut p: usize = 0;
    let mut prev: u64 = first;
    while p < nb
        invariant
            len == pre@.len(),
            pre@.len() == 56 + 8 * nb,
            nb == n_buckets(pre@),
            p <= nb,
            prev == table_entry(pre@, p as int),
            table_entry(pre@, 0) == 0,
            forall|q: int| 0 <= q < p ==> #[trigger] table_entry(pre@, q) <= table_entry(pre@, q + 1),
        decreases nb - p,
    {
        let next = read_le(pre, 4 + 8 * (p + 1), 8);
        if next < prev {
            return false;
        }
        prev = next;
        p = p + 1;
    }
    prev == total
}

/// The geometry that the header of a well-formed prefix file gives.
struct Geometry {
    pub k: u64,
    pub lut: u64,
    pub counter_size: u64,
    pub total: u64,
    pub n_buckets: usize,
}

/// Read and check the markers and the header of the prefix file.
fn read_header(pre: &[u8]) -> (r: Option<Geometry>)
    ensures
        r is Some <==> header_ok(pre@),
        r matches Some(g) ==> {
            &&& g.k as nat == kmer_len_of(pre@)
            &&& g.lut as nat == lut_of(pre@)
            &&& g.counter_size as nat == counter_size_of(pre@)
            &&& g.total as nat == total_of(pre@)
            &&& g.n_buckets as nat == n_buckets(pre@)
        },
{
    let n = pre.len();
    if n < 64 {
        return None;
    }
    if !(pre[0] == 0x4B && pre[1] == 0x4D && pre[2] == 0x43 && pre[3] == PRE_TAG) {
        return None;
    }
    if !(pre[n - 4] == 0x4B && pre[n - 3] == 0x4D && pre[n - 2] == 0x43 && pre[n - 1] == PRE_TAG) {
        return None;
    }
    if read_le(pre, n - 8, 4) != HEADER_LEN as u64 {
        return None;
    }
    let h = n - 44;
    let k = read_le(pre, h, 4);
    let mode = read_le(pre, h + 4, 4);
    let cs = read_le(pre, h + 8, 4);
    let lut = read_le(pre, h + 12, 4);
    let total = read_le(pre, h + 24, 8);
    let version = read_le(pre, h + 32, 4);
    if version != FORMAT_VERSION || mode != 0 || k < 1 || k > 32 || lut > k || (k - lut) % 4
        != 0 || cs < 1 || cs > 4 {
        return None;
    }
    if lut > 30 {
        proof {
            lemma_pow4_32();
            lemma_pow4_monotone(31, lut as nat);
            assert(pow4(32) == 4 * pow4(31));
        }
        return None;
    }
    let nb = pow4_u64(lut as u32);
    proof {
        lemma_pow4_monotone(lut as nat, 30);
        lemma_pow4_bounded(30);
        assert(pow4(32) == 4 * pow4(31));
        assert(pow4(31) == 4 * pow4(30));
        lemma_pow4_32();
    }
    if n as u64 != 56 + 8 * nb {
        return None;
    }
    Some(Geometry { k, lut, counter_size: cs, total, n_buckets: nb as usize })
}

/// Check the markers of the suffix file and that it holds `total` records.
fn check_suffix_file(suf: &[u8], total: u64, rl: usize) -> (ok: bool)
    requires
        rl >= 1,
    ensures
        ok == (suf@.len() >= 8 && suf@.len() == 8 + total * rl && is_marker(suf@, 0, SUF_TAG)
            && is_marker(suf@, suf@.len() - 4, SUF_TAG)),
{
    let sn = suf.len();
    if sn < 8 {
        return false;
    }
    if !(suf[0] == 0x4B && suf[1] == 0x4D && suf[2] == 0x43 && suf[3] == SUF_TAG) {
        return false;
    }
    if !(suf[sn - 4] == 0x4B && suf[sn - 3] == 0x4D && suf[sn - 2] == 0x43 && suf[sn - 1]
        == SUF_TAG) {
        return false;
    }
    let body = sn - 8;
    proof {
        lemma_fundamental_div_mod(body as int, rl as int);
        assert(rl * (body / rl) == (body / rl) * rl) by (nonlinear_arith);
        if body == total * rl {
            assert(total * rl == rl * total) by (nonlinear_arith);
            lemma_fundamental_div_mod_converse(body as int, rl as int, total as int, 0);
        }
    }
    body % rl == 0 && (body / rl) as u64 == total
}

/// Decode every record of a well-formed file pair.
fn decode_records(pre: &[u8], suf: &[u8], g: &Geometry) -> (recs: Vec<(u64, u32)>)
    requires
        layout_ok(pre@, suf@),
        g.k as nat == kmer_len_of(pre@),
        g.lut as nat == lut_of(pre@),
        g.counter_size as nat == counter_size_of(pre@),
        g.total as nat == total_of(pre@),
        g.n_buckets as nat == n_buckets(pre@),
    ensures
        recs@ == stored_records(pre@, suf@),
{
    let k = g.k;
    let lut = g.lut;
    let nbu = g.n_buckets;
    let total = g.total;
    let sl = ((k - lut) / 4) as usize;
    let csu = g.counter_size as usize;
    let m: u64 = if lut == 0 {
        0
    } else {
        pow4_u64((k - lut) as u32)
    };
    let plen = pre.len();
    let slen = suf.len();
    proof {
        assert(total <= total * record_len(pre@)) by (nonlinear_arith)
            requires
                record_len(pre@) >= 1,
        ;
    }
    let ghost recs_s = stored_records(pre@, suf@);
    let mut recs: Vec<(u64, u32)> = Vec::new();
    let mut p: usize = 0;
    let mut i: usize = 0;
    while p < nbu
        invariant
            layout_ok(pre@, suf@),
            recs_s == stored_records(pre@, suf@),
            plen == pre@.len(),
            slen == suf@.len(),
            nbu == n_buckets(pre@),
            lut as nat == lut_of(pre@),
            lut > 0 ==> m as nat == pow4((kmer_len_of(pre@) - lut_of(pre@)) as nat),
            sl as nat == suffix_len(pre@),
            csu as nat == counter_size_of(pre@),
            total == total_of(pre@),
            total <= slen,
            p <= nbu,
            i as nat == table_entry(pre@, p as int),
            recs@ == recs_s.take(i as int),
        decreases nbu - p,
    {
        let end = read_le(pre, 4 + 8 * (p + 1), 8);
        proof {
            assert(table_entry(pre@, p as int) <= table_entry(pre@, p + 1));
            lemma_table_monotone(pre@, p + 1, nbu as int);
        }
        while (i as u64) < end
            invariant
                layout_ok(pre@, suf@),
                recs_s == stored_records(pre@, suf@),
                nbu == n_buckets(pre@),
                lut as nat == lut_of(pre@),
                lut > 0 ==> m as nat == pow4((kmer_len_of(pre@) - lut_of(pre@)) as nat),
                sl as nat == suffix_len(pre@),
                csu as nat == counter_size_of(pre@),
                total == total_of(pre@),
                total <= slen,
                slen == suf@.len(),
                p < nbu,
                end == table_entry(pre@, p + 1),
                end <= total,
                table_entry(pre@, p as int) <= i <= end,
                recs@ == recs_s.take(i as int),
            decreases end - i,
        {
            let rec = decode_record(pre, suf, lut, m, sl, csu, p, i);
            recs.push(rec);
            proof {
                assert(recs_s.take(i + 1) =~= recs_s.take(i as int).push(recs_s[i as int]));
            }
            i = i + 1;
        }
        p = p + 1;
    }
    proof {
        assert(recs_s.take(i as int) =~= recs_s);
    }
    recs
}

/// Decode a KMC file pair into its k-mer length and its records in stored
/// order; fails exactly when the pair does not follow the layout of this module.
pub fn parse_database(pre: &[u8], suf: &[u8]) -> (r: Result<(u32, Vec<(u64, u32)>), KmcError>)
    ensures
        r is Ok <==> layout_ok(pre@, suf@),
        r matches Ok(v) ==> v.0 as nat == kmer_len_of(pre@) && v.1@ == stored_records(
            pre@,
            suf@,
        ),
        r matches Err(e) ==> e == KmcError::OpenFailed,
{
    let g = match read_header(pre) {
        Some(g) => g,
        None => {
            return Err(KmcError::OpenFailed);
        },
    };
    if !check_table(pre, g.n_buckets, g.total) {
        return Err(KmcError::OpenFailed);
    }
    let rl = ((g.k - g.lut) / 4) as usize + g.counter_size as usize;
    if !check_suffix_file(suf, g.total, rl) {
        return Err(KmcError::OpenFailed);
    }
    let recs = decode_records(pre, suf, &g);
    Ok((g.k as u32, recs))
}

} // verus!
