//! An opened k-mer count database: random-access lookup or ordered listing.
use vstd::prelude::*;

use crate::codec::{canonical, canonicalize, pow4, Kmer, KmerView, MAX_K};
use crate::error::KmcError;
use crate::format::{kmer_len_of, layout_ok, parse_database, stored_records};

verus! {

/// The access mode a database was opened in.
#[derive(PartialEq, Eq, Structural, Debug, Clone, Copy)]
pub enum Mode {
    RandomAccess,
    Iterator,
    Closed,
}

/// Records whose k-mers strictly ascend (so each k-mer occurs once).
pub open spec fn strictly_sorted(recs: Seq<(u64, u32)>) -> bool {
    forall|i: int, j: int| 0 <= i < j < recs.len() ==> #[trigger] recs[i].0 < #[trigger] recs[j].0
}

/// Every record holds a canonical `k`-mer.
pub open spec fn all_canonical(recs: Seq<(u64, u32)>, k: nat) -> bool {
    forall|i: int|
        0 <= i < recs.len() ==> (#[trigger] recs[i]).0 < pow4(k) && canonical(recs[i].0 as nat, k)
            == recs[i].0 as nat
}

/// What an opened database must hold: a length in `1..=32` and canonical
/// k-mers in strictly ascending order.
pub open spec fn index_valid(k: nat, recs: Seq<(u64, u32)>) -> bool {
    1 <= k <= MAX_K && strictly_sorted(recs) && all_canonical(recs, k)
}

/// Whether a file pair opens: it follows the layout and its records are valid.
pub open spec fn opens(pre: Seq<u8>, suf: Seq<u8>) -> bool {
    layout_ok(pre, suf) && index_valid(kmer_len_of(pre), stored_records(pre, suf))
}

/// The count recorded for k-mer `x`, or zero when no record holds it.
pub open spec fn lookup(recs: Seq<(u64, u32)>, x: nat) -> nat {
    if exists|i: int| 0 <= i < recs.len() && recs[i].0 == x {
        recs[choose|i: int| 0 <= i < recs.len() && recs[i].0 == x].1 as nat
    } else {
        0
    }
}

/// What a [`KmcFile`] stands for.
pub struct DbView {
    pub k: nat,
    pub mode: Mode,
    pub records: Seq<(u64, u32)>,
    pub cursor: nat,
}

/// The state just opened from a file pair.
pub open spec fn opened(pre: Seq<u8>, suf: Seq<u8>, mode: Mode) -> DbView {
    DbView { k: kmer_len_of(pre), mode, records: stored_records(pre, suf), cursor: 0 }
}

/// What a full drain yields from the cursor on: (k-mer, count) pairs.
pub open spec fn drained(m: DbView) -> Seq<(u64, usize)> {
    Seq::new(
        (m.records.len() - m.cursor) as nat,
        |j: int| (m.records[m.cursor + j].0, m.records[m.cursor + j].1 as usize),
    )
}

/// The state after a full drain: the cursor past the last record.
pub open spec fn after_drain(m: DbView) -> DbView {
    DbView { cursor: m.records.len(), ..m }
}

/// The state after a restart: the cursor back at the first record.
pub open spec fn after_restart(m: DbView) -> DbView {
    DbView { cursor: 0, ..m }
}

/// The state after one step of the cursor.
pub open spec fn after_step(m: DbView) -> DbView {
    DbView { cursor: m.cursor + 1, ..m }
}

/// A KMC database held in memory, opened for random access or for listing.
pub struct KmcFile {
    k: u32,
    mode: Mode,
    records: Vec<(u64, u32)>,
    cursor: usize,
}

impl View for KmcFile {
    type V = DbView;

    closed spec fn view(&self) -> DbView {
        DbView {
            k: self.k as nat,
            mode: self.mode,
            records: self.records@,
            cursor: self.cursor as nat,
        }
    }
}

/// Whether a database model is consistent: a valid index and a cursor within it.
pub open spec fn db_valid(m: DbView) -> bool {
    index_valid(m.k, m.records) && m.cursor <= m.records.len()
}

/// Position of the record holding `x`, by binary search.
fn find(recs: &Vec<(u64, u32)>, x: u64) -> (r: Option<usize>)
    requires
        strictly_sorted(recs@),
    ensures
        r matches Some(i) ==> i < recs@.len() && recs@[i as int].0 == x,
        r is None ==> forall|i: int| 0 <= i < recs@.len() ==> recs@[i].0 != x,
{
    let mut lo: usize = 0;
    let mut hi: usize = recs.len();
    while lo < hi
        invariant
            strictly_sorted(recs@),
            lo <= hi <= recs@.len(),
            forall|i: int| 0 <= i < lo ==> recs@[i].0 < x,
            forall|i: int| hi <= i < recs@.len() ==> recs@[i].0 > x,
        decreases hi - lo,
    {
        let mid = lo + (hi - lo) / 2;
        let y = recs[mid].0;
        if y == x {
            return Some(mid);
        } else if y < x {
            proof {
                assert forall|i: int| 0 <= i < mid + 1 implies recs@[i].0 < x by {
                    if i < mid {
                        assert(recs@[i].0 < recs@[mid as int].0);
                    }
                }
            }
            lo = mid + 1;
        } else {
            proof {
                assert forall|i: int| mid <= i < recs@.len() implies recs@[i].0 > x by {
                    if i > mid {
                        assert(recs@[mid as int].0 < recs@[i].0);
                    }
                }
            }
            hi = mid;
        }
    }
    None
}

/// With k-mers unique, the count looked up is that of the record holding it.
pub proof fn lemma_lookup_unique(recs: Seq<(u64, u32)>, i: int)
    requires
        strictly_sorted(recs),
        0 <= i < recs.len(),
    ensures
        lookup(recs, recs[i].0 as nat) == recs[i].1 as nat,
{
    let x = recs[i].0 as nat;
    assert(exists|j: int| 0 <= j < recs.len() && recs[j].0 == x);
    let j = choose|j: int| 0 <= j < recs.len() && recs[j].0 == x;
    if j < i {
        assert(recs[j].0 < recs[i].0);
    } else if i < j {
        assert(recs[i].0 < recs[j].0);
    }
}

impl KmcFile {
    #[verifier::type_invariant]
    spec fn inv(&self) -> bool {
        db_valid(self@)
    }

    fn open_in(pre: &[u8], suf: &[u8], mode: Mode) -> (r: Result<KmcFile, KmcError>)
        ensures
            r is Ok <==> opens(pre@, suf@),
            r matches Ok(db) ==> db@ == opened(pre@, suf@, mode),
            r matches Err(e) ==> e == KmcError::OpenFailed,
    {
        let (k, records) = match parse_database(pre, suf) {
            Ok(v) => v,
            Err(e) => {
                return Err(e);
            },
        };
        if k < 1 || k > MAX_K || !check_records(k, &records) {
            return Err(KmcError::OpenFailed);
        }
        Ok(KmcFile { k, mode, records, cursor: 0 })
    }

    /// Open a file pair (the bytes of `<name>.kmc_pre` and `<name>.kmc_suf`)
    /// for random access.
    pub fn open_ra(pre: &[u8], suf: &[u8]) -> (r: Result<KmcFile, KmcError>)
        ensures
            r is Ok <==> opens(pre@, suf@),
            r matches Ok(db) ==> db@ == opened(pre@, suf@, Mode::RandomAccess),
            r matches Err(e) ==> e == KmcError::OpenFailed,
    {
        KmcFile::open_in(pre, suf, Mode::RandomAccess)
    }

    /// Open a file pair for listing, with the cursor on the first record.
    pub fn open_iter(pre: &[u8], suf: &[u8]) -> (r: Result<KmcFile, KmcError>)
        ensures
            r is Ok <==> opens(pre@, suf@),
            r matches Ok(db) ==> db@ == opened(pre@, suf@, Mode::Iterator),
            r matches Err(e) ==> e == KmcError::OpenFailed,
    {
        KmcFile::open_in(pre, suf, Mode::Iterator)
    }

    /// The `k` the database was built with.
    pub fn kmer_length(&self) -> (r: u32)
        ensures
            r as nat == self@.k,
            db_valid(self@),
    {
        proof {
            use_type_invariant(self);
        }
        self.k
    }

    /// The access mode.
    pub fn mode(&self) -> (r: Mode)
        ensures
            r == self@.mode,
    {
        self.mode
    }

    /// Number of distinct canonical k-mers held (none once closed).
    pub fn num_kmers(&mut self) -> (r: usize)
        ensures
            r == old(self)@.records.len(),
            final(self)@ == old(self)@,
    {
        self.records.len()
    }

    /// How often the canonical form of `kmer` is recorded; zero when absent.
    /// Only in random-access mode, and only for a k-mer of the database's length.
    pub fn count_kmer(&self, kmer: &Kmer) -> (r: Result<usize, KmcError>)
        ensures
            self@.mode != Mode::RandomAccess ==> r == Err::<usize, KmcError>(
                KmcError::ModePrecondition,
            ),
            self@.mode == Mode::RandomAccess && kmer@.k != self@.k ==> r == Err::<
                usize,
                KmcError,
            >(KmcError::LengthMismatch),
            self@.mode == Mode::RandomAccess && kmer@.k == self@.k ==> (r matches Ok(c)
                && c == lookup(self@.records, canonical(kmer@.bits, self@.k))),
    {
        proof {
            use_type_invariant(self);
        }
        if self.mode != Mode::RandomAccess {
            return Err(KmcError::ModePrecondition);
        }
        if kmer.len() != self.k {
            return Err(KmcError::LengthMismatch);
        }
        let x = canonicalize(self.k, kmer.as_u64());
        match find(&self.records, x) {
            Some(i) => {
                proof {
                    lemma_lookup_unique(self.records@, i as int);
                }
                Ok(self.records[i].1 as usize)
            },
            None => Ok(0),
        }
    }

    /// Put the cursor back on the first record. Only in listing mode.
    pub fn restart(&mut self) -> (r: Result<(), KmcError>)
        ensures
            old(self)@.mode == Mode::Iterator ==> r is Ok && final(self)@ == after_restart(
                old(self)@,
            ),
            old(self)@.mode != Mode::Iterator ==> r == Err::<(), KmcError>(
                KmcError::ModePrecondition,
            ) && final(self)@ == old(self)@,
    {
        proof {
            use_type_invariant(&*self);
        }
        if self.mode != Mode::Iterator {
            return Err(KmcError::ModePrecondition);
        }
        self.cursor = 0;
        Ok(())
    }

    /// Read the record under the cursor into `kmer` and advance; `None` once
    /// past the last record. The caller guarantees listing mode and a k-mer of
    /// the database's length.
    pub fn read_next_unchecked(&mut self, kmer: &mut Kmer) -> (r: Option<usize>)
        requires
            old(self)@.mode == Mode::Iterator,
            old(kmer)@.k == old(self)@.k,
        ensures
            old(self)@.cursor < old(self)@.records.len() ==> {
                &&& r == Some(old(self)@.records[old(self)@.cursor as int].1 as usize)
                &&& final(kmer)@ == (KmerView {
                    k: old(kmer)@.k,
                    bits: old(self)@.records[old(self)@.cursor as int].0 as nat,
                })
                &&& final(self)@ == after_step(old(self)@)
            },
            old(self)@.cursor >= old(self)@.records.len() ==> r is None && final(kmer)@ == old(
                kmer,
            )@ && final(self)@ == old(self)@,
    {
        proof {
            use_type_invariant(&*self);
        }
        if self.cursor >= self.records.len() {
            return None;
        }
        let (x, c) = self.records[self.cursor];
        proof {
            let i = self.cursor as int;
            assert(self.records@[i].0 < pow4(self.k as nat));
            if self.k == MAX_K {
                crate::codec::lemma_pow4_32();
            }
            vstd::arithmetic::div_mod::lemma_small_mod(x as nat, pow4(self.k as nat));
        }
        kmer.set_u64(x);
        self.cursor = self.cursor + 1;
        Some(c as usize)
    }

    /// Read the record under the cursor into `kmer` and advance; `Ok(None)`
    /// once past the last record.
    pub fn read_next(&mut self, kmer: &mut Kmer) -> (r: Result<Option<usize>, KmcError>)
        ensures
            old(self)@.mode != Mode::Iterator ==> r == Err::<Option<usize>, KmcError>(
                KmcError::ModePrecondition,
            ) && final(self)@ == old(self)@ && final(kmer)@ == old(kmer)@,
            old(self)@.mode == Mode::Iterator && old(kmer)@.k != old(self)@.k ==> r == Err::<
                Option<usize>,
                KmcError,
            >(KmcError::LengthMismatch) && final(self)@ == old(self)@ && final(kmer)@ == old(
                kmer,
            )@,
            old(self)@.mode == Mode::Iterator && old(kmer)@.k == old(self)@.k
                && old(self)@.cursor < old(self)@.records.len() ==> {
                &&& r == Ok::<Option<usize>, KmcError>(
                    Some(old(self)@.records[old(self)@.cursor as int].1 as usize),
                )
                &&& final(kmer)@ == (KmerView {
                    k: old(kmer)@.k,
                    bits: old(self)@.records[old(self)@.cursor as int].0 as nat,
                })
                &&& final(self)@ == after_step(old(self)@)
            },
            old(self)@.mode == Mode::Iterator && old(kmer)@.k == old(self)@.k
                && old(self)@.cursor >= old(self)@.records.len() ==> r == Ok::<
                Option<usize>,
                KmcError,
            >(None) && final(kmer)@ == old(kmer)@ && final(self)@ == old(self)@,
    {
        if self.mode != Mode::Iterator {
            return Err(KmcError::ModePrecondition);
        }
        if kmer.len() != self.k {
            return Err(KmcError::LengthMismatch);
        }
        Ok(self.read_next_unchecked(kmer))
    }

    /// Drain the records from the cursor on, leaving the cursor past the last.
    /// Only in listing mode.
    pub fn iter_u64(&mut self) -> (r: Result<Vec<(u64, usize)>, KmcError>)
        ensures
            old(self)@.mode == Mode::Iterator ==> (r matches Ok(v) && v@ == drained(old(self)@)
                && final(self)@ == after_drain(old(self)@)),
            old(self)@.mode != Mode::Iterator ==> r == Err::<Vec<(u64, usize)>, KmcError>(
                KmcError::ModePrecondition,
            ) && final(self)@ == old(self)@,
    {
        proof {
            use_type_invariant(&*self);
        }
        if self.mode != Mode::Iterator {
            return Err(KmcError::ModePrecondition);
        }
        let ghost start = self@;
        let n = self.records.len();
        let mut out: Vec<(u64, usize)> = Vec::new();
        while self.cursor < n
            invariant
                n == self.records@.len(),
                self@.records == start.records,
                index_valid(self@.k, self@.records),
                self@.k == start.k,
                self@.mode == start.mode,
                start.cursor <= self.cursor <= n,
                out@ == drained(start).take(self.cursor - start.cursor),
            decreases n - self.cursor,
        {
            let (x, c) = self.records[self.cursor];
            out.push((x, c as usize));
            proof {
                let d = drained(start);
                let j = self.cursor - start.cursor;
                assert(d.take(j + 1) =~= d.take(j).push(d[j]));
            }
            self.cursor = self.cursor + 1;
        }
        proof {
            assert(drained(start).take(n - start.cursor) =~= drained(start));
        }
        Ok(out)
    }

    /// Release the records and close the database; the mode becomes `Closed`.
    pub fn close(&mut self) -> (r: Result<(), KmcError>)
        ensures
            r is Ok,
            final(self)@ == (DbView {
                k: old(self)@.k,
                mode: Mode::Closed,
                records: Seq::empty(),
                cursor: 0,
            }),
    {
        proof {
            use_type_invariant(&*self);
        }
        *self = KmcFile { k: self.k, mode: Mode::Closed, records: Vec::new(), cursor: 0 };
        Ok(())
    }
}

/// Whether the records hold valid `k`-mers in strictly ascending order.
fn check_records(k: u32, recs: &Vec<(u64, u32)>) -> (ok: bool)
    requires
        1 <= k <= MAX_K,
    ensures
        ok == index_valid(k as nat, recs@),
{
    let n = recs.len();
    let mut i: usize = 0;
    while i < n
        invariant
            1 <= k <= MAX_K,
            n == recs@.len(),
            i <= n,
            strictly_sorted(recs@.take(i as int)),
            all_canonical(recs@.take(i as int), k as nat),
        decreases n - i,
    {
        let x = recs[i].0;
        if k < MAX_K && x >= crate::codec::pow4_u64(k) {
            proof {
                assert(!all_canonical(recs@, k as nat));
            }
            return false;
        }
        proof {
            if k == MAX_K {
                crate::codec::lemma_pow4_32();
            }
        }
        if canonicalize(k, x) != x {
            proof {
                assert(!all_canonical(recs@, k as nat));
            }
            return false;
        }
        if i > 0 && recs[i - 1].0 >= x {
            proof {
                assert(!strictly_sorted(recs@));
            }
            return false;
        }
        proof {
            let t = recs@.take(i + 1);
            assert forall|a: int, b: int| 0 <= a < b < t.len() implies #[trigger] t[a].0
                < #[trigger] t[b].0 by {
                if b < i {
                    assert(recs@.take(i as int)[a] == t[a]);
                    assert(recs@.take(i as int)[b] == t[b]);
                } else if a < i - 1 {
                    assert(recs@.take(i as int)[a] == t[a]);
                    assert(recs@.take(i as int)[i - 1] == t[i - 1]);
                }
            }
            assert forall|a: int| 0 <= a < t.len() implies (#[trigger] t[a]).0 < pow4(k as nat)
                && canonical(t[a].0 as nat, k as nat) == t[a].0 as nat by {
                if a < i {
                    assert(recs@.take(i as int)[a] == t[a]);
                }
            }
        }
        i = i + 1;
    }
    proof {
        assert(recs@.take(n as int) =~= recs@);
    }
    true
}

} // verus!

verus! {

/// Draining a listing from its first record, restarting, and draining again
/// yields the same sequence: same length, same pairs, same order.
pub proof fn lemma_restart_reproduces_drain(m: DbView)
    requires
        m.mode == Mode::Iterator,
        m.cursor == 0,
    ensures
        after_drain(m).mode == Mode::Iterator,
        drained(after_restart(after_drain(m))) == drained(m),
{
    assert(drained(after_restart(after_drain(m))) =~= drained(m));
}

/// A full listing yields each recorded k-mer exactly once: as many pairs as the
/// database's k-mer count, with k-mers strictly ascending (so pairwise distinct).
pub proof fn lemma_drain_counts_all(m: DbView)
    requires
        db_valid(m),
        m.cursor == 0,
    ensures
        drained(m).len() == m.records.len(),
        forall|i: int, j: int|
            0 <= i < j < drained(m).len() ==> #[trigger] drained(m)[i].0 < #[trigger] drained(
                m,
            )[j].0,
{
    assert forall|i: int, j: int| 0 <= i < j < drained(m).len() implies #[trigger] drained(
        m,
    )[i].0 < #[trigger] drained(m)[j].0 by {
        assert(m.records[i].0 < m.records[j].0);
    }
}

/// On a file pair that opens, the count that random access finds for the
/// canonical form of a k-mer is the count that a full listing of the same pair
/// yields for that canonical k-mer, and zero when the listing never yields it.
pub proof fn lemma_lookup_agrees_with_listing(pre: Seq<u8>, suf: Seq<u8>, q: nat)
    requires
        opens(pre, suf),
        q < pow4(kmer_len_of(pre)),
    ensures
        ({
            let x = canonical(q, kmer_len_of(pre));
            let listing = drained(opened(pre, suf, Mode::Iterator));
            let found = lookup(opened(pre, suf, Mode::RandomAccess).records, x);
            &&& forall|j: int|
                0 <= j < listing.len() && #[trigger] listing[j].0 == x ==> found == listing[j].1
            &&& (forall|j: int| 0 <= j < listing.len() ==> #[trigger] listing[j].0 != x) ==> found
                == 0
        }),
{
    let k = kmer_len_of(pre);
    let x = canonical(q, k);
    let recs = stored_records(pre, suf);
    let listing = drained(opened(pre, suf, Mode::Iterator));
    assert forall|j: int| 0 <= j < listing.len() && #[trigger] listing[j].0 == x implies lookup(
        recs,
        x,
    ) == listing[j].1 by {
        lemma_lookup_unique(recs, j);
    }
    if forall|j: int| 0 <= j < listing.len() ==> #[trigger] listing[j].0 != x {
        assert forall|i: int| 0 <= i < recs.len() implies recs[i].0 != x by {
            assert(listing[i].0 == recs[i].0);
        }
    }
}

} // verus!
