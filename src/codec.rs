//! Two-bit packing of DNA symbols, reverse complements and canonical forms.
//!
//! Symbols are coded A = 0, C = 1, G = 2, T = 3; the first symbol of a k-mer
//! occupies the most significant of its `2 * k` bits. The complement of a code
//! `c` is `3 - c` (A and T, C and G).
use vstd::prelude::*;

use vstd::arithmetic::div_mod::lemma_small_mod;

use crate::error::KmcError;

verus! {

/// Largest `k` whose packed form fits in one `u64`.
pub const MAX_K: u32 = 32;

/// `4^n`, the number of distinct k-mers of length `n`.
pub open spec fn pow4(n: nat) -> nat
    decreases n,
{
    if n == 0 {
        1
    } else {
        4 * pow4((n - 1) as nat)
    }
}

/// Whether `c` is one of A, C, G, T in either case.
pub open spec fn is_symbol(c: char) -> bool {
    c == 'A' || c == 'a' || c == 'C' || c == 'c' || c == 'G' || c == 'g' || c == 'T' || c == 't'
}

/// The two-bit code of a symbol.
pub open spec fn code_of(c: char) -> nat {
    if c == 'A' || c == 'a' {
        0
    } else if c == 'C' || c == 'c' {
        1
    } else if c == 'G' || c == 'g' {
        2
    } else {
        3
    }
}

/// The upper-case symbol of a two-bit code.
pub open spec fn symbol_of(code: nat) -> char {
    if code == 0 {
        'A'
    } else if code == 1 {
        'C'
    } else if code == 2 {
        'G'
    } else {
        'T'
    }
}

/// Whether every element of `s` is a two-bit code.
pub open spec fn all_codes(s: Seq<nat>) -> bool {
    forall|i: int| 0 <= i < s.len() ==> #[trigger] s[i] < 4
}

/// The codes of the symbols of a text.
pub open spec fn codes_of(text: Seq<char>) -> Seq<nat> {
    text.map_values(|c: char| code_of(c))
}

/// The upper-case text of a sequence of codes.
pub open spec fn text_of(codes: Seq<nat>) -> Seq<char> {
    codes.map_values(|c: nat| symbol_of(c))
}

/// The packed value of a sequence of codes, first code most significant.
pub open spec fn pack(s: Seq<nat>) -> nat
    decreases s.len(),
{
    if s.len() == 0 {
        0
    } else {
        pack(s.drop_last()) * 4 + s.last()
    }
}

/// The `k` codes of a packed value, first code most significant.
pub open spec fn unpack(v: nat, k: nat) -> Seq<nat>
    decreases k,
{
    if k == 0 {
        Seq::empty()
    } else {
        unpack(v / 4, (k - 1) as nat).push(v % 4)
    }
}

/// Reverse the order of the codes and complement each one.
pub open spec fn revcomp_codes(s: Seq<nat>) -> Seq<nat> {
    Seq::new(s.len(), |i: int| (3 - s[s.len() - 1 - i]) as nat)
}

/// The packed reverse complement of the `k`-mer packed in `v`.
pub open spec fn rev_comp(v: nat, k: nat) -> nat {
    pack(revcomp_codes(unpack(v, k)))
}

/// The canonical form: the smaller of a packed k-mer and its reverse complement.
pub open spec fn canonical(v: nat, k: nat) -> nat {
    if v <= rev_comp(v, k) {
        v
    } else {
        rev_comp(v, k)
    }
}

/// The upper-case text of the `k`-mer packed in `v`.
pub open spec fn decoded(v: nat, k: nat) -> Seq<char> {
    text_of(unpack(v, k))
}

/// The canonical text of a valid text: the upper-cased text or the text of its
/// reverse complement, whichever packs to the smaller value.
pub open spec fn canonical_text(text: Seq<char>) -> Seq<char> {
    let c = codes_of(text);
    if pack(c) <= pack(revcomp_codes(c)) {
        text_of(c)
    } else {
        text_of(revcomp_codes(c))
    }
}

/// Whether every character of a text is a symbol.
pub open spec fn all_symbols(text: Seq<char>) -> bool {
    forall|i: int| 0 <= i < text.len() ==> is_symbol(#[trigger] text[i])
}

/// Whether a k-mer model fits its length: `k <= 32` and only `2 * k` bits used.
pub open spec fn valid_kmer(v: KmerView) -> bool {
    v.k <= 32 && v.bits < pow4(v.k)
}

/// What a [`Kmer`] stands for: its length and its packed value.
pub struct KmerView {
    pub k: nat,
    pub bits: nat,
}

/// A k-mer of at most 32 symbols packed into a `u64`.
pub struct Kmer {
    k: u32,
    bits: u64,
}

impl View for Kmer {
    type V = KmerView;

    closed spec fn view(&self) -> KmerView {
        KmerView { k: self.k as nat, bits: self.bits as nat }
    }
}

impl Kmer {
    #[verifier::type_invariant]
    spec fn inv(&self) -> bool {
        valid_kmer(self@)
    }

    /// Encode a text of at most 32 symbols (A, C, G, T in either case) into its
    /// canonical packed form.
    pub fn from(text: &str) -> (r: Result<Kmer, KmcError>)
        ensures
            text@.len() > MAX_K ==> r == Err::<Kmer, KmcError>(KmcError::KmerTooLong),
            text@.len() <= MAX_K && !all_symbols(text@) ==> r == Err::<Kmer, KmcError>(
                KmcError::InvalidSymbol,
            ),
            text@.len() <= MAX_K && all_symbols(text@) ==> r is Ok,
            r matches Ok(km) ==> km@ == (KmerView {
                k: text@.len(),
                bits: canonical(pack(codes_of(text@)), text@.len()),
            }),
    {
        let n = text.unicode_len();
        if n > 32 {
            return Err(KmcError::KmerTooLong);
        }
        let mut v: u64 = 0;
        let mut i: usize = 0;
        while i < n
            invariant
                i <= n <= 32,
                n == text@.len(),
                v as nat == pack(codes_of(text@).take(i as int)),
                v < pow4(i as nat),
                forall|j: int| 0 <= j < i ==> is_symbol(#[trigger] text@[j]),
            decreases n - i,
        {
            let c = text.get_char(i);
            let code: u64 = if c == 'A' || c == 'a' {
                0
            } else if c == 'C' || c == 'c' {
                1
            } else if c == 'G' || c == 'g' {
                2
            } else if c == 'T' || c == 't' {
                3
            } else {
                return Err(KmcError::InvalidSymbol);
            };
            proof {
                let cs = codes_of(text@);
                assert(cs.take(i + 1).drop_last() =~= cs.take(i as int));
                assert(cs.take(i + 1).last() == code_of(c));
                lemma_pow4_bounded((i + 1) as nat);
            }
            v = v * 4 + code;
            i = i + 1;
        }
        proof {
            assert(codes_of(text@).take(n as int) =~= codes_of(text@));
            lemma_codes_of(text@);
        }
        let bits = canonicalize(n as u32, v);
        Ok(Kmer { k: n as u32, bits })
    }

    /// A k-mer of `k` symbols, all A (packed value zero).
    pub fn with_k(k: u8) -> (r: Kmer)
        requires
            k <= MAX_K,
        ensures
            r@ == (KmerView { k: k as nat, bits: 0 }),
    {
        proof {
            lemma_pow4_positive(k as nat);
        }
        Kmer { k: k as u32, bits: 0 }
    }

    /// Number of symbols `k` of this k-mer.
    pub fn len(&self) -> (r: u32)
        ensures
            r as nat == self@.k,
            valid_kmer(self@),
    {
        proof {
            use_type_invariant(self);
        }
        self.k
    }

    /// A k-mer of `k` symbols whose packed value is the low `2 * k` bits of
    /// `val`, taken as they are (no canonicalization).
    pub fn from_u64(k: u8, val: u64) -> (r: Kmer)
        requires
            k <= MAX_K,
        ensures
            r@ == (KmerView { k: k as nat, bits: val as nat % pow4(k as nat) }),
    {
        let mut kmer = Kmer::with_k(k);
        kmer.set_u64(val);
        kmer
    }

    /// Replace the packed value by the low `2 * k` bits of `val`, keeping `k`.
    pub fn set_u64(&mut self, val: u64)
        ensures
            final(self)@ == (KmerView { k: old(self)@.k, bits: val as nat % pow4(old(self)@.k) }),
    {
        proof {
            use_type_invariant(&*self);
            lemma_pow4_positive(self.k as nat);
        }
        let bits = if self.k < MAX_K {
            val % pow4_u64(self.k)
        } else {
            proof {
                lemma_pow4_32();
                lemma_small_mod(val as nat, pow4(32));
            }
            val
        };
        *self = Kmer { k: self.k, bits };
    }

    /// The packed value of this k-mer.
    pub fn as_u64(&self) -> (r: u64)
        ensures
            r as nat == self@.bits,
            valid_kmer(self@),
    {
        proof {
            use_type_invariant(self);
        }
        self.bits
    }

    /// Whether this k-mer has no symbols.
    pub fn is_empty(&self) -> (r: bool)
        ensures
            r == (self@.k == 0),
    {
        self.k == 0
    }

    /// The upper-case text of this k-mer.
    pub fn to_string(&self) -> (r: String)
        ensures
            r@ == decoded(self@.bits, self@.k),
    {
        proof {
            use_type_invariant(self);
        }
        decode(self.k, self.bits)
    }
}

/// `4^n` for `n < 32`.
pub(crate) fn pow4_u64(n: u32) -> (r: u64)
    requires
        n < MAX_K,
    ensures
        r as nat == pow4(n as nat),
{
    let mut r: u64 = 1;
    let mut i: u32 = 0;
    while i < n
        invariant
            i <= n < 32,
            r as nat == pow4(i as nat),
        decreases n - i,
    {
        proof {
            lemma_pow4_bounded((i + 2) as nat);
            assert(pow4((i + 2) as nat) == 4 * pow4((i + 1) as nat));
        }
        r = r * 4;
        i = i + 1;
    }
    r
}

/// The packed reverse complement of the `k`-mer packed in `bits`.
pub fn reverse_complement(k: u32, bits: u64) -> (r: u64)
    requires
        k <= MAX_K,
        bits < pow4(k as nat),
    ensures
        r as nat == rev_comp(bits as nat, k as nat),
{
    let mut v: u64 = bits;
    let mut r: u64 = 0;
    let mut i: u32 = 0;
    let ghost mut t: Seq<nat> = Seq::empty();
    while i < k
        invariant
            i <= k <= 32,
            unpack(bits as nat, k as nat) == unpack(v as nat, (k - i) as nat) + t,
            t.len() == i,
            all_codes(t),
            r as nat == pack(revcomp_codes(t)),
            r < pow4(i as nat),
        decreases k - i,
    {
        let c: u64 = v % 4;
        proof {
            let nt = seq![c as nat] + t;
            let rest = unpack((v / 4) as nat, (k - i - 1) as nat);
            assert(unpack(v as nat, (k - i) as nat) == rest.push(c as nat));
            assert(rest.push(c as nat) + t =~= rest + nt);
            assert(all_codes(nt)) by {
                assert forall|j: int| 0 <= j < nt.len() implies nt[j] < 4 by {
                    if j > 0 {
                        assert(nt[j] == t[j - 1]);
                    }
                }
            }
            let rn = revcomp_codes(nt);
            assert(rn =~= revcomp_codes(t).push((3 - c) as nat));
            assert(rn.drop_last() =~= revcomp_codes(t));
            lemma_pow4_bounded((i + 1) as nat);
            t = nt;
        }
        r = r * 4 + (3 - c);
        v = v / 4;
        i = i + 1;
    }
    proof {
        assert(unpack(v as nat, 0) + t =~= t);
    }
    r
}

/// The canonical form of the `k`-mer packed in `bits`.
pub fn canonicalize(k: u32, bits: u64) -> (r: u64)
    requires
        k <= MAX_K,
        bits < pow4(k as nat),
    ensures
        r as nat == canonical(bits as nat, k as nat),
        r < pow4(k as nat),
{
    let rc = reverse_complement(k, bits);
    proof {
        lemma_rev_comp_bound(bits as nat, k as nat);
    }
    if bits <= rc {
        bits
    } else {
        rc
    }
}

fn push_symbol(s: &mut String, code: u8)
    requires
        code < 4,
    ensures
        final(s)@ == old(s)@.push(symbol_of(code as nat)),
{
    if code == 0 {
        proof {
            reveal_strlit("A");
        }
        s.append("A");
    } else if code == 1 {
        proof {
            reveal_strlit("C");
        }
        s.append("C");
    } else if code == 2 {
        proof {
            reveal_strlit("G");
        }
        s.append("G");
    } else {
        proof {
            reveal_strlit("T");
        }
        s.append("T");
    }
}

/// The upper-case text of the `k`-mer packed in `bits`.
pub fn decode(k: u32, bits: u64) -> (r: String)
    requires
        k <= MAX_K,
    ensures
        r@ == decoded(bits as nat, k as nat),
{
    let mut digits: Vec<u8> = Vec::new();
    let mut v: u64 = bits;
    let mut i: u32 = 0;
    let ghost mut t: Seq<nat> = Seq::empty();
    while i < k
        invariant
            i <= k <= 32,
            unpack(bits as nat, k as nat) == unpack(v as nat, (k - i) as nat) + t,
            t.len() == i,
            digits@.len() == i,
            forall|j: int| 0 <= j < i ==> #[trigger] digits@[j] as nat == t[i - 1 - j],
            forall|j: int| 0 <= j < i ==> #[trigger] digits@[j] < 4,
        decreases k - i,
    {
        let c: u64 = v % 4;
        proof {
            let nt = seq![c as nat] + t;
            let rest = unpack((v / 4) as nat, (k - i - 1) as nat);
            assert(unpack(v as nat, (k - i) as nat) == rest.push(c as nat));
            assert(rest.push(c as nat) + t =~= rest + nt);
            t = nt;
        }
        digits.push(c as u8);
        v = v / 4;
        i = i + 1;
        proof {
            assert forall|j: int| 0 <= j < i implies #[trigger] digits@[j] as nat == t[i - 1 - j] by {
                if j < i - 1 {
                    assert(t[i - 1 - j] == t.subrange(1, t.len() as int)[i - 2 - j]);
                }
            }
        }
    }
    proof {
        assert(unpack(v as nat, 0) + t =~= t);
    }
    let mut s = String::new();
    let mut j: u32 = 0;
    while j < k
        invariant
            j <= k <= 32,
            t == unpack(bits as nat, k as nat),
            t.len() == k,
            digits@.len() == k,
            forall|x: int| 0 <= x < k ==> #[trigger] digits@[x] as nat == t[k - 1 - x],
            forall|x: int| 0 <= x < k ==> #[trigger] digits@[x] < 4,
            s@ == text_of(t.take(j as int)),
        decreases k - j,
    {
        let d = digits[(k - 1 - j) as usize];
        push_symbol(&mut s, d);
        proof {
            assert(d as nat == t[j as int]);
            assert(text_of(t.take(j + 1)) =~= text_of(t.take(j as int)).push(symbol_of(t[j as int])));
        }
        j = j + 1;
    }
    proof {
        assert(t.take(k as int) =~= t);
    }
    s
}

pub proof fn lemma_pow4_32()
    ensures
        pow4(32) == 0x1_0000_0000_0000_0000,
{
    reveal_with_fuel(pow4, 33);
}

pub proof fn lemma_pow4_positive(n: nat)
    ensures
        pow4(n) >= 1,
    decreases n,
{
    if n > 0 {
        lemma_pow4_positive((n - 1) as nat);
    }
}

pub proof fn lemma_pow4_monotone(a: nat, b: nat)
    requires
        a <= b,
    ensures
        pow4(a) <= pow4(b),
    decreases b,
{
    if a < b {
        lemma_pow4_monotone(a, (b - 1) as nat);
        lemma_pow4_positive((b - 1) as nat);
    }
}

/// `4^n` fits in a `u64` (as a bound) for every `n <= 32`.
pub proof fn lemma_pow4_bounded(n: nat)
    requires
        n <= 32,
    ensures
        pow4(n) <= 0x1_0000_0000_0000_0000,
{
    lemma_pow4_monotone(n, 32);
    lemma_pow4_32();
}

pub proof fn lemma_pack_bound(s: Seq<nat>)
    requires
        all_codes(s),
    ensures
        pack(s) < pow4(s.len()),
    decreases s.len(),
{
    if s.len() > 0 {
        let t = s.drop_last();
        assert(all_codes(t)) by {
            assert forall|i: int| 0 <= i < t.len() implies t[i] < 4 by {
                assert(t[i] == s[i]);
            }
        }
        lemma_pack_bound(t);
        assert(s.last() == s[s.len() - 1]);
    }
}

pub proof fn lemma_unpack_len(v: nat, k: nat)
    ensures
        unpack(v, k).len() == k,
        all_codes(unpack(v, k)),
    decreases k,
{
    if k > 0 {
        lemma_unpack_len(v / 4, (k - 1) as nat);
        let u = unpack(v, k);
        assert(u == unpack(v / 4, (k - 1) as nat).push(v % 4));
        assert forall|i: int| 0 <= i < u.len() implies u[i] < 4 by {
            if i < k - 1 {
                assert(u[i] == unpack(v / 4, (k - 1) as nat)[i]);
            }
        }
    }
}

pub proof fn lemma_unpack_pack(s: Seq<nat>)
    requires
        all_codes(s),
    ensures
        unpack(pack(s), s.len()) == s,
    decreases s.len(),
{
    if s.len() > 0 {
        let t = s.drop_last();
        assert(all_codes(t)) by {
            assert forall|i: int| 0 <= i < t.len() implies t[i] < 4 by {
                assert(t[i] == s[i]);
            }
        }
        lemma_unpack_pack(t);
        let c = s[s.len() - 1];
        assert(c < 4);
        assert(s.last() == c);
        let v = pack(s);
        assert(v == pack(t) * 4 + c);
        assert(v / 4 == pack(t));
        assert(v % 4 == c);
        assert(unpack(v, s.len()) == unpack(pack(t), t.len()).push(c));
        assert(t.push(c) =~= s);
    }
}

pub proof fn lemma_pack_unpack(v: nat, k: nat)
    requires
        v < pow4(k),
    ensures
        pack(unpack(v, k)) == v,
    decreases k,
{
    if k > 0 {
        assert(v / 4 < pow4((k - 1) as nat));
        lemma_pack_unpack(v / 4, (k - 1) as nat);
        let u = unpack(v, k);
        assert(u.drop_last() =~= unpack(v / 4, (k - 1) as nat));
        assert(u.last() == v % 4);
    }
}

pub proof fn lemma_revcomp_codes(s: Seq<nat>)
    requires
        all_codes(s),
    ensures
        revcomp_codes(s).len() == s.len(),
        all_codes(revcomp_codes(s)),
        revcomp_codes(revcomp_codes(s)) == s,
{
    let r = revcomp_codes(s);
    assert(all_codes(r)) by {
        assert forall|i: int| 0 <= i < r.len() implies r[i] < 4 by {
            assert(s[s.len() - 1 - i] < 4);
        }
    }
    assert forall|i: int| 0 <= i < s.len() implies revcomp_codes(r)[i] == s[i] by {
        assert(s[i] < 4);
    }
    assert(revcomp_codes(r) =~= s);
}

/// The packed reverse complement stays within `2 * k` bits.
pub proof fn lemma_rev_comp_bound(v: nat, k: nat)
    ensures
        rev_comp(v, k) < pow4(k),
{
    lemma_unpack_len(v, k);
    lemma_revcomp_codes(unpack(v, k));
    lemma_pack_bound(revcomp_codes(unpack(v, k)));
}

/// Taking the reverse complement twice gives the k-mer back.
pub proof fn lemma_rev_comp_involution(v: nat, k: nat)
    requires
        v < pow4(k),
    ensures
        rev_comp(rev_comp(v, k), k) == v,
{
    let u = unpack(v, k);
    lemma_unpack_len(v, k);
    lemma_revcomp_codes(u);
    let r = revcomp_codes(u);
    lemma_unpack_pack(r);
    lemma_pack_unpack(v, k);
}

/// The packed value of a text's codes fits its length.
pub proof fn lemma_codes_of(text: Seq<char>)
    ensures
        codes_of(text).len() == text.len(),
        all_codes(codes_of(text)),
        pack(codes_of(text)) < pow4(text.len()),
{
    let c = codes_of(text);
    assert(all_codes(c)) by {
        assert forall|i: int| 0 <= i < c.len() implies c[i] < 4 by {
            assert(c[i] == code_of(text[i]));
        }
    }
    lemma_pack_bound(c);
}

/// Canonicalizing a canonical form changes nothing.
pub proof fn lemma_canonical_idempotent(v: nat, k: nat)
    requires
        v < pow4(k),
    ensures
        canonical(canonical(v, k), k) == canonical(v, k),
{
    lemma_rev_comp_involution(v, k);
}

/// A k-mer and its reverse complement have the same canonical form.
pub proof fn lemma_canonical_orientation_invariant(v: nat, k: nat)
    requires
        v < pow4(k),
    ensures
        canonical(v, k) == canonical(rev_comp(v, k), k),
{
    lemma_rev_comp_involution(v, k);
}

/// Round trip: decoding the canonical packed form of a text over A, C, G, T
/// (either case) gives its canonical upper-case text.
pub proof fn lemma_decode_canonical_text(text: Seq<char>)
    ensures
        decoded(canonical(pack(codes_of(text)), text.len()), text.len()) == canonical_text(text),
{
    let c = codes_of(text);
    let k = text.len();
    lemma_codes_of(text);
    lemma_unpack_pack(c);
    lemma_revcomp_codes(c);
    lemma_unpack_pack(revcomp_codes(c));
}

} // verus!
