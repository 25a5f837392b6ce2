use kmc_rs::{canonicalize, decode, reverse_complement, KmcError, Kmer};

#[test]
fn test_kmer() {
    let kmer = Kmer::from("TAAGA").unwrap();
    let s = kmer.to_string();
    assert_eq!(&s, "TAAGA", "got {}", &s);
}

#[test]
fn test_kmer_errors() {
    assert!(Kmer::from("TCN").is_err());
    assert!(Kmer::from("actG").is_ok());
}

#[test]
fn test_from_u64_tcaaccttggaa() {
    assert_eq!("TCAACCTTGGAA".len(), 12);
    let kmer = Kmer::from_u64(12, 0b1101_0000_0101_1111_1010_0000);
    assert_eq!(kmer.to_string(), "TCAACCTTGGAA");
}

#[test]
fn test_from_u64_ttttttttttttttttttttttttttttttc() {
    assert_eq!("TTTTTTTTTTTTTTTTTTTTTTTTTTTTTTC".len(), 31);
    assert_eq!(
        "TTTTTTTTTTTTTTTTTTTTTTTTTTTTTTC",
        Kmer::from_u64(
            31,
            0b1111111111111111111111111111111111111111111111111111111111111_01,
        )
        .to_string()
    );
}

#[test]
fn encode_taaga_packs_exactly() {
    let kmer = Kmer::from("TAAGA").unwrap();
    assert_eq!(kmer.as_u64(), 0b11_00_00_10_00);
    assert_eq!(kmer.len(), 5);
    assert!(!kmer.is_empty());
}

#[test]
fn encode_rejects_invalid_symbols() {
    assert_eq!(Kmer::from("TCN").err(), Some(KmcError::InvalidSymbol));
    assert_eq!(Kmer::from("ACGU").err(), Some(KmcError::InvalidSymbol));
}

#[test]
fn encode_is_case_insensitive() {
    let lower = Kmer::from("actg").unwrap();
    let upper = Kmer::from("ACTG").unwrap();
    assert_eq!(lower.as_u64(), upper.as_u64());
    assert_eq!(lower.to_string(), "ACTG");
}

#[test]
fn encode_rejects_more_than_32_symbols() {
    let long = "A".repeat(33);
    assert_eq!(Kmer::from(&long).err(), Some(KmcError::KmerTooLong));
    let ok = "A".repeat(32);
    assert_eq!(Kmer::from(&ok).unwrap().len(), 32);
}

#[test]
fn encode_gives_canonical_orientation() {
    // TTTTT reads back as its reverse complement AAAAA.
    let kmer = Kmer::from("TTTTT").unwrap();
    assert_eq!(kmer.as_u64(), 0);
    assert_eq!(kmer.to_string(), "AAAAA");
    // GATTC: reverse complement GAATC is smaller.
    assert_eq!(Kmer::from("gattc").unwrap().to_string(), "GAATC");
}

#[test]
fn round_trip_gives_canonical_text() {
    for text in ["ACGT", "TTGCA", "cattag", "GGGGGGGGGGGGGGGGGGGGGGGGGGGGGGGG"] {
        let kmer = Kmer::from(text).unwrap();
        let upper = text.to_uppercase();
        let rc: String = upper
            .chars()
            .rev()
            .map(|c| match c {
                'A' => 'T',
                'C' => 'G',
                'G' => 'C',
                _ => 'A',
            })
            .collect();
        let expected = if encode_raw(&upper) <= encode_raw(&rc) {
            upper
        } else {
            rc
        };
        assert_eq!(kmer.to_string(), expected);
    }
}

fn encode_raw(text: &str) -> u64 {
    text.chars().fold(0, |v, c| {
        v * 4
            + match c {
                'A' => 0,
                'C' => 1,
                'G' => 2,
                _ => 3,
            }
    })
}

#[test]
fn empty_text_is_the_empty_kmer() {
    let kmer = Kmer::from("").unwrap();
    assert!(kmer.is_empty());
    assert_eq!(kmer.to_string(), "");
    assert!(Kmer::with_k(0).is_empty());
}

#[test]
fn reverse_complement_is_exact() {
    // TAAGA -> TCTTA
    assert_eq!(reverse_complement(5, 0b11_00_00_10_00), 0b11_01_11_11_00);
    // AC -> GT
    assert_eq!(reverse_complement(2, 0b00_01), 0b10_11);
    assert_eq!(reverse_complement(32, 0), u64::MAX);
}

#[test]
fn canonicalize_is_idempotent_and_orientation_invariant() {
    for v in [0u64, 5, 776, 892, 1023] {
        let c = canonicalize(5, v);
        assert_eq!(canonicalize(5, c), c);
        assert_eq!(canonicalize(5, reverse_complement(5, v)), c);
        assert!(c <= v);
    }
    assert_eq!(canonicalize(5, 892), 776);
    assert_eq!(canonicalize(32, u64::MAX), 0);
}

#[test]
fn decode_is_exact() {
    assert_eq!(decode(5, 0b11_00_00_10_00), "TAAGA");
    assert_eq!(decode(3, 0b00_01_10), "ACG");
    assert_eq!(decode(0, 7), "");
}

#[test]
fn set_u64_keeps_the_low_bits() {
    let mut kmer = Kmer::with_k(2);
    kmer.set_u64(0b1111_0110);
    assert_eq!(kmer.as_u64(), 0b0110);
    assert_eq!(kmer.to_string(), "CG");
    let full = Kmer::from_u64(32, u64::MAX);
    assert_eq!(full.as_u64(), u64::MAX);
}
