use kmc_rs::{canonicalize, parse_database, KmcError, KmcFile, Kmer, Mode};

const K: u64 = 5;
const TAAGA: u64 = 0b11_00_00_10_00;

fn le_bytes(out: &mut Vec<u8>, v: u64, n: usize) {
    for i in 0..n {
        out.push(((v >> (8 * i)) & 0xff) as u8);
    }
}

/// A 5-mer database of 291 canonical k-mers: TAAGA counted 4 times, the six
/// canonical k-mers starting with TG counted 3 times each, and the smallest
/// other canonical k-mers counted `v % 7 + 1` times.
fn records() -> Vec<(u64, u64)> {
    let mut recs = Vec::new();
    let mut others = 0;
    for v in 0..1024u64 {
        if canonicalize(K as u32, v) != v {
            continue;
        }
        if v == TAAGA {
            recs.push((v, 4));
        } else if v >> 6 == 0b1110 {
            recs.push((v, 3));
        } else if others < 284 {
            recs.push((v, v % 7 + 1));
            others += 1;
        }
    }
    recs
}

/// Lay records out as a file pair with `lut = 1`, one suffix byte and
/// one counter byte per record.
fn files(k: u64, recs: &[(u64, u64)], version: u64) -> (Vec<u8>, Vec<u8>) {
    let lut = 1u64;
    let mut pre = b"KMCP".to_vec();
    for p in 0..=4u64 {
        let start = recs.iter().filter(|(v, _)| v >> (2 * (k - lut)) < p).count();
        le_bytes(&mut pre, start as u64, 8);
    }
    for field in [k, 0, 1, lut, 1, 255] {
        le_bytes(&mut pre, field, 4);
    }
    le_bytes(&mut pre, recs.len() as u64, 8);
    le_bytes(&mut pre, version, 4);
    le_bytes(&mut pre, 36, 4);
    pre.extend_from_slice(b"KMCP");
    let mut suf = b"KMCS".to_vec();
    for &(v, c) in recs {
        suf.push((v & 0xff) as u8);
        suf.push(c as u8);
    }
    suf.extend_from_slice(b"KMCS");
    (pre, suf)
}

fn fixture() -> (Vec<u8>, Vec<u8>) {
    files(K, &records(), 0)
}

fn open_ra() -> KmcFile {
    let (pre, suf) = fixture();
    KmcFile::open_ra(&pre, &suf).expect("fixture opens")
}

fn open_iter() -> KmcFile {
    let (pre, suf) = fixture();
    KmcFile::open_iter(&pre, &suf).expect("fixture opens")
}

#[test]
fn test_open() {
    let mut io = open_ra();
    assert_eq!(io.kmer_length(), 5);
    assert_eq!(io.num_kmers(), 291);
}

#[test]
fn test_count_kmer() {
    let kmer = Kmer::from("TAAGA").unwrap();
    let io = open_ra();
    assert_eq!(io.count_kmer(&kmer), Ok(4));
}

#[test]
fn test_open_iter() {
    let io = open_iter();
    assert_eq!(io.kmer_length(), 5);
}

#[test]
fn test_iter_count() {
    assert_eq!(open_iter().iter_u64().unwrap().len(), 291);
}

#[test]
fn test_iter_count_taaga() {
    let found = open_iter()
        .iter_u64()
        .unwrap()
        .into_iter()
        .filter(|&(b, _)| b == 0b11_00_00_10_00)
        .map(|(_, c)| c)
        .next()
        .expect("should not happen");
    assert_eq!(found, 4);
}

#[test]
fn count_of_reverse_complement_is_the_same() {
    let io = open_ra();
    // TCTTA is the reverse complement of TAAGA.
    let kmer = Kmer::from_u64(5, 0b11_01_11_11_00);
    assert_eq!(io.count_kmer(&kmer), Ok(4));
}

#[test]
fn count_of_absent_kmer_is_zero() {
    let io = open_ra();
    // CCCCC (341) lies above every stored k-mer but TAAGA and the TG ones.
    let kmer = Kmer::from("CCCCC").unwrap();
    assert_eq!(io.count_kmer(&kmer), Ok(0));
}

#[test]
fn count_rejects_wrong_length() {
    let io = open_ra();
    let kmer = Kmer::from("TAAG").unwrap();
    assert_eq!(io.count_kmer(&kmer), Err(KmcError::LengthMismatch));
}

#[test]
fn mode_violations_are_errors() {
    let it = open_iter();
    let kmer = Kmer::from("TAAGA").unwrap();
    assert_eq!(it.count_kmer(&kmer), Err(KmcError::ModePrecondition));
    let mut ra = open_ra();
    let mut slot = Kmer::with_k(5);
    assert_eq!(ra.read_next(&mut slot), Err(KmcError::ModePrecondition));
    assert_eq!(ra.restart(), Err(KmcError::ModePrecondition));
    assert!(matches!(ra.iter_u64(), Err(KmcError::ModePrecondition)));
}

#[test]
fn read_next_rejects_wrong_length() {
    let mut it = open_iter();
    let mut slot = Kmer::with_k(4);
    assert_eq!(it.read_next(&mut slot), Err(KmcError::LengthMismatch));
}

#[test]
fn prefix_tg_counts_sum_to_eighteen() {
    let mut db = open_iter();
    assert_eq!(db.kmer_length(), 5);
    let mut kmer = Kmer::with_k(5);
    let mut count_tg = 0;
    while let Ok(Some(count)) = db.read_next(&mut kmer) {
        if kmer.as_u64() >> 6 == 0b11_10 {
            count_tg += count;
        }
    }
    assert_eq!(count_tg, 18);
}

#[test]
fn restart_reproduces_the_listing() {
    let mut db = open_iter();
    let first = db.iter_u64().unwrap();
    assert_eq!(db.iter_u64().unwrap().len(), 0);
    db.restart().unwrap();
    let second = db.iter_u64().unwrap();
    assert_eq!(first, second);
    assert_eq!(first.len(), 291);
}

#[test]
fn listing_yields_each_kmer_once() {
    let mut db = open_iter();
    let listing = db.iter_u64().unwrap();
    assert_eq!(listing.len(), db.num_kmers());
    for w in listing.windows(2) {
        assert!(w[0].0 < w[1].0);
    }
}

#[test]
fn lookup_agrees_with_listing() {
    let ra = open_ra();
    let mut it = open_iter();
    let listing = it.iter_u64().unwrap();
    for &(v, c) in &listing {
        assert_eq!(ra.count_kmer(&Kmer::from_u64(5, v)), Ok(c));
    }
    assert_eq!(listing.len(), 291);
}

#[test]
fn read_next_walks_records_in_order() {
    let mut db = open_iter();
    let mut kmer = Kmer::with_k(5);
    assert_eq!(db.read_next(&mut kmer), Ok(Some(1)));
    assert_eq!(kmer.to_string(), "AAAAA");
    assert_eq!(db.read_next(&mut kmer), Ok(Some(2)));
    assert_eq!(kmer.as_u64(), 1);
    let rest = db.iter_u64().unwrap();
    assert_eq!(rest.len(), 289);
    assert_eq!(db.read_next(&mut kmer), Ok(None));
    assert_eq!(kmer.as_u64(), 1);
}

#[test]
fn close_releases_the_records() {
    let mut db = open_iter();
    assert_eq!(db.mode(), Mode::Iterator);
    assert_eq!(db.close(), Ok(()));
    assert_eq!(db.mode(), Mode::Closed);
    assert_eq!(db.num_kmers(), 0);
    assert_eq!(db.kmer_length(), 5);
    let kmer = Kmer::from("TAAGA").unwrap();
    assert_eq!(db.count_kmer(&kmer), Err(KmcError::ModePrecondition));
}

#[test]
fn parse_gives_the_stored_records() {
    let (pre, suf) = fixture();
    let (k, recs) = parse_database(&pre, &suf).unwrap();
    assert_eq!(k, 5);
    let expected: Vec<(u64, u32)> = records().iter().map(|&(v, c)| (v, c as u32)).collect();
    assert_eq!(recs, expected);
}

#[test]
fn wrong_version_fails_to_open() {
    let (pre, suf) = files(K, &records(), 0x200);
    assert!(matches!(KmcFile::open_ra(&pre, &suf), Err(KmcError::OpenFailed)));
}

#[test]
fn bad_marker_fails_to_open() {
    let (pre, mut suf) = fixture();
    suf[3] = b'P';
    assert!(matches!(KmcFile::open_iter(&pre, &suf), Err(KmcError::OpenFailed)));
    let (mut pre, suf) = fixture();
    let n = pre.len();
    pre[n - 1] = b'S';
    assert!(matches!(KmcFile::open_iter(&pre, &suf), Err(KmcError::OpenFailed)));
}

#[test]
fn truncated_suffix_file_fails_to_open() {
    let (pre, mut suf) = fixture();
    suf.remove(4);
    assert!(matches!(KmcFile::open_ra(&pre, &suf), Err(KmcError::OpenFailed)));
}

#[test]
fn unsorted_records_fail_to_open() {
    let (pre, suf) = files(K, &[(5, 1), (1, 1)], 0);
    assert!(parse_database(&pre, &suf).is_ok());
    assert!(matches!(KmcFile::open_ra(&pre, &suf), Err(KmcError::OpenFailed)));
}

#[test]
fn non_canonical_records_fail_to_open() {
    // TTTTT is not canonical (AAAAA is).
    let (pre, suf) = files(K, &[(0b11_11_11_11_11, 1)], 0);
    assert!(parse_database(&pre, &suf).is_ok());
    assert!(matches!(KmcFile::open_ra(&pre, &suf), Err(KmcError::OpenFailed)));
}

#[test]
fn empty_input_fails_to_open() {
    assert!(matches!(KmcFile::open_ra(&[], &[]), Err(KmcError::OpenFailed)));
}
