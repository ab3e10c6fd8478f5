use drawbridge::{Algorithm, Algorithms, ContentDigest, DigestError};

const FOO_DIGESTS: &str = "sha-224=:CAj2TmDViXn8tnbJbsk4Jw3qQkRa7vzTpOb42w==:,sha-256=:LCa0a2j/xo/5m0U8HTBBNBNCLXBkg7+g+YpeiGJm564=:,sha-384=:mMEf/f3VQGdrGhN8saIrKnA1DJpEFx1rEYDGvly7LuP3nVMsih3Z7y6OCOdSo7q7:,sha-512=:9/u6bgY2+JDlb7vzKD5STG+jIErimDgtYkdB0NxmODJuKCxBvl5CVNiCB3LFUYosWowMf37aGVlKfrU5RT4e1w==:";

#[test]
fn digest() {
    let algorithms = Algorithms::default();
    let content_digest = ContentDigest::from_str(FOO_DIGESTS).unwrap();
    assert_eq!(algorithms.digest_bytes(b"foo"), (3, content_digest));
}

#[test]
fn success() {
    const HASH: &str = "sha-256=:LCa0a2j/xo/5m0U8HTBBNBNCLXBkg7+g+YpeiGJm564=:";
    let hash = ContentDigest::from_str(HASH).unwrap();

    let mut reader = hash.reader(&b"foo"[..]);
    reader.update(b"foo");
    assert_eq!(reader.digests(), hash);
}

#[test]
fn failure() {
    const HASH: &str = "sha-256=:LCa0a2j/xo/5m0U8HTBBNBNCLXBkg7+g+YpeiGJm564=:";
    let hash = ContentDigest::from_str(HASH).unwrap();

    let mut reader = hash.reader(&b"bar"[..]);
    reader.update(b"bar");
    assert_ne!(reader.digests(), hash);
}

#[test]
fn incremental_equals_one_pass() {
    let algorithms = Algorithms::default();
    let (n, whole) = algorithms.digest_bytes(b"hello world");
    assert_eq!(n, 11);

    let mut writer = algorithms.writer(());
    writer.update(b"hel");
    writer.update(b"lo ");
    writer.update(b"w");
    writer.update(b"orld");
    assert_eq!(writer.digests(), whole);

    let mut reader = algorithms.reader(());
    reader.update(b"hello world");
    assert_eq!(reader.digests(), whole);
}

#[test]
fn digests_snapshot_mid_stream() {
    let algorithms = Algorithms::default();
    let mut reader = algorithms.reader(());
    reader.update(b"foo");
    let (_, foo) = algorithms.digest_bytes(b"foo");
    assert_eq!(reader.digests(), foo);
    reader.update(b"bar");
    let (_, foobar) = algorithms.digest_bytes(b"foobar");
    assert_eq!(reader.digests(), foobar);
}

#[test]
fn canonical_encode_round_trip() {
    let parsed = ContentDigest::from_str(FOO_DIGESTS).unwrap();
    let encoded = parsed.encode_string();
    assert_eq!(encoded, FOO_DIGESTS.to_string());
    let reparsed = ContentDigest::from_str(&encoded).unwrap();
    assert_eq!(reparsed, parsed);
}

#[test]
fn parse_accepts_any_order_but_encodes_canonically() {
    let shuffled = "sha-256=:LCa0a2j/xo/5m0U8HTBBNBNCLXBkg7+g+YpeiGJm564=:,sha-224=:CAj2TmDViXn8tnbJbsk4Jw3qQkRa7vzTpOb42w==:";
    let canonical = "sha-224=:CAj2TmDViXn8tnbJbsk4Jw3qQkRa7vzTpOb42w==:,sha-256=:LCa0a2j/xo/5m0U8HTBBNBNCLXBkg7+g+YpeiGJm564=:";
    let parsed = ContentDigest::from_str(shuffled).unwrap();
    assert_eq!(parsed.encode_string(), canonical.to_string());
}

#[test]
fn foo_digest_text_is_exact() {
    let algorithms = Algorithms::default();
    let (n, digests) = algorithms.digest_bytes(b"foo");
    assert_eq!(n, 3);
    assert_eq!(digests.encode_string(), FOO_DIGESTS.to_string());
}

#[test]
fn parse_error_variants() {
    assert_eq!(ContentDigest::from_str("sha-256").unwrap_err(), DigestError::MalformedEntry);
    assert_eq!(
        ContentDigest::from_str("sha-999=:AAAA:").unwrap_err(),
        DigestError::UnknownAlgorithm
    );
    assert_eq!(
        ContentDigest::from_str("sha-256=:@@@@:").unwrap_err(),
        DigestError::InvalidBase64
    );
    assert_eq!(
        ContentDigest::from_str("sha-256=:AA==:").unwrap_err(),
        DigestError::InvalidLength
    );
    let dup = "sha-256=:LCa0a2j/xo/5m0U8HTBBNBNCLXBkg7+g+YpeiGJm564=:,sha-256=:LCa0a2j/xo/5m0U8HTBBNBNCLXBkg7+g+YpeiGJm564=:";
    assert_eq!(ContentDigest::from_str(dup).unwrap_err(), DigestError::DuplicateAlgorithm);
    assert_eq!(ContentDigest::from_str("").unwrap_err(), DigestError::MalformedEntry);
    assert_eq!(DigestError::InvalidBase64.message(), "invalid base64 digest".to_string());
}

#[test]
fn insert_and_subset_sets() {
    let mut set = Algorithms::empty();
    assert_eq!(set.len(), 0);
    assert!(set.insert(Algorithm::Sha384));
    assert!(set.insert(Algorithm::Sha224));
    assert!(!set.insert(Algorithm::Sha384));
    assert_eq!(set.len(), 2);
    assert_eq!(set.as_slice(), &[Algorithm::Sha224, Algorithm::Sha384]);

    let (n, digests) = set.digest_bytes(b"foo");
    assert_eq!(n, 3);
    assert_eq!(digests.len(), 2);
    let text = digests.encode_string();
    assert!(text.starts_with("sha-224=:"));
    assert!(text.contains(",sha-384=:"));
}
