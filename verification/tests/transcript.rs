use sumcheck::field::Fp;
use sumcheck::transcript::Transcript;

#[test]
fn test_hash() {
    let mut transcript = Transcript::init();
    transcript.append(b"data1");
    transcript.append(Fp::from_u64(7).to_be_bytes().as_slice());
    transcript.append(b"data2");

    let hash = transcript.hash();
    let hash2 = transcript.hash();
    let hash3 = transcript.hash();

    assert_eq!(hash, hash2);
    assert_eq!(hash, hash3);
}

#[test]
fn test_transcript_determinism() {
    // Two transcripts fed byte-identical append sequences derive identical
    // challenges, before and after further appends.
    let mut t1 = Transcript::init();
    let mut t2 = Transcript::init();
    t1.append(b"round");
    t2.append(b"round");
    t1.append(&[1, 2, 3]);
    t2.append(&[1, 2, 3]);
    assert_eq!(t1.hash(), t2.hash());
    t1.append(b"more");
    t2.append(b"more");
    assert_eq!(t1.hash(), t2.hash());
}

#[test]
fn test_transcript_depends_on_appended_bytes() {
    let mut t1 = Transcript::init();
    let mut t2 = Transcript::init();
    t1.append(b"a");
    t2.append(b"b");
    assert_ne!(t1.hash(), t2.hash());
}

#[test]
fn test_hash_changes_after_append() {
    let mut t = Transcript::init();
    t.append(b"seed");
    let before = t.hash();
    t.append(b"message");
    let after = t.hash();
    assert_ne!(before, after);
}

#[test]
fn test_split_appends_match_joined_append() {
    // Only the absorbed byte stream matters, not how it was chunked.
    let mut t1 = Transcript::init();
    t1.append(b"ab");
    t1.append(b"cd");
    let mut t2 = Transcript::init();
    t2.append(b"abcd");
    assert_eq!(t1.hash(), t2.hash());
}
