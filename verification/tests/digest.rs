use media_files::digest::{sha1_of_data, FileHasher, ReadStep};
use media_files::error::{FileError, FileErrorKind};
use media_files::store::add_hash_suffix_to_file_stem;

fn hex(bytes: &[u8]) -> String {
    bytes.iter().map(|b| format!("{:02x}", b)).collect()
}

fn failure(kind: FileErrorKind) -> FileError {
    FileError {
        kind,
        info: String::from("read failed"),
    }
}

#[test]
fn add_hash_suffix() {
    let hash = sha1_of_data("hello".as_bytes());
    assert_eq!(
        add_hash_suffix_to_file_stem("test.jpg", &hash).as_str(),
        "test-aaf4c61ddcc5e8a2dabede0f3b482cd9aea9434d.jpg"
    );
}

#[test]
fn digests_of_known_data() {
    assert_eq!(
        hex(&sha1_of_data(b"hello")),
        "aaf4c61ddcc5e8a2dabede0f3b482cd9aea9434d"
    );
    assert_eq!(
        hex(&sha1_of_data(b"hello1")),
        "88fdd585121a4ccb3d1540527aee53a77c77abb8"
    );
    assert_eq!(
        hex(&sha1_of_data(b"")),
        "da39a3ee5e6b4b0d3255bfef95601890afd80709"
    );
    assert_eq!(
        hex(&sha1_of_data(b"abc")),
        "a9993e364706816aba3e25717850c26c9cd0d89d"
    );
}

#[test]
fn hash_suffix_is_the_digest_in_lowercase_hexadecimal() {
    let mut hash = [0u8; 20];
    for (i, b) in hash.iter_mut().enumerate() {
        *b = (i as u8) * 13 + 0x0a;
    }
    let expected = format!("name-{}.ext", hex(&hash));
    assert_eq!(add_hash_suffix_to_file_stem("name.ext", &hash), expected);
    assert_eq!(
        add_hash_suffix_to_file_stem("name.ext", &[0xff; 20]),
        format!("name-{}.ext", "f".repeat(40))
    );
    assert_eq!(
        add_hash_suffix_to_file_stem("name.ext", &[0x0a; 20]),
        format!("name-{}.ext", "0a".repeat(20))
    );
}

#[test]
fn hash_suffix_without_extension_has_no_dot() {
    let hash = sha1_of_data(b"hello");
    assert_eq!(
        add_hash_suffix_to_file_stem("test", &hash),
        "test-aaf4c61ddcc5e8a2dabede0f3b482cd9aea9434d"
    );
    assert_eq!(
        add_hash_suffix_to_file_stem("test.", &hash),
        "test-aaf4c61ddcc5e8a2dabede0f3b482cd9aea9434d"
    );
}

#[test]
fn hash_suffix_caps_stem_and_extension_to_99_bytes() {
    let hash = [0x12u8; 20];
    let long = format!("{}.jpg", "x".repeat(120));
    assert_eq!(
        add_hash_suffix_to_file_stem(&long, &hash),
        format!("{}-{}.jpg", "x".repeat(95), "12".repeat(20))
    );
    let wide = format!("{}.{}", "あ".repeat(40), "y".repeat(20));
    assert_eq!(
        add_hash_suffix_to_file_stem(&wide, &hash),
        format!("{}-{}.{}", "あ".repeat(29), "12".repeat(20), "y".repeat(10))
    );
}

#[test]
fn a_file_is_hashed_chunk_by_chunk() {
    let mut hasher = FileHasher::new();
    assert!(matches!(hasher.feed(Ok(b"he")), ReadStep::Continue));
    assert!(matches!(hasher.feed(Ok(b"l")), ReadStep::Continue));
    assert!(matches!(hasher.feed(Ok(b"lo")), ReadStep::Continue));
    match hasher.feed(Ok(b"")) {
        ReadStep::Done(digest) => assert_eq!(digest, sha1_of_data(b"hello")),
        other => panic!("{:?}", other),
    }
}

#[test]
fn chunks_of_64_kib_give_the_digest_of_the_whole() {
    let data: Vec<u8> = (0..200_000u32).map(|i| (i % 251) as u8).collect();
    let mut hasher = FileHasher::new();
    for chunk in data.chunks(64 * 1024) {
        assert!(matches!(hasher.feed(Ok(chunk)), ReadStep::Continue));
    }
    match hasher.feed(Ok(&[])) {
        ReadStep::Done(digest) => assert_eq!(digest, sha1_of_data(&data)),
        other => panic!("{:?}", other),
    }
}

#[test]
fn an_empty_file_has_the_digest_of_no_data() {
    let mut hasher = FileHasher::new();
    match hasher.feed(Ok(&[])) {
        ReadStep::Done(digest) => assert_eq!(
            hex(&digest),
            "da39a3ee5e6b4b0d3255bfef95601890afd80709"
        ),
        other => panic!("{:?}", other),
    }
}

#[test]
fn an_interrupted_read_is_tried_again() {
    let mut hasher = FileHasher::new();
    assert!(matches!(hasher.feed(Ok(b"hel")), ReadStep::Continue));
    assert!(matches!(
        hasher.feed(Err(failure(FileErrorKind::Interrupted))),
        ReadStep::Continue
    ));
    assert!(matches!(hasher.feed(Ok(b"lo")), ReadStep::Continue));
    match hasher.feed(Ok(b"")) {
        ReadStep::Done(digest) => assert_eq!(digest, sha1_of_data(b"hello")),
        other => panic!("{:?}", other),
    }
}

#[test]
fn any_other_failed_read_ends_the_hashing() {
    let mut hasher = FileHasher::new();
    assert!(matches!(hasher.feed(Ok(b"hel")), ReadStep::Continue));
    match hasher.feed(Err(failure(FileErrorKind::Other))) {
        ReadStep::Failed(e) => {
            assert_eq!(e.kind, FileErrorKind::Other);
            assert_eq!(e.info, "read failed");
        }
        other => panic!("{:?}", other),
    }
    let mut hasher = FileHasher::new();
    match hasher.feed(Err(failure(FileErrorKind::NotFound))) {
        ReadStep::Failed(e) => assert_eq!(e.kind, FileErrorKind::NotFound),
        other => panic!("{:?}", other),
    }
}
