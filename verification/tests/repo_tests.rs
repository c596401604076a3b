use sha2::Digest;
use wts_core::commit::Commit;
use wts_core::errors::WTSError;
use wts_core::history::CommitIterator;
use wts_core::repo::{
    branch_rel_path, commit_rel_path, default_head_content, head_rel_path, object_rel_path,
    tag_rel_path, Repository,
};
use wts_core::tensor::{TensorCollection, TensorValue};

fn tv(shape: &str, dtype: &str, data: &[u8]) -> TensorValue {
    TensorValue { shape: shape.to_string(), dtype: dtype.to_string(), data: data.to_vec() }
}

fn digest_hex(c: &TensorCollection) -> String {
    let repo = Repository::new();
    let d = repo.hash_tensors(c).unwrap();
    hex::encode(d)
}

#[test]
fn digest_is_order_independent() {
    let mut a = TensorCollection::new();
    a.insert("alpha".to_string(), tv("[2]", "f32", &[1, 2, 3, 4]));
    a.insert("beta".to_string(), tv("[1]", "f32", &[5, 6]));
    let mut b = TensorCollection::new();
    b.insert("beta".to_string(), tv("[1]", "f32", &[5, 6]));
    b.insert("alpha".to_string(), tv("[2]", "f32", &[1, 2, 3, 4]));
    assert_eq!(digest_hex(&a), digest_hex(&b));
}

#[test]
fn digest_distinguishes_differences() {
    let mut base = TensorCollection::new();
    base.insert("w".to_string(), tv("[3]", "f32", &[1, 2, 3]));
    let base_hex = digest_hex(&base);

    let mut other_bytes = TensorCollection::new();
    other_bytes.insert("w".to_string(), tv("[3]", "f32", &[1, 2, 4]));
    assert_ne!(base_hex, digest_hex(&other_bytes));

    let mut other_shape = TensorCollection::new();
    other_shape.insert("w".to_string(), tv("[1,3]", "f32", &[1, 2, 3]));
    assert_ne!(base_hex, digest_hex(&other_shape));

    let mut other_dtype = TensorCollection::new();
    other_dtype.insert("w".to_string(), tv("[3]", "f16", &[1, 2, 3]));
    assert_ne!(base_hex, digest_hex(&other_dtype));

    let mut other_name = TensorCollection::new();
    other_name.insert("v".to_string(), tv("[3]", "f32", &[1, 2, 3]));
    assert_ne!(base_hex, digest_hex(&other_name));
}

#[test]
fn empty_collection_digest_matches_sha512_of_nothing() {
    let c = TensorCollection::new();
    assert_eq!(
        digest_hex(&c),
        "cf83e1357eefb8bdf1542850d66d8007d620e4050b5715dc83f4a921d36ce9ce\
         47d0d13c5d85f2b0ff8318d2877eec2f63b931bd47417a81a538327af927da3e"
    );
}

#[test]
fn digest_matches_direct_sha512_of_canonical_encoding() {
    let mut c = TensorCollection::new();
    c.insert("zz".to_string(), tv("[1]", "u8", &[9]));
    c.insert("aa".to_string(), tv("[2]", "i64", &[7, 8]));
    let mut h = sha2::Sha512::new();
    h.update("aa".as_bytes());
    h.update("[2]".as_bytes());
    h.update("i64".as_bytes());
    h.update(&[7u8, 8u8]);
    h.update("zz".as_bytes());
    h.update("[1]".as_bytes());
    h.update("u8".as_bytes());
    h.update(&[9u8]);
    let expect = hex::encode(h.finalize());
    assert_eq!(digest_hex(&c), expect);
}

#[test]
fn object_round_trip() {
    let mut repo = Repository::new();
    repo.init();
    let mut c = TensorCollection::new();
    c.insert("w".to_string(), tv("[3]", "f32", &[0, 0, 128, 63, 0, 0]));
    let hex_hash = repo.create_commit(&c, "snap", None, None).unwrap();
    let back = repo.get_obj(&hex_hash).unwrap();
    assert_eq!(back.len(), 1);
    let got = back.get(&"w".to_string()).unwrap();
    assert_eq!(got.shape, "[3]");
    assert_eq!(got.dtype, "f32");
    assert_eq!(got.data, vec![0, 0, 128, 63, 0, 0]);
}

#[test]
fn commit_round_trip() {
    let mut repo = Repository::new();
    repo.init();
    let mut c = TensorCollection::new();
    c.insert("w".to_string(), tv("[2]", "f32", &[1, 2]));
    let parent = Some(vec![7u8; 64]);
    let hex_hash = repo
        .create_commit(&c, "with parent", Some("{\"k\":1}".to_string()), parent.clone())
        .unwrap();
    let m: Commit = repo.get_commit(&hex_hash).unwrap();
    assert_eq!(hex::encode(&m.hash), hex_hash);
    assert_eq!(m.parent_hash, parent);
    assert_eq!(m.message, "with parent");
    assert_eq!(m.metadata, Some("{\"k\":1}".to_string()));
    assert!(m.timestamp.micros < 1_000_000);
}

#[test]
fn create_commit_is_idempotent_on_the_key() {
    let mut repo = Repository::new();
    repo.init();
    let mut c = TensorCollection::new();
    c.insert("w".to_string(), tv("[1]", "f32", &[42]));
    let h1 = repo.create_commit(&c, "first", None, None).unwrap();
    let h2 = repo.create_commit(&c, "second", None, None).unwrap();
    assert_eq!(h1, h2);
    // the second record replaced the first under the shared key
    let m = repo.get_commit(&h1).unwrap();
    assert_eq!(m.message, "second");
}

#[test]
fn branch_then_resolve_returns_the_digest() {
    let mut repo = Repository::new();
    repo.init();
    let h = "ab".repeat(64);
    repo.create_branch("main", &h).unwrap();
    let got = repo.get_reference("refs/heads/main").unwrap();
    assert_eq!(got, h);
}

#[test]
fn tag_then_resolve_returns_the_digest() {
    let mut repo = Repository::new();
    repo.init();
    repo.create_tag("v1", "0011").unwrap();
    assert_eq!(repo.get_reference("refs/tags/v1").unwrap(), "0011");
}

#[test]
fn reference_text_is_trimmed() {
    let mut repo = Repository::new();
    repo.create_branch("b", " abc\n").unwrap();
    assert_eq!(repo.get_reference("refs/heads/b").unwrap(), "abc");
}

#[test]
fn head_resolves_to_default_content() {
    let mut repo = Repository::new();
    repo.init();
    assert_eq!(repo.get_reference("HEAD").unwrap(), "ref: ref/heads/main");
}

#[test]
fn missing_reference_is_invalid_reference() {
    let repo = Repository::new();
    match repo.get_reference("refs/heads/nope") {
        Err(WTSError::InvalidReference(p)) => assert_eq!(p, "refs/heads/nope"),
        other => panic!("unexpected: {:?}", other.map(|_| ())),
    }
    match repo.get_reference("objects/zz") {
        Err(WTSError::InvalidReference(_)) => {}
        other => panic!("unexpected: {:?}", other.map(|_| ())),
    }
}

#[test]
fn missing_commit_is_object_not_found() {
    let repo = Repository::new();
    match repo.get_commit("00ff") {
        Err(WTSError::ObjectNotFound(k)) => assert_eq!(k, "00ff"),
        other => panic!("unexpected: {:?}", other.map(|_| ())),
    }
    match repo.get_obj("00ff") {
        Err(WTSError::ObjectNotFound(k)) => assert_eq!(k, "00ff"),
        other => panic!("unexpected: {:?}", other.map(|_| ())),
    }
}

#[test]
fn history_of_root_commit_yields_one_element() {
    let mut repo = Repository::new();
    repo.init();
    let mut c = TensorCollection::new();
    c.insert("w".to_string(), tv("[1]", "f32", &[1]));
    let hex_hash = repo.create_commit(&c, "root", None, None).unwrap();
    let start = hex::decode(&hex_hash).unwrap();
    let mut it = CommitIterator::new(&repo, start);
    match it.next() {
        Some(Ok(m)) => assert_eq!(m.message, "root"),
        other => panic!("unexpected: {:?}", other.map(|r| r.map(|_| ()))),
    }
    assert!(it.next().is_none());
    assert!(it.next().is_none());
}

#[test]
fn history_with_missing_parent_yields_commit_then_failure() {
    let mut repo = Repository::new();
    repo.init();
    let parent = vec![0xABu8; 64];
    let parent_hex = hex::encode(&parent);
    let mut c = TensorCollection::new();
    c.insert("w".to_string(), tv("[1]", "f32", &[2]));
    let hex_hash = repo.create_commit(&c, "tip", None, Some(parent)).unwrap();
    let mut it = CommitIterator::new(&repo, hex::decode(&hex_hash).unwrap());
    match it.next() {
        Some(Ok(m)) => assert_eq!(m.message, "tip"),
        other => panic!("unexpected: {:?}", other.map(|r| r.map(|_| ()))),
    }
    match it.next() {
        Some(Err(WTSError::ObjectNotFound(k))) => assert_eq!(k, parent_hex),
        other => panic!("unexpected: {:?}", other.map(|r| r.map(|_| ()))),
    }
    assert!(it.next().is_none());
}

#[test]
fn open_fails_without_init_and_succeeds_after() {
    let repo = Repository::new();
    match repo.open() {
        Err(WTSError::EmptyRepository) => {}
        _ => panic!("open of a fresh repository must fail"),
    }
    let mut repo = Repository::new();
    repo.init();
    assert!(repo.is_initialized());
    assert!(repo.open().is_ok());
}

#[test]
fn end_to_end_commit_branch_resolve() {
    let mut repo = Repository::new();
    repo.init();
    let mut c = TensorCollection::new();
    // three f32 values 1.0, 2.0, 3.0 as little-endian bytes
    let mut bytes = Vec::new();
    for v in [1.0f32, 2.0f32, 3.0f32] {
        bytes.extend_from_slice(&v.to_le_bytes());
    }
    c.insert("w".to_string(), tv("[3]", "f32", &bytes));
    let d1 = repo.create_commit(&c, "first", None, None).unwrap();
    assert_eq!(d1.len(), 128);
    repo.create_branch("main", &d1).unwrap();
    assert_eq!(repo.get_reference("refs/heads/main").unwrap(), d1);
    assert_eq!(repo.get_commit(&d1).unwrap().message, "first");
}

#[test]
fn relative_paths_follow_the_layout() {
    assert_eq!(commit_rel_path("ab"), ".wts/commits/ab.json");
    assert_eq!(object_rel_path("ab"), ".wts/objects/ab");
    assert_eq!(branch_rel_path("main"), ".wts/refs/heads/main");
    assert_eq!(tag_rel_path("v1"), ".wts/refs/tags/v1");
    assert_eq!(head_rel_path(), ".wts/HEAD");
    assert_eq!(default_head_content(), "ref: ref/heads/main");
}

#[test]
fn collection_get_and_len() {
    let mut c = TensorCollection::new();
    assert_eq!(c.len(), 0);
    c.insert("b".to_string(), tv("[1]", "u8", &[1]));
    c.insert("a".to_string(), tv("[2]", "u8", &[2, 3]));
    assert_eq!(c.len(), 2);
    assert!(c.get(&"a".to_string()).is_some());
    assert!(c.get(&"b".to_string()).is_some());
    assert!(c.get(&"c".to_string()).is_none());
    assert_eq!(c.get(&"a".to_string()).unwrap().data, vec![2, 3]);
}
