use dff::hashing::{hex_of_prefix, quick_hash, sha256_file};

const EMPTY_DIGEST: &str = "e3b0c44298fc1c149afbf4c8996fb92427ae41e4649b934ca495991b7852b855";
const ABC_DIGEST: &str = "ba7816bf8f01cfea414140de5dae2223b00361a396177a9cb410ff61f20015ad";

#[test]
fn full_hash_of_known_contents() {
    assert_eq!(sha256_file(b""), EMPTY_DIGEST);
    assert_eq!(sha256_file(b"abc"), ABC_DIGEST);
}

#[test]
fn quick_hash_is_the_digest_of_head_and_tail_cut_to_eight_digits() {
    assert_eq!(quick_hash(b"abc", b""), &ABC_DIGEST[..8]);
    assert_eq!(quick_hash(b"ab", b"c"), &ABC_DIGEST[..8]);
    assert_eq!(quick_hash(b"", b""), &EMPTY_DIGEST[..8]);
}

#[test]
fn hash_texts_have_fixed_lengths() {
    for data in [&b""[..], b"abc", &[7u8; 10000][..]] {
        assert_eq!(quick_hash(data, b"").len(), 8);
        assert_eq!(sha256_file(data).len(), 64);
    }
}

#[test]
fn different_contents_give_different_fingerprints() {
    assert_ne!(sha256_file(b"abd"), sha256_file(b"abc"));
    assert_ne!(quick_hash(b"abd", b""), quick_hash(b"abc", b""));
}

#[test]
fn hex_is_two_lowercase_digits_per_byte() {
    let bytes = vec![0x00u8, 0x0f, 0xa5, 0xff];
    assert_eq!(hex_of_prefix(&bytes, 4), "000fa5ff");
    assert_eq!(hex_of_prefix(&bytes, 2), "000f");
    assert_eq!(hex_of_prefix(&bytes, 0), "");
}
