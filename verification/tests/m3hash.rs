use hanzi_ime::m3hash::grapheme_cluster;

#[test]
fn test_grapheme_cluster_ascii_seed0_limit1() {
    let gc = &"test";
    let seed = 0;
    let limit = 1;
    // This is hashing just the 't' from "test"
    assert_eq!(grapheme_cluster(gc, seed, limit), (0x31099644, 1));
}

#[test]
fn test_grapheme_cluster_ascii_seed1_limit1() {
    let gc = &"test";
    let seed = 1;
    let limit = 1;
    // This is hashing just the 't' from "test"
    assert_eq!(grapheme_cluster(gc, seed, limit), (0xD667FA27, 1));
}

#[test]
fn test_grapheme_cluster_simple_emoji_limit1() {
    let gc = &"😸test";
    let seed = 0;
    let limit = 1;
    // This is hashing just the "😸" from "😸test"
    // Return of (_, 4) means 4 bytes were used for the limit of 1 codepoint
    assert_eq!(grapheme_cluster(gc, seed, limit), (0x86E5DD9A, 4));
}

#[test]
fn grapheme_cluster_limit_zero_hashes_nothing() {
    // A limit of zero consumes no bytes, whatever the input.
    let (_, consumed) = grapheme_cluster(&"abc", 7, 0);
    assert_eq!(consumed, 0);
}

#[test]
fn grapheme_cluster_limit_beyond_end_consumes_all_bytes() {
    let (_, consumed) = grapheme_cluster(&"a😸", 0, 99);
    assert_eq!(consumed, 5);
}
