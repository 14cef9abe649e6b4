use hanzi_ime::api::v1::translate_zh_hans;
use hanzi_ime::m3hash;

#[test]
fn test_api_translate_zh_hans() {
    assert_eq!(&translate_zh_hans(&"1"), &"1");
}

#[test]
fn test_translate_zh_hans_one() {
    assert_eq!(&translate_zh_hans(&"1"), &"1");
}

#[test]
fn test_hash_one() {
    let seed = 0;
    let limit = 1;
    assert_eq!(m3hash::grapheme_cluster(&"1", seed, limit), (1527182858, 1));
}
