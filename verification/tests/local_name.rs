use encoding_rs::{UTF_8, WINDOWS_1252};
use lol_html::base::bytes::{Bytes, BytesCow, HasReplacementsError, Range};
use lol_html::html::local_name::{eq_ignore_ascii_case, LocalName};
use lol_html::html::local_name_hash::{LocalNameHash, Tag};
use lol_html::html::namespace::Namespace;
use std::hash::{BuildHasher, Hash, Hasher, RandomState};

#[test]
fn from_str() {
    assert_eq!(LocalNameHash::from("div").as_u64(), 9691u64);
}

#[test]
fn hash_invalidation_for_non_ascii_chars() {
    assert!(LocalNameHash::from("div@&").is_empty());
}

#[test]
fn hash_invalidation_for_long_values() {
    assert!(LocalNameHash::from("aaaaaaaaaaaaaa").is_empty());
}

#[test]
fn bytes_variant_hash_matches_case_insensitive_eq() {
    let s = RandomState::new();
    let a = LocalName::from_str_without_replacements("My-Widget", encoding_rs::UTF_8).unwrap();
    let b = LocalName::from_str_without_replacements("my-widget", encoding_rs::UTF_8).unwrap();
    assert!(matches!(a, LocalName::Bytes(_)));
    assert_eq!(a, b);
    assert_eq!(s.hash_one(&a), s.hash_one(&b));
}

#[test]
fn different_names_have_different_keys() {
    let a = LocalName::from_str_without_replacements("my-widget", UTF_8).unwrap();
    let b = LocalName::from_str_without_replacements("my-gadget", UTF_8).unwrap();
    let div = LocalName::from_str_without_replacements("div", UTF_8).unwrap();
    assert_ne!(a.hash_key(), b.hash_key());
    assert_eq!(div.hash_key(), (9691, vec![]));
    assert_eq!(a.hash_key(), (u64::MAX, b"my-widget".to_vec()));
}

#[test]
fn twelve_characters_fit() {
    let name = "figcaptionab";
    let hash = LocalNameHash::from(name);
    assert!(!hash.is_empty());
    let mut buf = [0; 12];
    assert_eq!(hash.decode(&mut buf), Some(name));
}

#[test]
fn thirteen_characters_do_not_fit() {
    assert!(LocalNameHash::from("aaaaaaaaaaaaa").is_empty());
    assert!(LocalNameHash::from("zzzzzzzzzzzzz").is_empty());
    assert!(!LocalNameHash::from("zzzzzzzzzzzz").is_empty());
}

#[test]
fn hash_is_reversible_up_to_case() {
    for name in ["a", "H1", "h6", "sPaN", "annotation12", "z"] {
        let mut buf = [0; 12];
        let lower = name.to_ascii_lowercase();
        assert_eq!(
            LocalNameHash::from(name).decode(&mut buf),
            Some(lower.as_str())
        );
        assert_eq!(LocalNameHash::from(name), LocalNameHash::from(lower.as_str()));
        assert_eq!(LocalNameHash::from(name).to_display(), lower);
    }
}

#[test]
fn nothing_is_decoded_from_empty_and_invalid_hashes() {
    let mut buf = [0; 12];
    assert_eq!(LocalNameHash::new().decode(&mut buf), None);
    assert_eq!(LocalNameHash::default().as_u64(), 0);
    assert_eq!(LocalNameHash::from("h7").decode(&mut buf), None);
    assert_eq!(LocalNameHash::from("h7").as_u64(), u64::MAX);
    assert_eq!(LocalNameHash::from("h0").to_display(), "N/A");
}

#[test]
fn invalid_hash_stays_invalid() {
    let mut hash = LocalNameHash::from("a-");
    hash.update(b'b');
    assert!(hash.is_empty());
}

#[test]
fn hash_is_built_character_by_character() {
    let mut hash = LocalNameHash::new();
    for ch in b"div" {
        hash.update(*ch);
    }
    assert_eq!(hash, LocalNameHash::from_ascii(b"DIV"));
}

#[test]
fn tags_are_known_by_their_hash() {
    let div = Tag::new(b"div").unwrap();
    assert!(LocalNameHash::from("DIV") == div);
    assert!(LocalNameHash::from("span") != div);
    assert!(LocalNameHash::from("no-tag") != div);
    assert!(LocalName::from_str_without_replacements("div", UTF_8).unwrap() == div);
    assert!(LocalName::from_str_without_replacements("x-div", UTF_8).unwrap() != div);
    assert!(Tag::new(b"x-div").is_none());
}

#[test]
fn name_of_a_range_of_the_input() {
    let input = Bytes::new(b"<my-tag><b>");
    let range = Range { start: 1, end: 7 };
    let hash = LocalNameHash::from_ascii(b"my-tag");
    let name = LocalName::new(input, range, hash);
    assert!(matches!(&name, LocalName::Bytes(bytes) if bytes.as_slice() == b"my-tag"));
    let owned = name.clone().into_owned();
    assert_eq!(owned, name);
    assert!(matches!(owned, LocalName::Bytes(BytesCow::Owned(_))));

    let b = LocalName::new(
        input,
        Range { start: 9, end: 10 },
        LocalNameHash::from_ascii(b"b"),
    );
    assert!(matches!(b, LocalName::Hash(_)));
    assert_eq!(b.clone().into_owned(), b);
    assert_ne!(b, name);
}

#[test]
fn names_that_the_encoding_lacks_are_refused() {
    let refused = LocalName::from_str_without_replacements("\u{43f}", WINDOWS_1252);
    assert!(matches!(refused, Err(HasReplacementsError)));
    let taken = LocalName::from_str_without_replacements("\u{e9}", WINDOWS_1252).unwrap();
    assert!(matches!(taken, LocalName::Bytes(bytes) if bytes.as_slice() == [0xe9]));
    let utf8 = LocalName::from_str_without_replacements("\u{e9}", UTF_8).unwrap();
    assert!(matches!(utf8, LocalName::Bytes(bytes) if bytes.as_slice() == [0xc3, 0xa9]));
}

#[test]
fn only_ascii_letters_have_case() {
    assert!(eq_ignore_ascii_case(b"A-Z[@`{", b"a-z[@`{"));
    assert!(!eq_ignore_ascii_case(b"@", b"`"));
    assert!(!eq_ignore_ascii_case(b"[", b"{"));
    assert!(!eq_ignore_ascii_case(b"ab", b"abc"));
}

#[test]
fn namespaces_have_uris() {
    assert_eq!(Namespace::Html.uri(), "http://www.w3.org/1999/xhtml");
    assert_eq!(Namespace::Svg.uri(), "http://www.w3.org/2000/svg");
    assert_eq!(Namespace::MathML.uri(), "http://www.w3.org/1998/Math/MathML");
    assert_eq!(Namespace::default(), Namespace::Html);
}

/// Keeps what it is fed.
struct Recorder(Vec<u8>);

impl Hasher for Recorder {
    fn write(&mut self, bytes: &[u8]) {
        self.0.extend_from_slice(bytes);
    }

    fn finish(&self) -> u64 {
        0
    }
}

fn fed(name: &LocalName<'_>) -> Vec<u8> {
    let mut recorder = Recorder(vec![]);
    name.hash(&mut recorder);
    recorder.0
}

#[test]
fn hasher_is_fed_with_the_name() {
    let widget = LocalName::from_str_without_replacements("My-Widget", UTF_8).unwrap();
    let gadget = LocalName::from_str_without_replacements("My-Gadget", UTF_8).unwrap();
    assert!(fed(&widget).ends_with(b"my-widget"));
    assert_ne!(fed(&widget), fed(&gadget));
}

#[test]
fn same_names_feed_a_hasher_alike() {
    for (left, right) in [("My-Widget", "mY-wIDGET"), ("DIV", "div"), ("h7", "H7")] {
        let left = LocalName::from_str_without_replacements(left, UTF_8).unwrap();
        let right = LocalName::from_str_without_replacements(right, UTF_8).unwrap();
        assert_eq!(left, right);
        assert_eq!(fed(&left), fed(&right));
    }
    let div = LocalName::from_str_without_replacements("div", UTF_8).unwrap();
    let dir = LocalName::from_str_without_replacements("dir", UTF_8).unwrap();
    let long = LocalName::from_str_without_replacements("my-div", UTF_8).unwrap();
    assert_ne!(fed(&div), fed(&dir));
    assert_ne!(fed(&div), fed(&long));
    assert!(div != long && long != div);
}

#[test]
fn names_are_written_in_utf8_where_an_encoding_is_only_read() {
    for encoding in [encoding_rs::UTF_16LE, encoding_rs::UTF_16BE, encoding_rs::REPLACEMENT] {
        let name = LocalName::from_str_without_replacements("\u{43f}", encoding).unwrap();
        assert!(matches!(name, LocalName::Bytes(bytes) if bytes.as_slice() == [0xd0, 0xbf]));
    }
}
