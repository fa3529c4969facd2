use lol_html::base::bytes::Bytes;
use lol_html::base::spanned::{SourceLocation, Spanned, SpannedRawBytes};

#[test]
fn location_of_bytes() {
    let spanned = Spanned::<Bytes<'_>>::new(3, Bytes::new(b"hello"));
    assert_eq!(spanned.len(), 5);
    assert_eq!(spanned.as_slice(), b"hello");
    assert_eq!(spanned.source_location().bytes(), 3..8);
    assert_eq!(spanned.source_location().to_display(), "3B...8B");
}

#[test]
fn location_as_text() {
    assert_eq!(
        SourceLocation::from_start_len(0, 0).to_display(),
        "0B...0B"
    );
    assert_eq!(
        SourceLocation::from_start_len(90, 10).to_display(),
        "90B...100B"
    );
    assert_eq!(
        SourceLocation::from_start_len(usize::MAX, 0).to_display(),
        format!("{}B...{}B", usize::MAX, usize::MAX)
    );
}

#[test]
fn modified_bytes_keep_their_location() {
    let mut raw = SpannedRawBytes::from(Spanned::<Bytes<'_>>::new(7, Bytes::new(b"<a>")));
    assert_eq!(raw.original(), Some(&b"<a>"[..]));
    raw.set_modified();
    assert_eq!(raw.original(), None);
    assert_eq!(raw.len(), 3);
    assert_eq!(raw.source_location().bytes(), 7..10);
}

#[test]
fn detached_bytes_outlive_the_input() {
    let owned: SpannedRawBytes<'static> = {
        let input = b"<b>".to_vec();
        let mut raw = SpannedRawBytes::from(Spanned::<Bytes<'_>>::new(1, Bytes::new(&input)));
        let owned = raw.take_owned();
        assert_eq!(raw.original(), None);
        assert_eq!(raw.source_location().bytes(), 1..4);
        owned
    };
    assert_eq!(owned.original(), Some(&b"<b>"[..]));
    assert_eq!(owned.source_location().bytes(), 1..4);
    let mut again = owned.clone();
    assert_eq!(again.take_owned().original(), Some(&b"<b>"[..]));
    assert_eq!(again.take_owned().original(), None);
    assert_eq!(again.take_owned().len(), 3);
}
