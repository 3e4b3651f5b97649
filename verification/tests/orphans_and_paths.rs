use audion::digits::{i64_decimal_string, parse_i64};
use audion::files::{cover_file_name, CoverDir, CoverFile};
use audion::orphan::cleanup_orphaned_covers;
use audion::ImageFormat;

fn file(name: &str, bytes: &[u8]) -> CoverFile {
    CoverFile { name: name.to_string(), bytes: bytes.to_vec() }
}

#[test]
fn orphaned_covers_are_deleted() {
    let mut tracks_dir = CoverDir { files: Vec::new() };
    tracks_dir.files.push(file("1.jpg", b"aa"));
    tracks_dir.files.push(file("2.jpg", b"bb"));
    tracks_dir.files.push(file("notanid.jpg", b"cc"));
    let mut albums_dir = CoverDir { files: Vec::new() };
    albums_dir.files.push(file("7.png", b"dd"));

    let track_ids = vec![1i64];
    let album_ids = vec![7i64];
    let deleted =
        cleanup_orphaned_covers(&track_ids, &album_ids, &mut tracks_dir, &mut albums_dir);

    // Only the unreferenced parseable file goes; unparseable stems stay.
    assert_eq!(deleted, 1);
    assert_eq!(tracks_dir.files.len(), 2);
    assert!(tracks_dir.files.iter().any(|f| f.name == "1.jpg"));
    assert!(tracks_dir.files.iter().any(|f| f.name == "notanid.jpg"));
    assert!(tracks_dir.files.iter().all(|f| f.name != "2.jpg"));
    assert_eq!(albums_dir.files.len(), 1);
}

#[test]
fn decimal_rendering_and_parsing_are_inverse() {
    assert_eq!(i64_decimal_string(0), "0");
    assert_eq!(i64_decimal_string(123), "123");
    assert_eq!(i64_decimal_string(-45), "-45");
    assert_eq!(i64_decimal_string(i64::MIN), "-9223372036854775808");
    assert_eq!(parse_i64("123"), Some(123));
    assert_eq!(parse_i64("-45"), Some(-45));
    assert_eq!(parse_i64("+7"), Some(7));
    assert_eq!(parse_i64("-9223372036854775808"), Some(i64::MIN));
    assert_eq!(parse_i64("9223372036854775808"), None);
    assert_eq!(parse_i64("12x"), None);
    assert_eq!(parse_i64(""), None);
    assert_eq!(parse_i64("-"), None);
    for &id in &[0i64, 1, -1, 42, 99999, i64::MAX, i64::MIN] {
        assert_eq!(parse_i64(&i64_decimal_string(id)), Some(id));
    }
}

#[test]
fn stored_cover_names_parse_back_to_their_id() {
    assert_eq!(cover_file_name(12, ImageFormat::Jpeg), "12.jpg");
    assert_eq!(cover_file_name(3, ImageFormat::Png), "3.png");
    assert_eq!(cover_file_name(-8, ImageFormat::Webp), "-8.webp");
    assert_eq!(parse_i64("12"), Some(12));
}
