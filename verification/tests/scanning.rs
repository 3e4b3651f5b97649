use audion::scan::{content_hash_key, create_fallback_metadata, get_filename_without_ext, is_supported_audio_file};

#[test]
fn test_is_supported_audio_file() {
    assert!(is_supported_audio_file("song.flac"));
    assert!(is_supported_audio_file("song.FLAC"));
    assert!(is_supported_audio_file("song.mp3"));
    assert!(is_supported_audio_file("song.wav"));
    assert!(is_supported_audio_file("song.ogg"));
    assert!(is_supported_audio_file("song.m4a"));
    assert!(is_supported_audio_file("song.M4A"));
    assert!(is_supported_audio_file("song.aac"));
    assert!(is_supported_audio_file("song.AAC"));
    assert!(!is_supported_audio_file("song.mp4"));
    assert!(!is_supported_audio_file("song.txt"));
}

#[test]
fn test_get_filename_without_ext() {
    assert_eq!(
        get_filename_without_ext("/music/song.flac"),
        Some("song".to_string())
    );
    assert_eq!(
        get_filename_without_ext("artist - track.mp3"),
        Some("artist - track".to_string())
    );
}

#[test]
fn extension_is_taken_from_final_component() {
    // A dot in a directory name is not an extension.
    assert!(!is_supported_audio_file("/mu.flac/song"));
    assert!(is_supported_audio_file("/mu.sic/song.flac"));
}

#[test]
fn fallback_metadata_uses_the_stem_as_title() {
    let row = create_fallback_metadata("/music/cool song.mp3");
    assert_eq!(row.path, "/music/cool song.mp3");
    assert_eq!(row.title, Some("cool song".to_string()));
    assert!(row.artist.is_none());
    assert!(row.album.is_none());
    assert!(row.duration.is_none());
    assert!(row.content_hash.is_none());
}

#[test]
fn content_key_normalizes_metadata() {
    let key = content_hash_key(
        &Some("  My Song ".to_string()),
        &Some("ARTIST".to_string()),
        &None,
        Some(180),
    );
    assert_eq!(key, "my song|artist||180");
    // Byte-identical metadata after normalization yields the same key.
    let key2 = content_hash_key(
        &Some("MY SONG".to_string()),
        &Some("artist  ".to_string()),
        &None,
        Some(180),
    );
    assert_eq!(key2, "my song|artist||180");
    assert_eq!(content_hash_key(&None, &None, &None, None), "|||");
}
