use audion::files::{CoverDir, CoverFile};
use audion::store::{clear_base64_covers, Store, Track};
use audion::syncpaths::{scan_covers_directory, sync_cover_paths_from_files};

fn bare_track(id: i64) -> Track {
    Track {
        id,
        path: format!("/music/{}.flac", id),
        title: None,
        artist: None,
        album: None,
        track_number: None,
        duration: None,
        album_id: None,
        format: None,
        bitrate: None,
        source_type: None,
        cover_url: None,
        external_id: None,
        local_src: None,
        track_cover: None,
        track_cover_path: None,
    }
}

fn file(name: &str, bytes: &[u8]) -> CoverFile {
    CoverFile { name: name.to_string(), bytes: bytes.to_vec() }
}

#[test]
fn directory_scan_pairs_ids_with_image_files() {
    let mut dir = CoverDir { files: Vec::new() };
    dir.files.push(file("7.png", b"a"));
    dir.files.push(file("x.png", b"b"));
    dir.files.push(file("8.txt", b"c"));
    dir.files.push(file("9.JPG", b"d"));

    let entries = scan_covers_directory(&dir);
    assert_eq!(entries.len(), 2);
    assert_eq!(entries[0], ("7.png".to_string(), 7));
    assert_eq!(entries[1], ("9.JPG".to_string(), 9));
}

#[test]
fn sync_restores_paths_from_files() {
    let mut store = Store {
        tracks: vec![bare_track(7), bare_track(9), bare_track(11)],
        albums: Vec::new(),
    };
    let mut tracks_dir = CoverDir { files: Vec::new() };
    tracks_dir.files.push(file("7.png", b"a"));
    tracks_dir.files.push(file("9.jpg", b"b"));
    // A cover left behind by a deleted row is silently skipped: it adds
    // to the scanned total but neither to the synced count nor to the
    // errors.
    tracks_dir.files.push(file("99.jpg", b"c"));
    let albums_dir = CoverDir { files: Vec::new() };

    let (summary, _events) =
        sync_cover_paths_from_files(&mut store, &tracks_dir, &albums_dir, 1);
    assert_eq!(summary.total, 3);
    assert_eq!(summary.processed, 2);
    assert_eq!(summary.tracks_migrated, 2);
    assert_eq!(summary.albums_migrated, 0);
    assert_eq!(summary.errors.len(), 0);
    assert_eq!(store.tracks[0].track_cover_path, Some("7.png".to_string()));
    assert_eq!(store.tracks[1].track_cover_path, Some("9.jpg".to_string()));
    assert_eq!(store.tracks[2].track_cover_path, None);
}

#[test]
fn clearing_blobs_only_touches_migrated_rows() {
    let mut migrated = bare_track(1);
    migrated.track_cover = Some("blob".to_string());
    migrated.track_cover_path = Some("1.jpg".to_string());
    let mut pending = bare_track(2);
    pending.track_cover = Some("blob".to_string());
    let mut store = Store { tracks: vec![migrated, pending], albums: Vec::new() };

    let cleared = clear_base64_covers(&mut store);
    assert_eq!(cleared, 1);
    assert_eq!(store.tracks[0].track_cover, None);
    assert_eq!(store.tracks[1].track_cover, Some("blob".to_string()));
}
