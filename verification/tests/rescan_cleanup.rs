use audion::store::{cleanup_deleted_tracks, cleanup_empty_albums, get_or_create_album, insert_or_update_track, Album, Store, Track, TrackInsert};

fn track_at(id: i64, path: &str, album_id: Option<i64>) -> Track {
    Track {
        id,
        path: path.to_string(),
        title: None,
        artist: None,
        album: None,
        track_number: None,
        duration: None,
        album_id,
        format: None,
        bitrate: None,
        source_type: None,
        cover_url: None,
        external_id: None,
        local_src: None,
        track_cover: None,
        track_cover_path: None,
    }
}

#[test]
fn vanished_files_are_dropped_from_scanned_folders() {
    let mut tracks = vec![
        track_at(1, "/music/a.flac", None),
        track_at(2, "/music/b.flac", None),
        track_at(3, "/elsewhere/c.flac", None),
    ];
    let folders = vec!["/music".to_string()];
    // Only a.flac is still on disk; c.flac is outside the scanned folders
    // and is never touched.
    let existing = vec!["/music/a.flac".to_string()];
    let deleted = cleanup_deleted_tracks(&mut tracks, &folders, &existing);
    assert_eq!(deleted, 1);
    assert_eq!(tracks.len(), 2);
    assert_eq!(tracks[0].path, "/music/a.flac");
    assert_eq!(tracks[1].path, "/elsewhere/c.flac");
}

#[test]
fn unreferenced_albums_are_dropped() {
    let album = |id: i64, name: &str| Album {
        id,
        name: name.to_string(),
        artist: None,
        art_data: None,
        art_path: None,
    };
    let mut store = Store {
        tracks: vec![track_at(1, "/music/a.flac", Some(10))],
        albums: vec![album(10, "kept"), album(11, "empty")],
    };
    let deleted = cleanup_empty_albums(&mut store);
    assert_eq!(deleted, 1);
    assert_eq!(store.albums.len(), 1);
    assert_eq!(store.albums[0].id, 10);
}

#[test]
fn scanned_rows_are_upserted_by_path() {
    let insert = |path: &str, title: &str, album: Option<&str>| TrackInsert {
        path: path.to_string(),
        title: Some(title.to_string()),
        artist: Some("someone".to_string()),
        album: album.map(|a| a.to_string()),
        track_number: None,
        duration: Some(180),
        album_art: None,
        track_cover: None,
        format: Some("FLAC".to_string()),
        bitrate: None,
        source_type: None,
        cover_url: None,
        external_id: None,
        content_hash: None,
        local_src: None,
    };
    let mut store = Store { tracks: Vec::new(), albums: Vec::new() };

    // A new file inserts a track and creates its album.
    let (id1, new1) = insert_or_update_track(&mut store, &insert("/m/a.flac", "A", Some("X")), 1, 10);
    assert_eq!((id1, new1), (1, true));
    assert_eq!(store.tracks.len(), 1);
    assert_eq!(store.albums.len(), 1);
    assert_eq!(store.albums[0].id, 10);
    assert_eq!(store.albums[0].name, "X");
    assert_eq!(store.tracks[0].album_id, Some(10));

    // A second file of the same album reuses the album row.
    let (id2, new2) = insert_or_update_track(&mut store, &insert("/m/b.flac", "B", Some("X")), 2, 11);
    assert_eq!((id2, new2), (2, true));
    assert_eq!(store.albums.len(), 1);
    assert_eq!(store.tracks[1].album_id, Some(10));

    // Rescanning a known path rewrites the fields, keeping the id.
    let (id3, new3) = insert_or_update_track(&mut store, &insert("/m/a.flac", "A2", Some("X")), 3, 12);
    assert_eq!((id3, new3), (1, false));
    assert_eq!(store.tracks.len(), 2);
    assert_eq!(store.tracks[0].title, Some("A2".to_string()));
}

#[test]
fn album_artist_is_filled_in_once() {
    let mut albums = vec![Album {
        id: 5,
        name: "X".to_string(),
        artist: None,
        art_data: None,
        art_path: None,
    }];
    let id = get_or_create_album(&mut albums, &"X".to_string(), &Some("someone".to_string()), 9);
    assert_eq!(id, 5);
    assert_eq!(albums.len(), 1);
    assert_eq!(albums[0].artist, Some("someone".to_string()));
    // An artist already set is kept.
    let id2 = get_or_create_album(&mut albums, &"X".to_string(), &Some("other".to_string()), 9);
    assert_eq!(id2, 5);
    assert_eq!(albums[0].artist, Some("someone".to_string()));
}
