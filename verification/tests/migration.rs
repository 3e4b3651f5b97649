use audion::batch::{calculate_batch_size, eta_millis};
use audion::files::CoverDir;
use audion::migrate::{
    apply_migration_batch, enumerate_work_items, migrate_covers_to_files, ItemKind,
    MigrationError, MigrationResult,
};
use audion::store::{Album, Store, Track};

fn track(id: i64, cover: Option<&str>, cover_path: Option<&str>) -> Track {
    Track {
        id,
        path: format!("/music/{}.flac", id),
        title: None,
        artist: None,
        album: None,
        track_number: None,
        duration: None,
        album_id: None,
        format: None,
        bitrate: None,
        source_type: None,
        cover_url: None,
        external_id: None,
        local_src: None,
        track_cover: cover.map(|s| s.to_string()),
        track_cover_path: cover_path.map(|s| s.to_string()),
    }
}

// Base64 of the bytes FF D8 FF E0: a valid JPEG prefix.
const JPEG_B64: &str = "/9j/4A==";

#[test]
fn migration_end_to_end() {
    // Three rows with blobs and no path, two already migrated.
    let mut store = Store {
        tracks: vec![
            track(1, Some(JPEG_B64), None),
            track(2, Some(JPEG_B64), None),
            track(3, Some(JPEG_B64), None),
            track(4, None, Some("4.jpg")),
            track(5, None, Some("5.jpg")),
        ],
        albums: Vec::new(),
    };
    let mut tracks_dir = CoverDir::new();
    let mut albums_dir = CoverDir::new();
    let (summary, events) =
        migrate_covers_to_files(&mut store, &mut tracks_dir, &mut albums_dir, 1);

    assert_eq!(summary.total, 3);
    assert_eq!(summary.processed, 3);
    assert_eq!(summary.tracks_migrated, 3);
    assert_eq!(summary.albums_migrated, 0);
    assert_eq!(summary.errors.len(), 0);
    assert!(!events.is_empty());

    // The migrated rows point at their stored covers.
    assert_eq!(store.tracks[0].track_cover_path, Some("1.jpg".to_string()));
    assert_eq!(store.tracks[1].track_cover_path, Some("2.jpg".to_string()));
    assert_eq!(store.tracks[2].track_cover_path, Some("3.jpg".to_string()));
    // The already-migrated rows are untouched.
    assert_eq!(store.tracks[3].track_cover_path, Some("4.jpg".to_string()));
    assert_eq!(store.tracks[4].track_cover_path, Some("5.jpg".to_string()));

    // The covers are on disk with the decoded bytes.
    assert_eq!(tracks_dir.files.len(), 3);
    assert_eq!(tracks_dir.files[0].name, "1.jpg");
    assert_eq!(tracks_dir.files[0].bytes, vec![0xFF, 0xD8, 0xFF, 0xE0]);
}

#[test]
fn migration_is_idempotent() {
    let mut store = Store {
        tracks: vec![track(1, Some(JPEG_B64), None), track(2, Some(JPEG_B64), None)],
        albums: Vec::new(),
    };
    let mut tracks_dir = CoverDir::new();
    let mut albums_dir = CoverDir::new();
    let (first, _) = migrate_covers_to_files(&mut store, &mut tracks_dir, &mut albums_dir, 1);
    assert_eq!(first.processed, 2);

    let (second, _) = migrate_covers_to_files(&mut store, &mut tracks_dir, &mut albums_dir, 1);
    assert_eq!(second.total, 0);
    assert_eq!(second.processed, 0);
}

#[test]
fn invalid_blobs_are_counted_and_skipped() {
    let mut store = Store {
        tracks: vec![
            track(1, Some(JPEG_B64), None),
            track(2, Some("not base64 at all!"), None),
            // Valid base64, but not an image.
            track(3, Some("aGVsbG8="), None),
        ],
        albums: Vec::new(),
    };
    let mut tracks_dir = CoverDir::new();
    let mut albums_dir = CoverDir::new();
    let (summary, _) = migrate_covers_to_files(&mut store, &mut tracks_dir, &mut albums_dir, 1);
    assert_eq!(summary.total, 3);
    assert_eq!(summary.processed, 1);
    assert_eq!(summary.errors.len(), 2);
    assert_eq!(
        summary.errors[0],
        MigrationError::Item { kind: ItemKind::Track, id: 2 }
    );
    assert_eq!(
        summary.errors[1],
        MigrationError::Item { kind: ItemKind::Track, id: 3 }
    );
    // The failed rows stay eligible for a later run.
    assert!(store.tracks[1].track_cover_path.is_none());
    assert!(store.tracks[2].track_cover_path.is_none());
}

#[test]
fn batch_commit_tolerates_one_failing_row() {
    // Partial-failure isolation: one of three entries names a missing row.
    let mut store = Store {
        tracks: vec![track(1, None, None), track(3, None, None)],
        albums: Vec::new(),
    };
    let batch = vec![
        MigrationResult { id: 1, path: "1.jpg".to_string(), kind: ItemKind::Track },
        MigrationResult { id: 2, path: "2.jpg".to_string(), kind: ItemKind::Track },
        MigrationResult { id: 3, path: "3.jpg".to_string(), kind: ItemKind::Track },
    ];
    let (tracks_done, albums_done, errors, committed) =
        apply_migration_batch(&mut store, &batch);
    assert_eq!(tracks_done, 2);
    assert_eq!(albums_done, 0);
    assert_eq!(errors.len(), 1);
    assert_eq!(
        errors[0],
        MigrationError::RowUpdate { kind: ItemKind::Track, id: 2 }
    );
    assert_eq!(committed.len(), 2);
    // The succeeding rows are visible afterwards.
    assert_eq!(store.tracks[0].track_cover_path, Some("1.jpg".to_string()));
    assert_eq!(store.tracks[1].track_cover_path, Some("3.jpg".to_string()));
}

#[test]
fn enumerator_reports_the_full_backlog_up_front() {
    let store = Store {
        tracks: vec![track(1, Some(JPEG_B64), None), track(2, None, Some("2.jpg"))],
        albums: vec![Album {
            id: 7,
            name: "A".to_string(),
            artist: None,
            art_data: Some(JPEG_B64.to_string()),
            art_path: None,
        }],
    };
    let items = enumerate_work_items(&store);
    assert_eq!(items.len(), 2);
}

#[test]
fn batch_size_stays_within_floor_and_ceiling() {
    // The very first batch is small so the observer hears back quickly.
    assert_eq!(calculate_batch_size(0, 100000, 0), 20);
    // Starved channel scales the target down.
    assert_eq!(calculate_batch_size(100, 100000, 0), 24);
    // Backed-up channel scales the target up.
    assert_eq!(calculate_batch_size(100, 100000, 100000), 45);
    // Extremes are clamped.
    assert_eq!(calculate_batch_size(100000, 100000, usize::MAX), 200);
    for &p in &[0usize, 1, 19, 499, 500, 1999, 2000, 50000, usize::MAX] {
        for &d in &[0usize, 1, 500, usize::MAX] {
            let b = calculate_batch_size(p, 100000, d);
            assert!((20..=200).contains(&b));
        }
    }
}

#[test]
fn eta_trends_to_zero_at_constant_rate() {
    // A constant-rate producer: 10 ms per item, 100 items.
    let mut last = u64::MAX;
    for done in 1..=100u64 {
        let eta = eta_millis(done, 100, done * 10);
        assert!(eta <= last);
        last = eta;
    }
    assert_eq!(eta_millis(100, 100, 1000), 0);
    assert_eq!(eta_millis(0, 100, 0), 0);
    assert_eq!(eta_millis(50, 100, 500), 500);
}
