use audion::dedup::{merge_duplicate_covers, select_canonical};
use audion::files::{CoverDir, CoverFile};
use audion::store::Track;

fn track_with_cover(id: i64, album: &str, cover_path: &str) -> Track {
    Track {
        id,
        path: format!("/music/{}.flac", id),
        title: None,
        artist: None,
        album: Some(album.to_string()),
        track_number: None,
        duration: None,
        album_id: None,
        format: None,
        bitrate: None,
        source_type: None,
        cover_url: None,
        external_id: None,
        local_src: None,
        track_cover: None,
        track_cover_path: Some(cover_path.to_string()),
    }
}

fn file(name: &str, bytes: &[u8]) -> CoverFile {
    CoverFile { name: name.to_string(), bytes: bytes.to_vec() }
}

#[test]
fn merge_end_to_end() {
    // One album, four tracks; two covers are byte-identical, two distinct.
    let dup = vec![1u8; 2048];
    let mut tracks = vec![
        track_with_cover(1, "A", "a.jpg"),
        track_with_cover(2, "A", "b.jpg"),
        track_with_cover(3, "A", "c.jpg"),
        track_with_cover(4, "A", "d.jpg"),
    ];
    let mut dir = CoverDir { files: Vec::new() };
    dir.files.push(file("a.jpg", &dup));
    dir.files.push(file("b.jpg", &dup));
    dir.files.push(file("c.jpg", &vec![2u8; 3000]));
    dir.files.push(file("d.jpg", &vec![3u8; 4000]));

    let (result, events) = merge_duplicate_covers(&mut tracks, &mut dir, 1);
    assert_eq!(result.covers_merged, 1);
    assert_eq!(result.space_saved_bytes, 2048);
    assert_eq!(result.albums_processed, 1);
    assert_eq!(result.errors.len(), 0);
    assert_eq!(events.len(), 1);

    // Both tracks that shared the duplicate now reference the canonical
    // path, the lexicographically smallest.
    assert_eq!(tracks[0].track_cover_path, Some("a.jpg".to_string()));
    assert_eq!(tracks[1].track_cover_path, Some("a.jpg".to_string()));
    // The others are untouched.
    assert_eq!(tracks[2].track_cover_path, Some("c.jpg".to_string()));
    assert_eq!(tracks[3].track_cover_path, Some("d.jpg".to_string()));

    // The duplicate file is gone; the canonical file survives.
    assert_eq!(dir.files.len(), 3);
    assert!(dir.files.iter().all(|f| f.name != "b.jpg"));
    assert!(dir.files.iter().any(|f| f.name == "a.jpg"));
}

#[test]
fn merge_converges_after_one_run() {
    let dup = vec![9u8; 1500];
    let mut tracks = vec![
        track_with_cover(1, "A", "x.jpg"),
        track_with_cover(2, "A", "y.jpg"),
    ];
    let mut dir = CoverDir { files: Vec::new() };
    dir.files.push(file("x.jpg", &dup));
    dir.files.push(file("y.jpg", &dup));

    let (first, _) = merge_duplicate_covers(&mut tracks, &mut dir, 1);
    assert_eq!(first.covers_merged, 1);

    // A second run finds a single surviving file and changes nothing.
    let (second, _) = merge_duplicate_covers(&mut tracks, &mut dir, 1);
    assert_eq!(second.covers_merged, 0);
    assert_eq!(second.space_saved_bytes, 0);
    assert_eq!(dir.files.len(), 1);
    assert_eq!(tracks[0].track_cover_path, Some("x.jpg".to_string()));
    assert_eq!(tracks[1].track_cover_path, Some("x.jpg".to_string()));
}

#[test]
fn canonical_selection_ignores_order() {
    // The same set of paths, in different orders, elects the same path.
    let g1 = vec![
        ("b.jpg".to_string(), 10u64),
        ("a.jpg".to_string(), 10u64),
        ("c.jpg".to_string(), 10u64),
    ];
    let g2 = vec![
        ("c.jpg".to_string(), 10u64),
        ("b.jpg".to_string(), 10u64),
        ("a.jpg".to_string(), 10u64),
    ];
    let c1 = select_canonical(&g1);
    let c2 = select_canonical(&g2);
    assert_eq!(g1[c1].0, "a.jpg");
    assert_eq!(g2[c2].0, "a.jpg");
}

#[test]
fn equal_size_different_bytes_are_not_merged() {
    // Same size bucket, different content: hashed, but no duplicate set.
    let mut tracks = vec![
        track_with_cover(1, "A", "p.jpg"),
        track_with_cover(2, "A", "q.jpg"),
    ];
    let mut dir = CoverDir { files: Vec::new() };
    dir.files.push(file("p.jpg", &vec![1u8; 1000]));
    dir.files.push(file("q.jpg", &vec![2u8; 1000]));

    let (result, events) = merge_duplicate_covers(&mut tracks, &mut dir, 1);
    assert_eq!(result.covers_merged, 0);
    assert_eq!(result.space_saved_bytes, 0);
    assert_eq!(events.len(), 0);
    assert_eq!(dir.files.len(), 2);
}
