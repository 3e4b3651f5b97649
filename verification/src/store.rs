//! The relational store, modelled as plain rows.
//!
//! The pipeline is the sole writer of the store for the duration of a run;
//! everything it does to rows is expressed here as operations on vectors
//! of rows keyed by their ids, which the surrounding shell mirrors one to
//! one onto the real database.

use vstd::prelude::*;
use vstd::pervasive::VecAdditionalExecFns;

verus! {

/// A track row.  `track_cover` is an embedded base64 blob; `track_cover_path`
/// the path of its migrated cover file, when one has been written.
pub struct Track {
    pub id: i64,
    pub path: String,
    pub title: Option<String>,
    pub artist: Option<String>,
    pub album: Option<String>,
    pub track_number: Option<i32>,
    pub duration: Option<i32>,
    pub album_id: Option<i64>,
    pub format: Option<String>,
    pub bitrate: Option<i32>,
    pub source_type: Option<String>,
    pub cover_url: Option<String>,
    pub external_id: Option<String>,
    pub local_src: Option<String>,
    pub track_cover: Option<String>,
    pub track_cover_path: Option<String>,
}

/// An album row.  `art_data` is an embedded base64 blob; `art_path` the
/// path of its migrated art file, when one has been written.
pub struct Album {
    pub id: i64,
    pub name: String,
    pub artist: Option<String>,
    pub art_data: Option<String>,
    pub art_path: Option<String>,
}

/// An artist as the library lists it.
pub struct Artist {
    pub name: String,
    pub track_count: i32,
    pub album_count: i32,
}

/// A playlist row.
pub struct Playlist {
    pub id: i64,
    pub name: String,
    pub cover_url: Option<String>,
    pub created_at: Option<String>,
}

/// The fields written when a scanned file is inserted as a track.
pub struct TrackInsert {
    pub path: String,
    pub title: Option<String>,
    pub artist: Option<String>,
    pub album: Option<String>,
    pub track_number: Option<i32>,
    pub duration: Option<i32>,
    pub album_art: Option<Vec<u8>>,
    pub track_cover: Option<Vec<u8>>,
    pub format: Option<String>,
    pub bitrate: Option<i32>,
    pub source_type: Option<String>,
    pub cover_url: Option<String>,
    pub external_id: Option<String>,
    pub content_hash: Option<String>,
    pub local_src: Option<String>,
}

/// The two tables the pipeline writes.
pub struct Store {
    pub tracks: Vec<Track>,
    pub albums: Vec<Album>,
}

/// Ids are unique within a table, as the database's primary key makes them.
pub open spec fn distinct_track_ids(ts: Seq<Track>) -> bool {
    forall|i: int, j: int| 0 <= i < j < ts.len() ==> ts[i].id != ts[j].id
}

/// Ids are unique within a table, as the database's primary key makes them.
pub open spec fn distinct_album_ids(als: Seq<Album>) -> bool {
    forall|i: int, j: int| 0 <= i < j < als.len() ==> als[i].id != als[j].id
}

/// The row as it looks after its cover path column is set.
pub open spec fn track_with_cover_path(t: Track, p: Option<String>) -> Track {
    Track { track_cover_path: p, ..t }
}

/// The row as it looks after its art path column is set.
pub open spec fn album_with_art_path(a: Album, p: Option<String>) -> Album {
    Album { art_path: p, ..a }
}

impl Store {
    /// Both tables have unique ids.
    pub open spec fn wf(&self) -> bool {
        distinct_track_ids(self.tracks@) && distinct_album_ids(self.albums@)
    }
}

/// The index of the track row with the given id, if one exists.
pub fn find_track_index(tracks: &Vec<Track>, id: i64) -> (r: Option<usize>)
    ensures
        match r {
            Some(i) => i < tracks@.len() && tracks@[i as int].id == id,
            None => forall|i: int| 0 <= i < tracks@.len() ==> tracks@[i].id != id,
        },
{
    let mut i: usize = 0;
    while i < tracks.len()
        invariant
            i <= tracks@.len(),
            forall|j: int| 0 <= j < i ==> tracks@[j].id != id,
        decreases tracks@.len() - i,
    {
        if tracks[i].id == id {
            return Some(i);
        }
        i = i + 1;
    }
    None
}

/// The index of the album row with the given id, if one exists.
pub fn find_album_index(albums: &Vec<Album>, id: i64) -> (r: Option<usize>)
    ensures
        match r {
            Some(i) => i < albums@.len() && albums@[i as int].id == id,
            None => forall|i: int| 0 <= i < albums@.len() ==> albums@[i].id != id,
        },
{
    let mut i: usize = 0;
    while i < albums.len()
        invariant
            i <= albums@.len(),
            forall|j: int| 0 <= j < i ==> albums@[j].id != id,
        decreases albums@.len() - i,
    {
        if albums[i].id == id {
            return Some(i);
        }
        i = i + 1;
    }
    None
}

pub(crate) fn placeholder_track() -> Track {
    Track {
        id: 0,
        path: String::new(),
        title: None,
        artist: None,
        album: None,
        track_number: None,
        duration: None,
        album_id: None,
        format: None,
        bitrate: None,
        source_type: None,
        cover_url: None,
        external_id: None,
        local_src: None,
        track_cover: None,
        track_cover_path: None,
    }
}

pub(crate) fn placeholder_album() -> Album {
    Album { id: 0, name: String::new(), artist: None, art_data: None, art_path: None }
}

/// Set the cover path column of the track row with the given id.  Returns
/// whether a row was updated; with no such row the table is unchanged.
pub fn update_track_cover_path(tracks: &mut Vec<Track>, track_id: i64, path: Option<String>) -> (r:
    bool)
    ensures
        r ==> exists|i: int|
            0 <= i < old(tracks)@.len() && old(tracks)@[i].id == track_id && final(tracks)@ == old(
                tracks,
            )@.update(i, track_with_cover_path(old(tracks)@[i], path)),
        !r ==> final(tracks)@ == old(tracks)@ && (forall|i: int|
            0 <= i < old(tracks)@.len() ==> old(tracks)@[i].id != track_id),
{
    match find_track_index(tracks, track_id) {
        Some(i) => {
            let mut row = placeholder_track();
            tracks.set_and_swap(i, &mut row);
            row.track_cover_path = path;
            tracks.set_and_swap(i, &mut row);
            proof {
                assert(final(tracks)@ =~= old(tracks)@.update(
                    i as int,
                    track_with_cover_path(old(tracks)@[i as int], path),
                ));
            }
            true
        },
        None => false,
    }
}

/// Set the art path column of the album row with the given id.  Returns
/// whether a row was updated; with no such row the table is unchanged.
pub fn update_album_art_path(albums: &mut Vec<Album>, album_id: i64, path: Option<String>) -> (r:
    bool)
    ensures
        r ==> exists|i: int|
            0 <= i < old(albums)@.len() && old(albums)@[i].id == album_id && final(albums)@ == old(
                albums,
            )@.update(i, album_with_art_path(old(albums)@[i], path)),
        !r ==> final(albums)@ == old(albums)@ && (forall|i: int|
            0 <= i < old(albums)@.len() ==> old(albums)@[i].id != album_id),
{
    match find_album_index(albums, album_id) {
        Some(i) => {
            let mut row = placeholder_album();
            albums.set_and_swap(i, &mut row);
            row.art_path = path;
            albums.set_and_swap(i, &mut row);
            proof {
                assert(final(albums)@ =~= old(albums)@.update(
                    i as int,
                    album_with_art_path(old(albums)@[i as int], path),
                ));
            }
            true
        },
        None => false,
    }
}

/// A track row whose blob can be dropped: the cover has been migrated to a
/// file, so the embedded copy is redundant.
pub open spec fn track_blob_clearable(t: Track) -> bool {
    t.track_cover is Some && t.track_cover_path is Some
}

/// An album row whose blob can be dropped.
pub open spec fn album_blob_clearable(a: Album) -> bool {
    a.art_data is Some && a.art_path is Some
}

/// The track row after clearing, where clearing applies.
pub open spec fn track_cleared(t: Track) -> Track {
    if track_blob_clearable(t) {
        Track { track_cover: None, ..t }
    } else {
        t
    }
}

/// The album row after clearing, where clearing applies.
pub open spec fn album_cleared(a: Album) -> Album {
    if album_blob_clearable(a) {
        Album { art_data: None, ..a }
    } else {
        a
    }
}

/// How many track rows clearing affects.
pub open spec fn spec_track_clear_count(ts: Seq<Track>) -> nat
    decreases ts.len(),
{
    if ts.len() == 0 {
        0
    } else {
        spec_track_clear_count(ts.drop_last()) + (if track_blob_clearable(ts.last()) {
            1nat
        } else {
            0nat
        })
    }
}

/// How many album rows clearing affects.
pub open spec fn spec_album_clear_count(als: Seq<Album>) -> nat
    decreases als.len(),
{
    if als.len() == 0 {
        0
    } else {
        spec_album_clear_count(als.drop_last()) + (if album_blob_clearable(als.last()) {
            1nat
        } else {
            0nat
        })
    }
}

/// Drop every embedded blob whose cover has already been migrated to a
/// file, and report how many rows were cleared.
pub fn clear_base64_covers(store: &mut Store) -> (r: usize)
    requires
        old(store).tracks@.len() + old(store).albums@.len() <= usize::MAX,
    ensures
        final(store).tracks@.len() == old(store).tracks@.len(),
        final(store).albums@.len() == old(store).albums@.len(),
        forall|i: int|
            0 <= i < old(store).tracks@.len() ==> final(store).tracks@[i] == track_cleared(
                #[trigger] old(store).tracks@[i],
            ),
        forall|i: int|
            0 <= i < old(store).albums@.len() ==> final(store).albums@[i] == album_cleared(
                #[trigger] old(store).albums@[i],
            ),
        r as nat == spec_track_clear_count(old(store).tracks@) + spec_album_clear_count(
            old(store).albums@,
        ),
{
    let mut cleared: usize = 0;
    let mut i: usize = 0;
    proof {
        assert(old(store).tracks@.take(0) =~= Seq::<Track>::empty());
    }
    while i < store.tracks.len()
        invariant
            i <= store.tracks@.len(),
            store.tracks@.len() == old(store).tracks@.len(),
            store.albums@ == old(store).albums@,
            cleared <= i,
            cleared as nat == spec_track_clear_count(old(store).tracks@.take(i as int)),
            forall|j: int|
                0 <= j < i ==> store.tracks@[j] == track_cleared(#[trigger] old(store).tracks@[j]),
            forall|j: int| i <= j < store.tracks@.len() ==> store.tracks@[j] == old(
                store,
            ).tracks@[j],
        decreases store.tracks@.len() - i,
    {
        proof {
            assert(old(store).tracks@.take(i + 1).drop_last() =~= old(store).tracks@.take(
                i as int,
            ));
            assert(old(store).tracks@.take(i + 1).last() == old(store).tracks@[i as int]);
        }
        let clearable = store.tracks[i].track_cover.is_some() && store.tracks[
            i
        ].track_cover_path.is_some();
        if clearable {
            let mut row = placeholder_track();
            store.tracks.set_and_swap(i, &mut row);
            row.track_cover = None;
            store.tracks.set_and_swap(i, &mut row);
            cleared = cleared + 1;
        }
        i = i + 1;
    }
    proof {
        assert(old(store).tracks@.take(old(store).tracks@.len() as int) =~= old(store).tracks@);
        assert(old(store).albums@.take(0) =~= Seq::<Album>::empty());
    }
    let mut k: usize = 0;
    while k < store.albums.len()
        invariant
            k <= store.albums@.len(),
            store.albums@.len() == old(store).albums@.len(),
            store.tracks@.len() == old(store).tracks@.len(),
            store.tracks@.len() + store.albums@.len() <= usize::MAX,
            cleared <= store.tracks@.len() + k,
            cleared as nat == spec_track_clear_count(old(store).tracks@) + spec_album_clear_count(
                old(store).albums@.take(k as int),
            ),
            forall|j: int|
                0 <= j < store.tracks@.len() ==> store.tracks@[j] == track_cleared(
                    #[trigger] old(store).tracks@[j],
                ),
            forall|j: int|
                0 <= j < k ==> store.albums@[j] == album_cleared(#[trigger] old(store).albums@[j]),
            forall|j: int| k <= j < store.albums@.len() ==> store.albums@[j] == old(
                store,
            ).albums@[j],
        decreases store.albums@.len() - k,
    {
        proof {
            assert(old(store).albums@.take(k + 1).drop_last() =~= old(store).albums@.take(
                k as int,
            ));
            assert(old(store).albums@.take(k + 1).last() == old(store).albums@[k as int]);
        }
        let clearable = store.albums[k].art_data.is_some() && store.albums[k].art_path.is_some();
        if clearable {
            let mut row = placeholder_album();
            store.albums.set_and_swap(k, &mut row);
            row.art_data = None;
            store.albums.set_and_swap(k, &mut row);
            cleared = cleared + 1;
        }
        k = k + 1;
    }
    proof {
        assert(old(store).albums@.take(old(store).albums@.len() as int) =~= old(store).albums@);
    }
    cleared
}


/// One string is a plain prefix of another, as the store's pattern match
/// on a folder path is.
pub open spec fn spec_str_prefix(s: Seq<char>, prefix: Seq<char>) -> bool {
    prefix.len() <= s.len() && s.take(prefix.len() as int) == prefix
}

fn str_has_prefix(s: &String, prefix: &String) -> (r: bool)
    ensures
        r == spec_str_prefix(s@, prefix@),
{
    let sc = crate::strings::str_chars(s.as_str());
    let pc = crate::strings::str_chars(prefix.as_str());
    if pc.len() > sc.len() {
        return false;
    }
    let mut i: usize = 0;
    while i < pc.len()
        invariant
            i <= pc@.len() <= sc@.len(),
            sc@ == s@,
            pc@ == prefix@,
            forall|j: int| 0 <= j < i ==> s@[j] == prefix@[j],
        decreases pc@.len() - i,
    {
        if sc[i] != pc[i] {
            proof {
                assert(s@.take(prefix@.len() as int)[i as int] != prefix@[i as int]);
            }
            return false;
        }
        i = i + 1;
    }
    proof {
        assert(s@.take(prefix@.len() as int) =~= prefix@);
    }
    true
}

/// A track row the rescan cleanup removes: its path lies under one of the
/// scanned folders, and its file is no longer among the paths present on
/// disk.
pub open spec fn spec_track_deleted_from_disk(
    t: Track,
    folders: Seq<String>,
    existing: Seq<String>,
) -> bool {
    &&& exists|i: int|
        0 <= i < folders.len() && spec_str_prefix(t.path@, (#[trigger] folders[i])@)
    &&& !exists|i: int| 0 <= i < existing.len() && (#[trigger] existing[i])@ == t.path@
}

fn track_deleted_from_disk(t: &Track, folders: &Vec<String>, existing: &Vec<String>) -> (r: bool)
    ensures
        r == spec_track_deleted_from_disk(*t, folders@, existing@),
{
    let mut under: bool = false;
    let mut i: usize = 0;
    while i < folders.len()
        invariant
            i <= folders@.len(),
            under ==> exists|j: int|
                0 <= j < folders@.len() && spec_str_prefix(t.path@, (#[trigger] folders@[j])@),
            !under ==> forall|j: int|
                0 <= j < i ==> !spec_str_prefix(t.path@, (#[trigger] folders@[j])@),
        decreases folders@.len() - i,
    {
        if !under && str_has_prefix(&t.path, &folders[i]) {
            proof {
                assert(spec_str_prefix(t.path@, (folders@[i as int])@));
            }
            under = true;
        }
        i = i + 1;
    }
    if !under {
        return false;
    }
    let mut k: usize = 0;
    while k < existing.len()
        invariant
            k <= existing@.len(),
            forall|j: int| 0 <= j < k ==> (#[trigger] existing@[j])@ != t.path@,
        decreases existing@.len() - k,
    {
        if existing[k] == t.path {
            return false;
        }
        k = k + 1;
    }
    true
}

/// The rows the cleanup keeps: the input, in order, without the rows
/// whose files have disappeared from the scanned folders.
pub open spec fn spec_surviving_tracks(
    ts: Seq<Track>,
    folders: Seq<String>,
    existing: Seq<String>,
) -> Seq<Track>
    decreases ts.len(),
{
    if ts.len() == 0 {
        Seq::empty()
    } else {
        spec_surviving_tracks(ts.drop_last(), folders, existing) + (
        if spec_track_deleted_from_disk(ts.last(), folders, existing) {
            Seq::empty()
        } else {
            seq![ts.last()]
        })
    }
}

/// Remove every track whose path lies under one of the scanned folders
/// but whose file has disappeared from disk; `existing` lists the paths
/// still present.  The survivors keep their order.  Returns how many rows
/// were removed.
pub fn cleanup_deleted_tracks(
    tracks: &mut Vec<Track>,
    folder_paths: &Vec<String>,
    existing: &Vec<String>,
) -> (r: usize)
    ensures
        final(tracks)@ == spec_surviving_tracks(old(tracks)@, folder_paths@, existing@),
        final(tracks)@.len() + r == old(tracks)@.len(),
{
    let ghost orig = old(tracks)@;
    let mut rows: Vec<Track> = Vec::new();
    core::mem::swap(&mut rows, tracks);
    let n_rows = rows.len();
    let mut kept: Vec<Track> = Vec::new();
    let mut deleted: usize = 0;
    let ghost mut done: int = 0;
    proof {
        assert(n_rows as int == orig.len());
        assert(rows@ =~= orig.skip(0));
    }
    proof {
        assert(orig.take(0) =~= Seq::<Track>::empty());
        assert(kept@ =~= spec_surviving_tracks(orig.take(0), folder_paths@, existing@));
    }
    while rows.len() > 0
        invariant
            0 <= done <= orig.len(),
            orig.len() <= usize::MAX,
            rows@ == orig.skip(done),
            kept@.len() + deleted == done,
            kept@ == spec_surviving_tracks(orig.take(done), folder_paths@, existing@),
        decreases rows@.len(),
    {
        let t = rows.remove(0);
        proof {
            assert(t == orig[done]);
            assert(rows@ =~= orig.skip(done + 1));
            assert(orig.take(done + 1).drop_last() =~= orig.take(done));
            assert(orig.take(done + 1).last() == orig[done]);
        }
        if track_deleted_from_disk(&t, folder_paths, existing) {
            deleted = deleted + 1;
            proof {
                assert(kept@ =~= spec_surviving_tracks(
                    orig.take(done + 1),
                    folder_paths@,
                    existing@,
                ));
            }
        } else {
            kept.push(t);
            proof {
                assert(kept@ =~= spec_surviving_tracks(
                    orig.take(done + 1),
                    folder_paths@,
                    existing@,
                ));
            }
        }
        proof {
            done = done + 1;
        }
    }
    proof {
        assert(orig.skip(done).len() == 0);
        assert(orig.take(done) =~= orig);
    }
    *tracks = kept;
    deleted
}

/// Whether some track row references the album id.
pub open spec fn spec_album_referenced(ts: Seq<Track>, album_id: i64) -> bool {
    exists|j: int|
        0 <= j < ts.len() && (#[trigger] ts[j]).album_id is Some && ts[j].album_id->0 == album_id
}

fn album_referenced(tracks: &Vec<Track>, album_id: i64) -> (r: bool)
    ensures
        r == spec_album_referenced(tracks@, album_id),
{
    let mut j: usize = 0;
    while j < tracks.len()
        invariant
            j <= tracks@.len(),
            forall|m: int|
                0 <= m < j ==> !((#[trigger] tracks@[m]).album_id is Some && tracks@[
                    m
                ].album_id->0 == album_id),
        decreases tracks@.len() - j,
    {
        match tracks[j].album_id {
            Some(id) => {
                if id == album_id {
                    return true;
                }
            },
            None => {
            },
        }
        j = j + 1;
    }
    false
}

/// The albums the cleanup keeps: the input, in order, without the rows no
/// track references.
pub open spec fn spec_surviving_albums(als: Seq<Album>, ts: Seq<Track>) -> Seq<Album>
    decreases als.len(),
{
    if als.len() == 0 {
        Seq::empty()
    } else {
        spec_surviving_albums(als.drop_last(), ts) + (if spec_album_referenced(ts, als.last().id) {
            seq![als.last()]
        } else {
            Seq::empty()
        })
    }
}

/// Remove every album no track references any more; the survivors keep
/// their order.  Returns how many rows were removed.
pub fn cleanup_empty_albums(store: &mut Store) -> (r: usize)
    ensures
        final(store).tracks@ == old(store).tracks@,
        final(store).albums@ == spec_surviving_albums(old(store).albums@, old(store).tracks@),
        final(store).albums@.len() + r == old(store).albums@.len(),
{
    let ghost orig = old(store).albums@;
    let mut rows: Vec<Album> = Vec::new();
    core::mem::swap(&mut rows, &mut store.albums);
    let n_rows = rows.len();
    let mut kept: Vec<Album> = Vec::new();
    let mut deleted: usize = 0;
    let ghost mut done: int = 0;
    proof {
        assert(n_rows as int == orig.len());
        assert(rows@ =~= orig.skip(0));
    }
    proof {
        assert(orig.take(0) =~= Seq::<Album>::empty());
        assert(kept@ =~= spec_surviving_albums(orig.take(0), old(store).tracks@));
    }
    while rows.len() > 0
        invariant
            0 <= done <= orig.len(),
            orig.len() <= usize::MAX,
            store.tracks@ == old(store).tracks@,
            rows@ == orig.skip(done),
            kept@.len() + deleted == done,
            kept@ == spec_surviving_albums(orig.take(done), old(store).tracks@),
        decreases rows@.len(),
    {
        let a = rows.remove(0);
        proof {
            assert(a == orig[done]);
            assert(rows@ =~= orig.skip(done + 1));
            assert(orig.take(done + 1).drop_last() =~= orig.take(done));
            assert(orig.take(done + 1).last() == orig[done]);
        }
        if album_referenced(&store.tracks, a.id) {
            kept.push(a);
            proof {
                assert(kept@ =~= spec_surviving_albums(orig.take(done + 1), old(store).tracks@));
            }
        } else {
            deleted = deleted + 1;
            proof {
                assert(kept@ =~= spec_surviving_albums(orig.take(done + 1), old(store).tracks@));
            }
        }
        proof {
            done = done + 1;
        }
    }
    proof {
        assert(orig.skip(done).len() == 0);
        assert(orig.take(done) =~= orig);
    }
    store.albums = kept;
    deleted
}


fn clone_opt_string(x: &Option<String>) -> (r: Option<String>)
    ensures
        r == *x,
{
    match x {
        Some(v) => Some(v.clone()),
        None => None,
    }
}

/// The index of the first album row with that name, if one exists.
pub fn find_album_by_name(albums: &Vec<Album>, name: &String) -> (r: Option<usize>)
    ensures
        match r {
            Some(i) => i < albums@.len() && albums@[i as int].name@ == name@ && (forall|j: int|
                0 <= j < i ==> (#[trigger] albums@[j]).name@ != name@),
            None => forall|j: int|
                0 <= j < albums@.len() ==> (#[trigger] albums@[j]).name@ != name@,
        },
{
    let mut i: usize = 0;
    while i < albums.len()
        invariant
            i <= albums@.len(),
            forall|j: int| 0 <= j < i ==> (#[trigger] albums@[j]).name@ != name@,
        decreases albums@.len() - i,
    {
        if albums[i].name == *name {
            return Some(i);
        }
        i = i + 1;
    }
    None
}

/// The index of the first track row with that path, if one exists.
pub fn find_track_by_path(tracks: &Vec<Track>, path: &String) -> (r: Option<usize>)
    ensures
        match r {
            Some(i) => i < tracks@.len() && tracks@[i as int].path@ == path@ && (forall|j: int|
                0 <= j < i ==> (#[trigger] tracks@[j]).path@ != path@),
            None => forall|j: int|
                0 <= j < tracks@.len() ==> (#[trigger] tracks@[j]).path@ != path@,
        },
{
    let mut i: usize = 0;
    while i < tracks.len()
        invariant
            i <= tracks@.len(),
            forall|j: int| 0 <= j < i ==> (#[trigger] tracks@[j]).path@ != path@,
        decreases tracks@.len() - i,
    {
        if tracks[i].path == *path {
            return Some(i);
        }
        i = i + 1;
    }
    None
}

/// The album row after the upsert touches it: a missing artist is filled
/// in from the track's tag; nothing else changes.
pub open spec fn spec_album_upserted(a: Album, artist: Option<String>) -> Album {
    if a.artist is None && artist is Some {
        Album { artist, ..a }
    } else {
        a
    }
}

/// The album id the upsert will link the track to: the first album row of
/// that name, or the freshly created one.
pub open spec fn spec_album_id_for(
    als: Seq<Album>,
    album: Option<String>,
    fresh_album_id: i64,
) -> Option<i64> {
    match album {
        None => None,
        Some(name) => {
            if exists|i: int| 0 <= i < als.len() && (#[trigger] als[i]).name@ == name@ {
                let i = choose|i: int|
                    0 <= i < als.len() && (#[trigger] als[i]).name@ == name@ && (forall|j: int|
                        0 <= j < i ==> (#[trigger] als[j]).name@ != name@);
                Some(als[i].id)
            } else {
                Some(fresh_album_id)
            }
        },
    }
}

/// Find the album row by name, or create it; a found row gains the
/// artist when it had none.  Returns the album's id.
pub fn get_or_create_album(
    albums: &mut Vec<Album>,
    name: &String,
    artist: &Option<String>,
    fresh_album_id: i64,
) -> (r: i64)
    requires
        distinct_album_ids(old(albums)@),
        forall|i: int| 0 <= i < old(albums)@.len() ==> (#[trigger] old(albums)@[i]).id
            != fresh_album_id,
    ensures
        distinct_album_ids(final(albums)@),
        r == spec_album_id_for(old(albums)@, Some(*name), fresh_album_id)->0,
        if exists|i: int|
            0 <= i < old(albums)@.len() && (#[trigger] old(albums)@[i]).name@ == name@ {
            exists|i: int|
                0 <= i < old(albums)@.len() && (#[trigger] old(albums)@[i]).name@ == name@ && (
                forall|j: int| 0 <= j < i ==> (#[trigger] old(albums)@[j]).name@ != name@)
                    && final(albums)@ == old(albums)@.update(
                    i,
                    spec_album_upserted(old(albums)@[i], *artist),
                ) && r == old(albums)@[i].id
        } else {
            &&& final(albums)@.len() == old(albums)@.len() + 1
            &&& (forall|j: int|
                0 <= j < old(albums)@.len() ==> final(albums)@[j] == old(albums)@[j])
            &&& final(albums)@.last().id == fresh_album_id
            &&& final(albums)@.last().name@ == name@
            &&& final(albums)@.last().artist == *artist
            &&& final(albums)@.last().art_data is None
            &&& final(albums)@.last().art_path is None
            &&& r == fresh_album_id
        },
{
    match find_album_by_name(albums, name) {
        Some(i) => {
            let id = albums[i].id;
            let fill = albums[i].artist.is_none() && artist.is_some();
            if fill {
                let mut row = placeholder_album();
                albums.set_and_swap(i, &mut row);
                row.artist = clone_opt_string(artist);
                albums.set_and_swap(i, &mut row);
                proof {
                    assert(final(albums)@ =~= old(albums)@.update(
                        i as int,
                        spec_album_upserted(old(albums)@[i as int], *artist),
                    ));
                }
            } else {
                proof {
                    assert(final(albums)@ =~= old(albums)@.update(
                        i as int,
                        spec_album_upserted(old(albums)@[i as int], *artist),
                    ));
                }
            }
            id
        },
        None => {
            albums.push(
                Album {
                    id: fresh_album_id,
                    name: name.clone(),
                    artist: clone_opt_string(artist),
                    art_data: None,
                    art_path: None,
                },
            );
            fresh_album_id
        },
    }
}

/// The track row the upsert appends for a scanned file: the insert's
/// fields, the fresh id, and no stored cover yet.
pub open spec fn spec_inserted_track(row: TrackInsert, id: i64, album_id: Option<i64>) -> Track {
    Track {
        id,
        path: row.path,
        title: row.title,
        artist: row.artist,
        album: row.album,
        track_number: row.track_number,
        duration: row.duration,
        album_id,
        format: row.format,
        bitrate: row.bitrate,
        source_type: row.source_type,
        cover_url: row.cover_url,
        external_id: row.external_id,
        local_src: row.local_src,
        track_cover: None,
        track_cover_path: None,
    }
}

/// The track row after the upsert rewrites it: the insert's fields over
/// the old row, keeping its id, path and stored cover columns.
pub open spec fn spec_updated_track(t: Track, row: TrackInsert, album_id: Option<i64>) -> Track {
    Track {
        title: row.title,
        artist: row.artist,
        album: row.album,
        track_number: row.track_number,
        duration: row.duration,
        album_id,
        format: row.format,
        bitrate: row.bitrate,
        source_type: row.source_type,
        cover_url: row.cover_url,
        external_id: row.external_id,
        local_src: row.local_src,
        ..t
    }
}

/// Upsert one scanned row, the writer stage of the library scan: find the
/// track by path and rewrite its fields, or append it under the fresh id;
/// the album row is found by name or created under the fresh album id,
/// and the track is linked to it.  Returns the row's id and whether it
/// was newly inserted.
pub fn insert_or_update_track(
    store: &mut Store,
    row: &TrackInsert,
    fresh_track_id: i64,
    fresh_album_id: i64,
) -> (r: (i64, bool))
    requires
        old(store).wf(),
        forall|i: int| 0 <= i < old(store).tracks@.len() ==> (#[trigger] old(store).tracks@[i]).id
            != fresh_track_id,
        forall|i: int| 0 <= i < old(store).albums@.len() ==> (#[trigger] old(store).albums@[i]).id
            != fresh_album_id,
    ensures
        final(store).wf(),
        ({
            let aid = spec_album_id_for(old(store).albums@, row.album, fresh_album_id);
            &&& (match row.album {
                None => final(store).albums@ == old(store).albums@,
                Some(name) => {
                    if exists|i: int|
                        0 <= i < old(store).albums@.len() && (#[trigger] old(
                            store,
                        ).albums@[i]).name@ == name@ {
                        exists|i: int|
                            0 <= i < old(store).albums@.len() && (#[trigger] old(
                                store,
                            ).albums@[i]).name@ == name@ && (forall|j: int|
                                0 <= j < i ==> (#[trigger] old(store).albums@[j]).name@ != name@)
                                && final(store).albums@ == old(store).albums@.update(
                                i,
                                spec_album_upserted(old(store).albums@[i], row.artist),
                            )
                    } else {
                        &&& final(store).albums@.len() == old(store).albums@.len() + 1
                        &&& (forall|j: int|
                            0 <= j < old(store).albums@.len() ==> final(store).albums@[j] == old(
                                store,
                            ).albums@[j])
                        &&& final(store).albums@.last().id == fresh_album_id
                        &&& final(store).albums@.last().name@ == name@
                        &&& final(store).albums@.last().artist == row.artist
                    }
                },
            })
            &&& (if exists|i: int|
                0 <= i < old(store).tracks@.len() && (#[trigger] old(store).tracks@[i]).path@
                    == row.path@ {
                exists|i: int|
                    0 <= i < old(store).tracks@.len() && (#[trigger] old(store).tracks@[i]).path@
                        == row.path@ && (forall|j: int|
                        0 <= j < i ==> (#[trigger] old(store).tracks@[j]).path@ != row.path@)
                        && final(store).tracks@ == old(store).tracks@.update(
                        i,
                        spec_updated_track(old(store).tracks@[i], *row, aid),
                    ) && r == (old(store).tracks@[i].id, false)
            } else {
                &&& final(store).tracks@ == old(store).tracks@.push(
                    spec_inserted_track(*row, fresh_track_id, aid),
                )
                &&& r == (fresh_track_id, true)
            })
        }),
{
    let album_id: Option<i64> = match &row.album {
        Some(name) => Some(get_or_create_album(&mut store.albums, name, &row.artist, fresh_album_id)),
        None => None,
    };
    proof {
        assert(album_id == spec_album_id_for(old(store).albums@, row.album, fresh_album_id));
    }
    match find_track_by_path(&store.tracks, &row.path) {
        Some(i) => {
            let id = store.tracks[i].id;
            let mut t = placeholder_track();
            store.tracks.set_and_swap(i, &mut t);
            t.title = clone_opt_string(&row.title);
            t.artist = clone_opt_string(&row.artist);
            t.album = clone_opt_string(&row.album);
            t.track_number = row.track_number;
            t.duration = row.duration;
            t.album_id = album_id;
            t.format = clone_opt_string(&row.format);
            t.bitrate = row.bitrate;
            t.source_type = clone_opt_string(&row.source_type);
            t.cover_url = clone_opt_string(&row.cover_url);
            t.external_id = clone_opt_string(&row.external_id);
            t.local_src = clone_opt_string(&row.local_src);
            store.tracks.set_and_swap(i, &mut t);
            proof {
                assert(final(store).tracks@ =~= old(store).tracks@.update(
                    i as int,
                    spec_updated_track(
                        old(store).tracks@[i as int],
                        *row,
                        spec_album_id_for(old(store).albums@, row.album, fresh_album_id),
                    ),
                ));
            }
            (id, false)
        },
        None => {
            store.tracks.push(
                Track {
                    id: fresh_track_id,
                    path: row.path.clone(),
                    title: clone_opt_string(&row.title),
                    artist: clone_opt_string(&row.artist),
                    album: clone_opt_string(&row.album),
                    track_number: row.track_number,
                    duration: row.duration,
                    album_id,
                    format: clone_opt_string(&row.format),
                    bitrate: row.bitrate,
                    source_type: clone_opt_string(&row.source_type),
                    cover_url: clone_opt_string(&row.cover_url),
                    external_id: clone_opt_string(&row.external_id),
                    local_src: clone_opt_string(&row.local_src),
                    track_cover: None,
                    track_cover_path: None,
                },
            );
            proof {
                assert(final(store).tracks@ =~= old(store).tracks@.push(
                    spec_inserted_track(
                        *row,
                        fresh_track_id,
                        spec_album_id_for(old(store).albums@, row.album, fresh_album_id),
                    ),
                ));
            }
            (fresh_track_id, true)
        },
    }
}

} // verus!
