//! The cover migration pipeline: enumerate rows whose blob column is set
//! and whose path column is not, decode and sniff each blob, write the
//! cover to its deterministic file, and commit the new paths in adaptive
//! batches, emitting a progress snapshot after each batch.
//!
//! The library runs the pipeline under one deterministic schedule of its
//! concurrent shape: producers are eager (the channel is refilled to
//! capacity before each batch), the assembler drains one adaptive batch at
//! a time, and the clock advances a fixed number of milliseconds per
//! committed item.

use vstd::prelude::*;
use crate::batch::{calculate_batch_size, spec_eta_millis, eta_millis};
use crate::channel::BoundedQueue;
use crate::files::{CoverDir, spec_cover_name, spec_has_file, cover_file_name};
use crate::image::{ImageFormat, spec_format_of};
use crate::outside::{base64_decode, base64_decoded};
use crate::store::{
    Album, Store, Track, album_with_art_path, distinct_album_ids, distinct_track_ids,
    track_with_cover_path, update_album_art_path, update_track_cover_path,
};

verus! {

/// Which table a work item or result belongs to.
#[derive(Clone, Copy, Debug, PartialEq, Eq, Structural)]
pub enum ItemKind {
    Track,
    Album,
}

/// One row to migrate: its table, its id, and its base64 blob.
pub enum MigrationWorkItem {
    Track(i64, String),
    Album(i64, String),
}

/// A transformed item: the row it came from and the file its cover was
/// written to.
pub struct MigrationResult {
    pub id: i64,
    pub path: String,
    pub kind: ItemKind,
}

/// One migrated row as reported to the observer.
pub struct MigrationItem {
    pub id: i64,
    pub kind: ItemKind,
    pub path: String,
}

/// The progress snapshot broadcast after each committed batch.
pub struct MigrationProgressUpdate {
    pub current: usize,
    pub total: usize,
    pub current_batch: usize,
    pub batch_size: usize,
    pub estimated_time_remaining_ms: u64,
    pub tracks_migrated: usize,
    pub albums_migrated: usize,
}

/// One committed batch as reported to the observer.
pub struct MigrationBatchEvent {
    pub items: Vec<MigrationItem>,
    pub progress: MigrationProgressUpdate,
}

/// The terminal summary of a migration run.
pub struct MigrationProgress {
    pub total: usize,
    pub processed: usize,
    pub tracks_migrated: usize,
    pub albums_migrated: usize,
    pub errors: Vec<MigrationError>,
}

/// What can go wrong during a run.  An item error is a blob that failed to
/// decode or sniff; a row update error is a batch entry whose row was not
/// found; a transaction error discards one whole batch; a fatal error
/// aborts the run before it starts.
#[derive(Clone, Copy, Debug, PartialEq, Eq, Structural)]
pub enum MigrationError {
    Item { kind: ItemKind, id: i64 },
    RowUpdate { kind: ItemKind, id: i64 },
    Transaction { batch_index: usize },
    Fatal,
}

/// A track row the enumerator picks up: blob present, no path yet.
pub open spec fn spec_track_eligible(t: Track) -> bool {
    t.track_cover is Some && t.track_cover_path is None
}

/// An album row the enumerator picks up: blob present, no path yet.
pub open spec fn spec_album_eligible(a: Album) -> bool {
    a.art_data is Some && a.art_path is None
}

/// What transforming one blob yields: the decoded bytes and their format,
/// or nothing when decoding or sniffing fails.
pub open spec fn spec_blob_transform(data: Seq<char>) -> Option<(Seq<u8>, ImageFormat)> {
    match base64_decoded(data) {
        Some(bytes) => match spec_format_of(bytes) {
            Some(fmt) => Some((bytes, fmt)),
            None => None,
        },
        None => None,
    }
}


/// The decoded bytes of a blob that transforms.
pub open spec fn spec_transform_bytes(data: Seq<char>) -> Seq<u8> {
    (spec_blob_transform(data)->0).0
}

/// The detected format of a blob that transforms.
pub open spec fn spec_transform_format(data: Seq<char>) -> ImageFormat {
    (spec_blob_transform(data)->0).1
}

/// An eligible track row whose blob will transform successfully.
pub open spec fn spec_track_migratable(t: Track) -> bool {
    spec_track_eligible(t) && spec_blob_transform(t.track_cover->0@) is Some
}

/// An eligible album row whose blob will transform successfully.
pub open spec fn spec_album_migratable(a: Album) -> bool {
    spec_album_eligible(a) && spec_blob_transform(a.art_data->0@) is Some
}

/// The abstract content of a work item: table, id, blob characters.
pub open spec fn spec_item_view(w: MigrationWorkItem) -> (ItemKind, i64, Seq<char>) {
    match w {
        MigrationWorkItem::Track(id, data) => (ItemKind::Track, id, data@),
        MigrationWorkItem::Album(id, data) => (ItemKind::Album, id, data@),
    }
}

/// The abstract content of a transform result: table, id, path characters.
pub open spec fn spec_result_view(r: MigrationResult) -> (ItemKind, i64, Seq<char>) {
    (r.kind, r.id, r.path@)
}

/// The abstract contents of a list of work items.
pub open spec fn spec_item_views(ws: Seq<MigrationWorkItem>) -> Seq<(ItemKind, i64, Seq<char>)>
    decreases ws.len(),
{
    if ws.len() == 0 {
        Seq::empty()
    } else {
        spec_item_views(ws.drop_last()).push(spec_item_view(ws.last()))
    }
}

/// The abstract contents of a list of transform results.
pub open spec fn spec_result_views(rs: Seq<MigrationResult>) -> Seq<(ItemKind, i64, Seq<char>)>
    decreases rs.len(),
{
    if rs.len() == 0 {
        Seq::empty()
    } else {
        spec_result_views(rs.drop_last()).push(spec_result_view(rs.last()))
    }
}

/// The work items enumerated from the track table, in row order.
pub open spec fn spec_track_items(ts: Seq<Track>) -> Seq<(ItemKind, i64, Seq<char>)>
    decreases ts.len(),
{
    if ts.len() == 0 {
        Seq::empty()
    } else {
        spec_track_items(ts.drop_last()) + (if spec_track_eligible(ts.last()) {
            seq![(ItemKind::Track, ts.last().id, ts.last().track_cover->0@)]
        } else {
            Seq::empty()
        })
    }
}

/// The work items enumerated from the album table, in row order.
pub open spec fn spec_album_items(als: Seq<Album>) -> Seq<(ItemKind, i64, Seq<char>)>
    decreases als.len(),
{
    if als.len() == 0 {
        Seq::empty()
    } else {
        spec_album_items(als.drop_last()) + (if spec_album_eligible(als.last()) {
            seq![(ItemKind::Album, als.last().id, als.last().art_data->0@)]
        } else {
            Seq::empty()
        })
    }
}

/// The results the transform stage hands downstream for a list of work
/// items: one per item whose blob transforms, with its stored name.
pub open spec fn spec_results_of(items: Seq<(ItemKind, i64, Seq<char>)>) -> Seq<
    (ItemKind, i64, Seq<char>),
>
    decreases items.len(),
{
    if items.len() == 0 {
        Seq::empty()
    } else {
        spec_results_of(items.drop_last()) + (match spec_blob_transform(items.last().2) {
            Some(tr) => seq![
                (items.last().0, items.last().1, spec_cover_name(items.last().1 as int, tr.1)),
            ],
            None => Seq::empty(),
        })
    }
}

/// The item errors the transform stage records: one per item whose blob
/// fails to decode or sniff, in item order.
pub open spec fn spec_item_errors(items: Seq<(ItemKind, i64, Seq<char>)>) -> Seq<MigrationError>
    decreases items.len(),
{
    if items.len() == 0 {
        Seq::empty()
    } else {
        spec_item_errors(items.drop_last()) + (match spec_blob_transform(items.last().2) {
            Some(_) => Seq::empty(),
            None => seq![
                (MigrationError::Item { kind: items.last().0, id: items.last().1 }),
            ],
        })
    }
}

/// Decode one blob and, if it is a supported image, write it to its
/// deterministic file in the directory; the stored name is returned.  A
/// blob that fails to decode or sniff leaves the directory untouched.
pub fn transform_blob(id: i64, data: &str, dir: &mut CoverDir) -> (r: Option<String>)
    requires
        old(dir).wf(),
    ensures
        final(dir).wf(),
        match spec_blob_transform(data@) {
            Some(tr) => {
                &&& r is Some
                &&& r->0@ == spec_cover_name(id as int, tr.1)
                &&& spec_has_file(final(dir).files@, spec_cover_name(id as int, tr.1))
                &&& final(dir).files@.len() == if spec_has_file(
                    old(dir).files@,
                    spec_cover_name(id as int, tr.1),
                ) {
                    old(dir).files@.len()
                } else {
                    old(dir).files@.len() + 1
                }
                &&& forall|i: int|
                    0 <= i < final(dir).files@.len() ==> #[trigger] final(dir).files@[i].name@
                        == spec_cover_name(id as int, tr.1) ==> final(dir).files@[i].bytes@ == tr.0
                &&& forall|i: int|
                    0 <= i < old(dir).files@.len() && #[trigger] old(dir).files@[i].name@
                        != spec_cover_name(id as int, tr.1) ==> final(dir).files@[i] == old(
                        dir,
                    ).files@[i]
                &&& forall|i: int|
                    0 <= i < final(dir).files@.len() ==> (#[trigger] final(dir).files@[i].name@
                        == spec_cover_name(id as int, tr.1)) || (i < old(dir).files@.len()
                        && final(dir).files@[i] == old(dir).files@[i])
            },
            None => r is None && final(dir).files@ == old(dir).files@,
        },
{
    match base64_decode(data) {
        Some(bytes) => {
            match ImageFormat::from_bytes(bytes.as_slice()) {
                Some(fmt) => {
                    let name = cover_file_name(id, fmt);
                    let name_copy = cover_file_name(id, fmt);
                    dir.write_file(name, bytes);
                    Some(name_copy)
                },
                None => None,
            }
        },
        None => None,
    }
}

/// Enumerate the rows to migrate, tracks first, then albums, in row
/// order; the total is known before the pipeline starts.
pub fn enumerate_work_items(store: &Store) -> (r: Vec<MigrationWorkItem>)
    ensures
        spec_item_views(r@) == spec_track_items(store.tracks@) + spec_album_items(
            store.albums@,
        ),
{
    let mut items: Vec<MigrationWorkItem> = Vec::new();
    let mut i: usize = 0;
    proof {
        assert(store.tracks@.take(0) =~= Seq::<Track>::empty());
        assert(spec_item_views(items@) =~~= spec_track_items(
            store.tracks@.take(0),
        ));
    }
    while i < store.tracks.len()
        invariant
            i <= store.tracks@.len(),
            spec_item_views(items@) == spec_track_items(
                store.tracks@.take(i as int),
            ),
        decreases store.tracks@.len() - i,
    {
        proof {
            assert(store.tracks@.take(i + 1).drop_last() =~= store.tracks@.take(i as int));
            assert(store.tracks@.take(i + 1).last() == store.tracks@[i as int]);
        }
        let t = &store.tracks[i];
        let ghost prev = items@;
        if t.track_cover.is_some() && t.track_cover_path.is_none() {
            let data = match &t.track_cover {
                Some(d) => d.clone(),
                None => String::new(),
            };
            items.push(MigrationWorkItem::Track(t.id, data));
            proof {
                assert(items@.drop_last() =~= prev);
                assert(spec_item_views(items@) == spec_item_views(prev).push(
                    spec_item_view(items@.last()),
                ));
            }
        }
        proof {
            assert(spec_item_views(items@) =~~= spec_track_items(
                store.tracks@.take(i + 1),
            ));
        }
        i = i + 1;
    }
    proof {
        assert(store.tracks@.take(store.tracks@.len() as int) =~= store.tracks@);
        assert(store.albums@.take(0) =~= Seq::<Album>::empty());
        assert(spec_item_views(items@) =~~= spec_track_items(
            store.tracks@,
        ) + spec_album_items(store.albums@.take(0)));
    }
    let mut k: usize = 0;
    while k < store.albums.len()
        invariant
            k <= store.albums@.len(),
            spec_item_views(items@) == spec_track_items(
                store.tracks@,
            ) + spec_album_items(store.albums@.take(k as int)),
        decreases store.albums@.len() - k,
    {
        proof {
            assert(store.albums@.take(k + 1).drop_last() =~= store.albums@.take(k as int));
            assert(store.albums@.take(k + 1).last() == store.albums@[k as int]);
        }
        let a = &store.albums[k];
        let ghost prev = items@;
        if a.art_data.is_some() && a.art_path.is_none() {
            let data = match &a.art_data {
                Some(d) => d.clone(),
                None => String::new(),
            };
            proof {
                assert(spec_album_eligible(store.albums@[k as int]));
                assert(data@ == store.albums@[k as int].art_data->0@);
                assert(spec_album_items(store.albums@.take(k + 1)) == spec_album_items(
                    store.albums@.take(k as int),
                ) + seq![
                    (
                        ItemKind::Album,
                        store.albums@[k as int].id,
                        store.albums@[k as int].art_data->0@,
                    ),
                ]);
            }
            items.push(MigrationWorkItem::Album(a.id, data));
            proof {
                assert(items@.drop_last() =~= prev);
                assert(spec_item_views(items@) == spec_item_views(prev).push(
                    spec_item_view(items@.last()),
                ));
            }
        } else {
            proof {
                assert(!spec_album_eligible(store.albums@[k as int]));
                assert(spec_album_items(store.albums@.take(k + 1)) =~= spec_album_items(
                    store.albums@.take(k as int),
                ));
            }
        }
        proof {
            assert(spec_item_views(items@) =~~= spec_track_items(
                store.tracks@,
            ) + spec_album_items(store.albums@.take(k + 1)));
        }
        k = k + 1;
    }
    proof {
        assert(store.albums@.take(store.albums@.len() as int) =~= store.albums@);
    }
    items
}


/// An item that would store a cover under the given name in its table's
/// directory.
pub open spec fn spec_item_writes_name(
    v: (ItemKind, i64, Seq<char>),
    kind: ItemKind,
    name: Seq<char>,
) -> bool {
    v.0 == kind && spec_blob_transform(v.2) is Some && spec_cover_name(
        v.1 as int,
        spec_transform_format(v.2),
    ) == name
}

/// Whether some item of the list stores a cover under that name.
pub open spec fn spec_items_write_name(
    vs: Seq<(ItemKind, i64, Seq<char>)>,
    kind: ItemKind,
    name: Seq<char>,
) -> bool {
    exists|k: int| 0 <= k < vs.len() && spec_item_writes_name(#[trigger] vs[k], kind, name)
}

/// No two items address the same row.
pub open spec fn spec_distinct_item_ids(vs: Seq<(ItemKind, i64, Seq<char>)>) -> bool {
    forall|i: int, j: int|
        0 <= i < j < vs.len() ==> !((#[trigger] vs[i]).0 == (#[trigger] vs[j]).0 && vs[i].1
            == vs[j].1)
}

/// The parallel transform stage, run to completion: every work item is
/// decoded, sniffed and written to its table's directory; the results and
/// the item errors come back in item order.
pub fn transform_stage(
    items: &Vec<MigrationWorkItem>,
    tracks_dir: &mut CoverDir,
    albums_dir: &mut CoverDir,
) -> (r: (Vec<MigrationResult>, Vec<MigrationError>))
    requires
        old(tracks_dir).wf(),
        old(albums_dir).wf(),
        spec_distinct_item_ids(spec_item_views(items@)),
    ensures
        final(tracks_dir).wf(),
        final(albums_dir).wf(),
        spec_result_views(r.0@) == spec_results_of(spec_item_views(items@)),
        r.1@ == spec_item_errors(spec_item_views(items@)),
        forall|k: int|
            0 <= k < spec_item_views(items@).len() ==> {
                let v = #[trigger] spec_item_views(items@)[k];
                v.0 == ItemKind::Track && spec_blob_transform(v.2) is Some
                    ==> crate::files::spec_file_content_is(
                    final(tracks_dir).files@,
                    spec_cover_name(v.1 as int, spec_transform_format(v.2)),
                    spec_transform_bytes(v.2),
                )
            },
        forall|k: int|
            0 <= k < spec_item_views(items@).len() ==> {
                let v = #[trigger] spec_item_views(items@)[k];
                v.0 == ItemKind::Album && spec_blob_transform(v.2) is Some
                    ==> crate::files::spec_file_content_is(
                    final(albums_dir).files@,
                    spec_cover_name(v.1 as int, spec_transform_format(v.2)),
                    spec_transform_bytes(v.2),
                )
            },
        final(tracks_dir).files@.len() >= old(tracks_dir).files@.len(),
        final(albums_dir).files@.len() >= old(albums_dir).files@.len(),
        forall|idx: int|
            0 <= idx < old(tracks_dir).files@.len() && !spec_items_write_name(
                spec_item_views(items@),
                ItemKind::Track,
                (#[trigger] old(tracks_dir).files@[idx]).name@,
            ) ==> final(tracks_dir).files@[idx] == old(tracks_dir).files@[idx],
        forall|idx: int|
            0 <= idx < old(albums_dir).files@.len() && !spec_items_write_name(
                spec_item_views(items@),
                ItemKind::Album,
                (#[trigger] old(albums_dir).files@[idx]).name@,
            ) ==> final(albums_dir).files@[idx] == old(albums_dir).files@[idx],
{
    let ghost vs = spec_item_views(items@);
    let mut results: Vec<MigrationResult> = Vec::new();
    let mut errors: Vec<MigrationError> = Vec::new();
    let mut i: usize = 0;
    proof {
        lemma_item_views_take(items@, 0);
        assert(spec_result_views(results@) =~= spec_results_of(vs.take(0)));
        assert(errors@ =~= spec_item_errors(vs.take(0)));
    }
    while i < items.len()
        invariant
            i <= items@.len(),
            vs == spec_item_views(items@),
            vs.len() == items@.len(),
            spec_distinct_item_ids(vs),
            tracks_dir.wf(),
            albums_dir.wf(),
            spec_result_views(results@) == spec_results_of(vs.take(i as int)),
            errors@ == spec_item_errors(vs.take(i as int)),
            forall|k: int|
                0 <= k < i ==> {
                    let v = #[trigger] vs[k];
                    v.0 == ItemKind::Track && spec_blob_transform(v.2) is Some
                        ==> crate::files::spec_file_content_is(
                        tracks_dir.files@,
                        spec_cover_name(v.1 as int, spec_transform_format(v.2)),
                        spec_transform_bytes(v.2),
                    )
                },
            forall|k: int|
                0 <= k < i ==> {
                    let v = #[trigger] vs[k];
                    v.0 == ItemKind::Album && spec_blob_transform(v.2) is Some
                        ==> crate::files::spec_file_content_is(
                        albums_dir.files@,
                        spec_cover_name(v.1 as int, spec_transform_format(v.2)),
                        spec_transform_bytes(v.2),
                    )
                },
            tracks_dir.files@.len() >= old(tracks_dir).files@.len(),
            albums_dir.files@.len() >= old(albums_dir).files@.len(),
            forall|idx: int|
                0 <= idx < old(tracks_dir).files@.len() && !spec_items_write_name(
                    vs.take(i as int),
                    ItemKind::Track,
                    (#[trigger] old(tracks_dir).files@[idx]).name@,
                ) ==> tracks_dir.files@[idx] == old(tracks_dir).files@[idx],
            forall|idx: int|
                0 <= idx < old(albums_dir).files@.len() && !spec_items_write_name(
                    vs.take(i as int),
                    ItemKind::Album,
                    (#[trigger] old(albums_dir).files@[idx]).name@,
                ) ==> albums_dir.files@[idx] == old(albums_dir).files@[idx],
        decreases items@.len() - i,
    {
        proof {
            lemma_item_views_index(items@, i as int);
            assert(vs.take(i + 1).drop_last() =~= vs.take(i as int));
            assert(vs.take(i + 1).last() == vs[i as int]);
        }
        let ghost tracks_before = tracks_dir.files@;
        let ghost albums_before = albums_dir.files@;
        let ghost prev_results = results@;
        let outcome: Option<(i64, ItemKind, String)> = match &items[i] {
            MigrationWorkItem::Track(id, data) => {
                match transform_blob(*id, data.as_str(), tracks_dir) {
                    Some(path) => Some((*id, ItemKind::Track, path)),
                    None => None,
                }
            },
            MigrationWorkItem::Album(id, data) => {
                match transform_blob(*id, data.as_str(), albums_dir) {
                    Some(path) => Some((*id, ItemKind::Album, path)),
                    None => None,
                }
            },
        };
        match outcome {
            Some((id, kind, path)) => {
                results.push(MigrationResult { id, path, kind });
                proof {
                    assert(results@.drop_last() =~= prev_results);
                    assert(spec_result_views(results@) == spec_result_views(prev_results).push(
                        spec_result_view(results@.last()),
                    ));
                    assert(spec_result_views(results@) =~~= spec_results_of(vs.take(i + 1)));
                }
            },
            None => {
                match &items[i] {
                    MigrationWorkItem::Track(id, _) => {
                        errors.push(MigrationError::Item { kind: ItemKind::Track, id: *id });
                    },
                    MigrationWorkItem::Album(id, _) => {
                        errors.push(MigrationError::Item { kind: ItemKind::Album, id: *id });
                    },
                }
                proof {
                    assert(spec_result_views(results@) =~~= spec_results_of(vs.take(i + 1)));
                    assert(errors@ =~= spec_item_errors(vs.take(i + 1)));
                }
            },
        }
        proof {
            let v_i = vs[i as int];
            if spec_blob_transform(v_i.2) is Some {
                let name_i = spec_cover_name(v_i.1 as int, spec_transform_format(v_i.2));
                assert forall|k: int| 0 <= k < i + 1 implies {
                    let v = #[trigger] vs[k];
                    v.0 == ItemKind::Track && spec_blob_transform(v.2) is Some
                        ==> crate::files::spec_file_content_is(
                        tracks_dir.files@,
                        spec_cover_name(v.1 as int, spec_transform_format(v.2)),
                        spec_transform_bytes(v.2),
                    )
                } by {
                    let v = vs[k];
                    if k < i && v.0 == ItemKind::Track && spec_blob_transform(v.2) is Some {
                        if v_i.0 == ItemKind::Track {
                            crate::files::lemma_cover_name_injective(
                                v.1,
                                spec_transform_format(v.2),
                                v_i.1,
                                spec_transform_format(v_i.2),
                            );
                        }
                    }
                }
                assert forall|k: int| 0 <= k < i + 1 implies {
                    let v = #[trigger] vs[k];
                    v.0 == ItemKind::Album && spec_blob_transform(v.2) is Some
                        ==> crate::files::spec_file_content_is(
                        albums_dir.files@,
                        spec_cover_name(v.1 as int, spec_transform_format(v.2)),
                        spec_transform_bytes(v.2),
                    )
                } by {
                    let v = vs[k];
                    if k < i && v.0 == ItemKind::Album && spec_blob_transform(v.2) is Some {
                        if v_i.0 == ItemKind::Album {
                            crate::files::lemma_cover_name_injective(
                                v.1,
                                spec_transform_format(v.2),
                                v_i.1,
                                spec_transform_format(v_i.2),
                            );
                        }
                    }
                }
            }
            assert forall|idx: int|
                0 <= idx < old(tracks_dir).files@.len() && !spec_items_write_name(
                    vs.take(i + 1),
                    ItemKind::Track,
                    (#[trigger] old(tracks_dir).files@[idx]).name@,
                ) implies tracks_dir.files@[idx] == old(tracks_dir).files@[idx] by {
                assert(!spec_items_write_name(
                    vs.take(i as int),
                    ItemKind::Track,
                    old(tracks_dir).files@[idx].name@,
                ));
                assert(!spec_item_writes_name(
                    vs[i as int],
                    ItemKind::Track,
                    old(tracks_dir).files@[idx].name@,
                )) by {
                    assert(vs.take(i + 1)[i as int] == vs[i as int]);
                }
            }
            assert forall|idx: int|
                0 <= idx < old(albums_dir).files@.len() && !spec_items_write_name(
                    vs.take(i + 1),
                    ItemKind::Album,
                    (#[trigger] old(albums_dir).files@[idx]).name@,
                ) implies albums_dir.files@[idx] == old(albums_dir).files@[idx] by {
                assert(!spec_items_write_name(
                    vs.take(i as int),
                    ItemKind::Album,
                    old(albums_dir).files@[idx].name@,
                ));
                assert(!spec_item_writes_name(
                    vs[i as int],
                    ItemKind::Album,
                    old(albums_dir).files@[idx].name@,
                )) by {
                    assert(vs.take(i + 1)[i as int] == vs[i as int]);
                }
            }
        }
        i = i + 1;
    }
    proof {
        assert(vs.take(vs.len() as int) =~= vs);
    }
    (results, errors)
}

proof fn lemma_item_views_take(ws: Seq<MigrationWorkItem>, i: int)
    requires
        0 <= i <= ws.len(),
    ensures
        spec_item_views(ws).len() == ws.len(),
        spec_item_views(ws.take(i)) == spec_item_views(ws).take(i),
    decreases ws.len(),
{
    if ws.len() > 0 {
        lemma_item_views_take(ws.drop_last(), if i < ws.len() { i } else { i - 1 });
        if i < ws.len() {
            assert(ws.take(i) =~= ws.drop_last().take(i));
            assert(spec_item_views(ws).take(i) =~= spec_item_views(ws.drop_last()).take(i));
        } else {
            assert(ws.take(i) =~= ws);
            assert(spec_item_views(ws).take(i) =~= spec_item_views(ws));
        }
    } else {
        assert(ws.take(i) =~= ws);
        assert(spec_item_views(ws).take(i) =~= spec_item_views(ws));
    }
}

proof fn lemma_item_views_index(ws: Seq<MigrationWorkItem>, i: int)
    requires
        0 <= i < ws.len(),
    ensures
        spec_item_views(ws).len() == ws.len(),
        spec_item_views(ws)[i] == spec_item_view(ws[i]),
    decreases ws.len(),
{
    if i + 1 == ws.len() {
        lemma_item_views_len(ws.drop_last());
    } else {
        lemma_item_views_index(ws.drop_last(), i);
        lemma_item_views_len(ws);
    }
}

proof fn lemma_item_views_len(ws: Seq<MigrationWorkItem>)
    ensures
        spec_item_views(ws).len() == ws.len(),
    decreases ws.len(),
{
    if ws.len() > 0 {
        lemma_item_views_len(ws.drop_last());
    }
}


/// The path a batch assigns to a row: the last matching entry wins, since
/// updates are applied in order.
pub open spec fn spec_batch_path_for(
    rv: Seq<(ItemKind, i64, Seq<char>)>,
    kind: ItemKind,
    id: i64,
) -> Option<Seq<char>>
    decreases rv.len(),
{
    if rv.len() == 0 {
        None
    } else if rv.last().0 == kind && rv.last().1 == id {
        Some(rv.last().2)
    } else {
        spec_batch_path_for(rv.drop_last(), kind, id)
    }
}

/// Whether the track table holds a row with the id.
pub open spec fn spec_has_track_id(ts: Seq<Track>, id: i64) -> bool {
    exists|j: int| 0 <= j < ts.len() && (#[trigger] ts[j]).id == id
}

/// Whether the album table holds a row with the id.
pub open spec fn spec_has_album_id(als: Seq<Album>, id: i64) -> bool {
    exists|j: int| 0 <= j < als.len() && (#[trigger] als[j]).id == id
}

/// Whether one batch entry finds its row.
pub open spec fn spec_entry_has_row(
    ts: Seq<Track>,
    als: Seq<Album>,
    v: (ItemKind, i64, Seq<char>),
) -> bool {
    match v.0 {
        ItemKind::Track => spec_has_track_id(ts, v.1),
        ItemKind::Album => spec_has_album_id(als, v.1),
    }
}

/// The row update errors a batch produces against tables with those ids:
/// one per entry whose row is missing, in batch order.
pub open spec fn spec_row_errors(
    ts: Seq<Track>,
    als: Seq<Album>,
    rv: Seq<(ItemKind, i64, Seq<char>)>,
) -> Seq<MigrationError>
    decreases rv.len(),
{
    if rv.len() == 0 {
        Seq::empty()
    } else {
        spec_row_errors(ts, als, rv.drop_last()) + (if spec_entry_has_row(ts, als, rv.last()) {
            Seq::empty()
        } else {
            seq![(MigrationError::RowUpdate { kind: rv.last().0, id: rv.last().1 })]
        })
    }
}

/// How many batch entries of the given kind find their row.
pub open spec fn spec_batch_successes(
    ts: Seq<Track>,
    als: Seq<Album>,
    rv: Seq<(ItemKind, i64, Seq<char>)>,
    kind: ItemKind,
) -> nat
    decreases rv.len(),
{
    if rv.len() == 0 {
        0
    } else {
        spec_batch_successes(ts, als, rv.drop_last(), kind) + (if rv.last().0 == kind
            && spec_entry_has_row(ts, als, rv.last()) {
            1nat
        } else {
            0nat
        })
    }
}

/// The batch's effect on one track row, given what the batch assigns to
/// its id: either its path column now holds the assigned name and nothing
/// else changed, or the row is untouched.
pub open spec fn spec_track_row_after(t_old: Track, t_new: Track, assigned: Option<Seq<char>>) -> bool {
    match assigned {
        Some(v) => t_new.track_cover_path is Some && t_new.track_cover_path->0@ == v && t_new
            == track_with_cover_path(t_old, t_new.track_cover_path),
        None => t_new == t_old,
    }
}

/// The batch's effect on one album row.
pub open spec fn spec_album_row_after(a_old: Album, a_new: Album, assigned: Option<Seq<char>>) -> bool {
    match assigned {
        Some(v) => a_new.art_path is Some && a_new.art_path->0@ == v && a_new == album_with_art_path(
            a_old,
            a_new.art_path,
        ),
        None => a_new == a_old,
    }
}

/// Commit one batch: set the path column of every row the batch names, in
/// one transaction.  A row that is not found is recorded as a row update
/// error and the batch continues; every other row is untouched.
pub fn apply_migration_batch(store: &mut Store, batch: &Vec<MigrationResult>) -> (r: (
    usize,
    usize,
    Vec<MigrationError>,
    Vec<MigrationItem>,
))
    requires
        old(store).wf(),
        batch@.len() <= usize::MAX,
    ensures
        final(store).wf(),
        final(store).tracks@.len() == old(store).tracks@.len(),
        final(store).albums@.len() == old(store).albums@.len(),
        forall|j: int|
            0 <= j < old(store).tracks@.len() ==> spec_track_row_after(
                #[trigger] old(store).tracks@[j],
                final(store).tracks@[j],
                spec_batch_path_for(
                    spec_result_views(batch@),
                    ItemKind::Track,
                    old(store).tracks@[j].id,
                ),
            ),
        forall|j: int|
            0 <= j < old(store).albums@.len() ==> spec_album_row_after(
                #[trigger] old(store).albums@[j],
                final(store).albums@[j],
                spec_batch_path_for(
                    spec_result_views(batch@),
                    ItemKind::Album,
                    old(store).albums@[j].id,
                ),
            ),
        r.0 as nat == spec_batch_successes(
            old(store).tracks@,
            old(store).albums@,
            spec_result_views(batch@),
            ItemKind::Track,
        ),
        r.1 as nat == spec_batch_successes(
            old(store).tracks@,
            old(store).albums@,
            spec_result_views(batch@),
            ItemKind::Album,
        ),
        r.2@ == spec_row_errors(old(store).tracks@, old(store).albums@, spec_result_views(batch@)),
        r.3@.len() as nat == r.0 as nat + r.1 as nat,
{
    let ghost rv = spec_result_views(batch@);
    let mut tracks_done: usize = 0;
    let mut albums_done: usize = 0;
    let mut errors: Vec<MigrationError> = Vec::new();
    let mut committed: Vec<MigrationItem> = Vec::new();
    let mut b: usize = 0;
    proof {
        lemma_result_views_take(batch@, 0);
        assert(errors@ =~= spec_row_errors(old(store).tracks@, old(store).albums@, rv.take(0)));
    }
    while b < batch.len()
        invariant
            b <= batch@.len(),
            batch@.len() <= usize::MAX,
            rv == spec_result_views(batch@),
            rv.len() == batch@.len(),
            old(store).wf(),
            store.wf(),
            store.tracks@.len() == old(store).tracks@.len(),
            store.albums@.len() == old(store).albums@.len(),
            forall|j: int| 0 <= j < old(store).tracks@.len() ==> (#[trigger] store.tracks@[j]).id
                == old(store).tracks@[j].id,
            forall|j: int| 0 <= j < old(store).albums@.len() ==> (#[trigger] store.albums@[j]).id
                == old(store).albums@[j].id,
            forall|j: int|
                0 <= j < old(store).tracks@.len() ==> spec_track_row_after(
                    #[trigger] old(store).tracks@[j],
                    store.tracks@[j],
                    spec_batch_path_for(
                        rv.take(b as int),
                        ItemKind::Track,
                        old(store).tracks@[j].id,
                    ),
                ),
            forall|j: int|
                0 <= j < old(store).albums@.len() ==> spec_album_row_after(
                    #[trigger] old(store).albums@[j],
                    store.albums@[j],
                    spec_batch_path_for(
                        rv.take(b as int),
                        ItemKind::Album,
                        old(store).albums@[j].id,
                    ),
                ),
            tracks_done as nat == spec_batch_successes(
                old(store).tracks@,
                old(store).albums@,
                rv.take(b as int),
                ItemKind::Track,
            ),
            albums_done as nat == spec_batch_successes(
                old(store).tracks@,
                old(store).albums@,
                rv.take(b as int),
                ItemKind::Album,
            ),
            tracks_done + albums_done <= b,
            errors@ == spec_row_errors(old(store).tracks@, old(store).albums@, rv.take(b as int)),
            committed@.len() == tracks_done + albums_done,
        decreases batch@.len() - b,
    {
        proof {
            lemma_result_views_index(batch@, b as int);
            assert(rv.take(b + 1).drop_last() =~= rv.take(b as int));
            assert(rv.take(b + 1).last() == rv[b as int]);
        }
        let entry = &batch[b];
        let ghost v = rv[b as int];
        let ghost tracks_before = store.tracks@;
        let ghost albums_before = store.albums@;
        let updated: bool = match entry.kind {
            ItemKind::Track => update_track_cover_path(
                &mut store.tracks,
                entry.id,
                Some(entry.path.clone()),
            ),
            ItemKind::Album => update_album_art_path(
                &mut store.albums,
                entry.id,
                Some(entry.path.clone()),
            ),
        };
        if updated {
            match entry.kind {
                ItemKind::Track => {
                    tracks_done = tracks_done + 1;
                },
                ItemKind::Album => {
                    albums_done = albums_done + 1;
                },
            }
            committed.push(
                MigrationItem { id: entry.id, kind: entry.kind, path: entry.path.clone() },
            );
        } else {
            errors.push(MigrationError::RowUpdate { kind: entry.kind, id: entry.id });
        }
        proof {
            if v.0 == ItemKind::Track {
                if updated {
                    let i = choose|i: int|
                        0 <= i < tracks_before.len() && tracks_before[i].id == v.1
                            && store.tracks@ == tracks_before.update(
                            i,
                            track_with_cover_path(
                                tracks_before[i],
                                Some(store.tracks@[i].track_cover_path->0),
                            ),
                        );
                    assert(spec_has_track_id(old(store).tracks@, v.1)) by {
                        assert(old(store).tracks@[i].id == v.1);
                    }
                } else {
                    assert(!spec_has_track_id(old(store).tracks@, v.1)) by {
                        if spec_has_track_id(old(store).tracks@, v.1) {
                            let j = choose|j: int|
                                0 <= j < old(store).tracks@.len() && (#[trigger] old(
                                    store,
                                ).tracks@[j]).id == v.1;
                            assert(tracks_before[j].id == v.1);
                        }
                    }
                }
            } else {
                if updated {
                    let i = choose|i: int|
                        0 <= i < albums_before.len() && albums_before[i].id == v.1
                            && store.albums@ == albums_before.update(
                            i,
                            album_with_art_path(
                                albums_before[i],
                                Some(store.albums@[i].art_path->0),
                            ),
                        );
                    assert(spec_has_album_id(old(store).albums@, v.1)) by {
                        assert(old(store).albums@[i].id == v.1);
                    }
                } else {
                    assert(!spec_has_album_id(old(store).albums@, v.1)) by {
                        if spec_has_album_id(old(store).albums@, v.1) {
                            let j = choose|j: int|
                                0 <= j < old(store).albums@.len() && (#[trigger] old(
                                    store,
                                ).albums@[j]).id == v.1;
                            assert(albums_before[j].id == v.1);
                        }
                    }
                }
            }
            assert(errors@ =~= spec_row_errors(
                old(store).tracks@,
                old(store).albums@,
                rv.take(b + 1),
            ));
        }
        b = b + 1;
    }
    proof {
        assert(rv.take(rv.len() as int) =~= rv);
    }
    (tracks_done, albums_done, errors, committed)
}

pub(crate) proof fn lemma_result_views_take(rs: Seq<MigrationResult>, i: int)
    requires
        0 <= i <= rs.len(),
    ensures
        spec_result_views(rs).len() == rs.len(),
        spec_result_views(rs.take(i)) == spec_result_views(rs).take(i),
    decreases rs.len(),
{
    if rs.len() > 0 {
        lemma_result_views_take(rs.drop_last(), if i < rs.len() { i } else { i - 1 });
        if i < rs.len() {
            assert(rs.take(i) =~= rs.drop_last().take(i));
            assert(spec_result_views(rs).take(i) =~= spec_result_views(rs.drop_last()).take(i));
        } else {
            assert(rs.take(i) =~= rs);
            assert(spec_result_views(rs).take(i) =~= spec_result_views(rs));
        }
    } else {
        assert(rs.take(i) =~= rs);
        assert(spec_result_views(rs).take(i) =~= spec_result_views(rs));
    }
}

proof fn lemma_result_views_index(rs: Seq<MigrationResult>, i: int)
    requires
        0 <= i < rs.len(),
    ensures
        spec_result_views(rs).len() == rs.len(),
        spec_result_views(rs)[i] == spec_result_view(rs[i]),
    decreases rs.len(),
{
    if i + 1 == rs.len() {
        lemma_result_views_take(rs.drop_last(), 0);
    } else {
        lemma_result_views_index(rs.drop_last(), i);
        lemma_result_views_take(rs, 0);
    }
}


/// The capacity of the channel between the transform workers and the
/// assembler.
pub const MIGRATION_CHANNEL_CAPACITY: usize = 500;

proof fn lemma_result_views_subrange(rs: Seq<MigrationResult>, a: int, b: int)
    requires
        0 <= a <= b <= rs.len(),
    ensures
        spec_result_views(rs.subrange(a, b)) == spec_result_views(rs).subrange(a, b),
    decreases b - a,
{
    lemma_result_views_take(rs, 0);
    if a < b {
        lemma_result_views_subrange(rs, a, b - 1);
        lemma_result_views_index(rs, b - 1);
        assert(rs.subrange(a, b).drop_last() =~= rs.subrange(a, b - 1));
        assert(spec_result_views(rs.subrange(a, b)) == spec_result_views(
            rs.subrange(a, b - 1),
        ).push(spec_result_view(rs[b - 1])));
        assert(spec_result_views(rs).subrange(a, b) =~= spec_result_views(rs).subrange(
            a,
            b - 1,
        ).push(spec_result_views(rs)[b - 1]));
    } else {
        assert(rs.subrange(a, b) =~= Seq::<MigrationResult>::empty());
        assert(spec_result_views(rs).subrange(a, b) =~= Seq::<
            (ItemKind, i64, Seq<char>),
        >::empty());
    }
}

proof fn lemma_path_for_concat(
    s1: Seq<(ItemKind, i64, Seq<char>)>,
    s2: Seq<(ItemKind, i64, Seq<char>)>,
    kind: ItemKind,
    id: i64,
)
    ensures
        spec_batch_path_for(s1 + s2, kind, id) == (match spec_batch_path_for(s2, kind, id) {
            Some(v) => Some(v),
            None => spec_batch_path_for(s1, kind, id),
        }),
    decreases s2.len(),
{
    if s2.len() == 0 {
        assert(s1 + s2 =~= s1);
    } else {
        assert((s1 + s2).last() == s2.last());
        assert((s1 + s2).drop_last() =~= s1 + s2.drop_last());
        lemma_path_for_concat(s1, s2.drop_last(), kind, id);
    }
}

proof fn lemma_track_row_compose(
    t0: Track,
    t1: Track,
    t2: Track,
    p1: Option<Seq<char>>,
    p2: Option<Seq<char>>,
)
    requires
        spec_track_row_after(t0, t1, p1),
        spec_track_row_after(t1, t2, p2),
    ensures
        spec_track_row_after(
            t0,
            t2,
            match p2 {
                Some(v) => Some(v),
                None => p1,
            },
        ),
{
}

proof fn lemma_album_row_compose(
    a0: Album,
    a1: Album,
    a2: Album,
    p1: Option<Seq<char>>,
    p2: Option<Seq<char>>,
)
    requires
        spec_album_row_after(a0, a1, p1),
        spec_album_row_after(a1, a2, p2),
    ensures
        spec_album_row_after(
            a0,
            a2,
            match p2 {
                Some(v) => Some(v),
                None => p1,
            },
        ),
{
}

proof fn lemma_entry_has_row_congruent(
    ts1: Seq<Track>,
    als1: Seq<Album>,
    ts2: Seq<Track>,
    als2: Seq<Album>,
    v: (ItemKind, i64, Seq<char>),
)
    requires
        ts1.len() == ts2.len(),
        als1.len() == als2.len(),
        forall|j: int| 0 <= j < ts1.len() ==> (#[trigger] ts1[j]).id == ts2[j].id,
        forall|j: int| 0 <= j < als1.len() ==> (#[trigger] als1[j]).id == als2[j].id,
    ensures
        spec_entry_has_row(ts1, als1, v) == spec_entry_has_row(ts2, als2, v),
{
    match v.0 {
        ItemKind::Track => {
            if spec_has_track_id(ts1, v.1) {
                let j = choose|j: int| 0 <= j < ts1.len() && (#[trigger] ts1[j]).id == v.1;
                assert(ts2[j].id == v.1);
            }
            if spec_has_track_id(ts2, v.1) {
                let j = choose|j: int| 0 <= j < ts2.len() && (#[trigger] ts2[j]).id == v.1;
                assert(ts1[j].id == v.1);
            }
        },
        ItemKind::Album => {
            if spec_has_album_id(als1, v.1) {
                let j = choose|j: int| 0 <= j < als1.len() && (#[trigger] als1[j]).id == v.1;
                assert(als2[j].id == v.1);
            }
            if spec_has_album_id(als2, v.1) {
                let j = choose|j: int| 0 <= j < als2.len() && (#[trigger] als2[j]).id == v.1;
                assert(als1[j].id == v.1);
            }
        },
    }
}

proof fn lemma_batch_specs_congruent(
    ts1: Seq<Track>,
    als1: Seq<Album>,
    ts2: Seq<Track>,
    als2: Seq<Album>,
    rv: Seq<(ItemKind, i64, Seq<char>)>,
)
    requires
        ts1.len() == ts2.len(),
        als1.len() == als2.len(),
        forall|j: int| 0 <= j < ts1.len() ==> (#[trigger] ts1[j]).id == ts2[j].id,
        forall|j: int| 0 <= j < als1.len() ==> (#[trigger] als1[j]).id == als2[j].id,
    ensures
        spec_batch_successes(ts1, als1, rv, ItemKind::Track) == spec_batch_successes(
            ts2,
            als2,
            rv,
            ItemKind::Track,
        ),
        spec_batch_successes(ts1, als1, rv, ItemKind::Album) == spec_batch_successes(
            ts2,
            als2,
            rv,
            ItemKind::Album,
        ),
        spec_row_errors(ts1, als1, rv) == spec_row_errors(ts2, als2, rv),
    decreases rv.len(),
{
    if rv.len() > 0 {
        lemma_batch_specs_congruent(ts1, als1, ts2, als2, rv.drop_last());
        lemma_entry_has_row_congruent(ts1, als1, ts2, als2, rv.last());
    }
}

pub(crate) proof fn lemma_batch_specs_concat(
    ts: Seq<Track>,
    als: Seq<Album>,
    s1: Seq<(ItemKind, i64, Seq<char>)>,
    s2: Seq<(ItemKind, i64, Seq<char>)>,
)
    ensures
        spec_batch_successes(ts, als, s1 + s2, ItemKind::Track) == spec_batch_successes(
            ts,
            als,
            s1,
            ItemKind::Track,
        ) + spec_batch_successes(ts, als, s2, ItemKind::Track),
        spec_batch_successes(ts, als, s1 + s2, ItemKind::Album) == spec_batch_successes(
            ts,
            als,
            s1,
            ItemKind::Album,
        ) + spec_batch_successes(ts, als, s2, ItemKind::Album),
        spec_row_errors(ts, als, s1 + s2) == spec_row_errors(ts, als, s1) + spec_row_errors(
            ts,
            als,
            s2,
        ),
    decreases s2.len(),
{
    if s2.len() == 0 {
        assert(s1 + s2 =~= s1);
        assert(spec_row_errors(ts, als, s1) + spec_row_errors(ts, als, s2) =~= spec_row_errors(
            ts,
            als,
            s1,
        ));
    } else {
        assert((s1 + s2).last() == s2.last());
        assert((s1 + s2).drop_last() =~= s1 + s2.drop_last());
        lemma_batch_specs_concat(ts, als, s1, s2.drop_last());
        assert(spec_row_errors(ts, als, s1 + s2) =~= spec_row_errors(ts, als, s1)
            + spec_row_errors(ts, als, s2));
    }
}

/// Every batch entry either succeeds for its kind or yields one row error.
pub(crate) proof fn lemma_successes_errors_partition(
    ts: Seq<Track>,
    als: Seq<Album>,
    rv: Seq<(ItemKind, i64, Seq<char>)>,
)
    ensures
        spec_batch_successes(ts, als, rv, ItemKind::Track) + spec_batch_successes(
            ts,
            als,
            rv,
            ItemKind::Album,
        ) + spec_row_errors(ts, als, rv).len() == rv.len(),
    decreases rv.len(),
{
    if rv.len() > 0 {
        lemma_successes_errors_partition(ts, als, rv.drop_last());
    }
}

/// The single-writer assembler: drain the channel in adaptively sized
/// batches, commit each batch, and emit one progress snapshot per batch.
/// Producers are modelled as eager: the channel is refilled to capacity
/// (or until the results run out) before each batch, and the clock
/// advances `ms_per_item` milliseconds per committed item.
pub fn assemble_batches(
    results: Vec<MigrationResult>,
    store: &mut Store,
    total: usize,
    ms_per_item: u64,
) -> (r: (usize, usize, Vec<MigrationError>, Vec<MigrationBatchEvent>))
    requires
        old(store).wf(),
    ensures
        final(store).wf(),
        final(store).tracks@.len() == old(store).tracks@.len(),
        final(store).albums@.len() == old(store).albums@.len(),
        forall|j: int|
            0 <= j < old(store).tracks@.len() ==> spec_track_row_after(
                #[trigger] old(store).tracks@[j],
                final(store).tracks@[j],
                spec_batch_path_for(
                    spec_result_views(results@),
                    ItemKind::Track,
                    old(store).tracks@[j].id,
                ),
            ),
        forall|j: int|
            0 <= j < old(store).albums@.len() ==> spec_album_row_after(
                #[trigger] old(store).albums@[j],
                final(store).albums@[j],
                spec_batch_path_for(
                    spec_result_views(results@),
                    ItemKind::Album,
                    old(store).albums@[j].id,
                ),
            ),
        r.0 as nat == spec_batch_successes(
            old(store).tracks@,
            old(store).albums@,
            spec_result_views(results@),
            ItemKind::Track,
        ),
        r.1 as nat == spec_batch_successes(
            old(store).tracks@,
            old(store).albums@,
            spec_result_views(results@),
            ItemKind::Album,
        ),
        r.2@ == spec_row_errors(
            old(store).tracks@,
            old(store).albums@,
            spec_result_views(results@),
        ),
        forall|i: int|
            0 <= i < r.3@.len() ==> {
                let p = (#[trigger] r.3@[i]).progress;
                &&& p.total == total
                &&& 1 <= p.batch_size <= 200
                &&& p.current_batch == i + 1
                &&& p.current <= results@.len()
                &&& p.estimated_time_remaining_ms as nat == spec_eta_millis(
                    p.current as nat,
                    total as nat,
                    crate::batch::spec_sat_mul(p.current as nat, ms_per_item as nat),
                )
            },
        forall|i: int, j: int|
            0 <= i <= j < r.3@.len() ==> (#[trigger] r.3@[i]).progress.current <= (
            #[trigger] r.3@[j]).progress.current,
        r.2@.len() == 0 ==> (forall|i: int, j: int|
            0 <= i < j < r.3@.len() ==> (#[trigger] r.3@[i]).progress.current < (
            #[trigger] r.3@[j]).progress.current),
        r.3@.len() <= results@.len(),
        r.2@.len() == 0 ==> (forall|i: int|
            0 <= i < r.3@.len() ==> 1 <= (#[trigger] r.3@[i]).progress.current),
{
    let ghost orig = results@;
    let ghost rv = spec_result_views(orig);
    let mut results = results;
    let n_results = results.len();
    proof {
        assert(orig.len() == n_results as int);
    }
    let mut queue: BoundedQueue<MigrationResult> = BoundedQueue::new(MIGRATION_CHANNEL_CAPACITY);
    let ghost mut taken: int = 0;
    let ghost mut applied: int = 0;
    let mut tracks_done: usize = 0;
    let mut albums_done: usize = 0;
    let mut errors: Vec<MigrationError> = Vec::new();
    let mut events: Vec<MigrationBatchEvent> = Vec::new();
    let mut batches: usize = 0;
    proof {
        lemma_result_views_take(orig, 0);
        assert(queue.contents() =~= orig.subrange(applied, taken));
        assert(errors@ =~= spec_row_errors(old(store).tracks@, old(store).albums@, rv.take(0)));
    }
    loop
        invariant
            0 <= applied <= taken <= orig.len(),
            rv == spec_result_views(orig),
            rv.len() == orig.len(),
            orig.len() <= usize::MAX,
            results@ == orig.skip(taken),
            queue.wf(),
            queue.capacity() == MIGRATION_CHANNEL_CAPACITY as nat,
            queue.contents() == orig.subrange(applied, taken),
            old(store).wf(),
            store.wf(),
            store.tracks@.len() == old(store).tracks@.len(),
            store.albums@.len() == old(store).albums@.len(),
            forall|j: int| 0 <= j < old(store).tracks@.len() ==> (#[trigger] store.tracks@[j]).id
                == old(store).tracks@[j].id,
            forall|j: int| 0 <= j < old(store).albums@.len() ==> (#[trigger] store.albums@[j]).id
                == old(store).albums@[j].id,
            forall|j: int|
                0 <= j < old(store).tracks@.len() ==> spec_track_row_after(
                    #[trigger] old(store).tracks@[j],
                    store.tracks@[j],
                    spec_batch_path_for(rv.take(applied), ItemKind::Track, old(store).tracks@[j].id),
                ),
            forall|j: int|
                0 <= j < old(store).albums@.len() ==> spec_album_row_after(
                    #[trigger] old(store).albums@[j],
                    store.albums@[j],
                    spec_batch_path_for(rv.take(applied), ItemKind::Album, old(store).albums@[j].id),
                ),
            tracks_done as nat == spec_batch_successes(
                old(store).tracks@,
                old(store).albums@,
                rv.take(applied),
                ItemKind::Track,
            ),
            albums_done as nat == spec_batch_successes(
                old(store).tracks@,
                old(store).albums@,
                rv.take(applied),
                ItemKind::Album,
            ),
            tracks_done + albums_done <= applied,
            batches <= applied,
            errors@ == spec_row_errors(old(store).tracks@, old(store).albums@, rv.take(applied)),
            events@.len() == batches,
            forall|i: int|
                0 <= i < events@.len() ==> {
                    let p = (#[trigger] events@[i]).progress;
                    &&& p.total == total
                    &&& 1 <= p.batch_size <= 200
                    &&& p.current_batch == i + 1
                    &&& p.current <= tracks_done + albums_done
                    &&& p.current <= orig.len()
                    &&& p.estimated_time_remaining_ms as nat == spec_eta_millis(
                        p.current as nat,
                        total as nat,
                        crate::batch::spec_sat_mul(p.current as nat, ms_per_item as nat),
                    )
                },
            forall|i: int, j: int|
                0 <= i <= j < events@.len() ==> (#[trigger] events@[i]).progress.current <= (
                #[trigger] events@[j]).progress.current,
            errors@.len() == 0 ==> (forall|i: int, j: int|
                0 <= i < j < events@.len() ==> (#[trigger] events@[i]).progress.current < (
                #[trigger] events@[j]).progress.current),
            errors@.len() == 0 ==> (forall|i: int|
                0 <= i < events@.len() ==> 1 <= (#[trigger] events@[i]).progress.current),
        ensures
            applied == orig.len(),
        decreases orig.len() - applied,
    {
        // Refill the channel: eager producers push until it is full or
        // the extraction is exhausted.
        while !(results.len() == 0) && !(queue.len() >= MIGRATION_CHANNEL_CAPACITY)
            invariant
                0 <= applied <= taken <= orig.len(),
                results@ == orig.skip(taken),
                queue.wf(),
                queue.capacity() == MIGRATION_CHANNEL_CAPACITY as nat,
                queue.contents() == orig.subrange(applied, taken),
            decreases orig.len() - taken,
        {
            let item = results.remove(0);
            proof {
                assert(item == orig[taken]);
                assert(results@ =~= orig.skip(taken + 1));
            }
            match queue.try_send(item) {
                None => {
                    proof {
                        assert(queue.contents() =~= orig.subrange(applied, taken + 1));
                        taken = taken + 1;
                    }
                },
                Some(_) => {
                    proof {
                        assert(false);
                    }
                },
            }
        }
        if queue.len() == 0 {
            proof {
                assert(orig.subrange(applied, taken).len() == 0);
                assert(applied == taken);
                if results.len() == 0 {
                    assert(taken == orig.len());
                }
            }
            break;
        }
        // One adaptive batch: target size from progress and channel depth.
        let depth = queue.len();
        let done_so_far = tracks_done + albums_done;
        let bs = calculate_batch_size(done_so_far, total, depth);
        let mut pending: Vec<MigrationResult> = Vec::new();
        proof {
            assert(pending@ =~= orig.subrange(applied, applied + pending@.len()));
        }
        while pending.len() < bs && queue.len() > 0
            invariant
                0 <= applied,
                applied + pending@.len() <= taken <= orig.len(),
                bs <= 200,
                pending@.len() <= bs,
                pending@.len() > 0 || queue.contents().len() > 0,
                pending@ == orig.subrange(applied, applied + pending@.len()),
                queue.wf(),
                queue.capacity() == MIGRATION_CHANNEL_CAPACITY as nat,
                queue.contents() == orig.subrange(applied + pending@.len(), taken),
            decreases bs - pending@.len(),
        {
            match queue.recv() {
                Some(item) => {
                    proof {
                        assert(item == orig[applied + pending@.len()]);
                    }
                    pending.push(item);
                    proof {
                        assert(pending@ =~= orig.subrange(applied, applied + pending@.len()));
                        assert(queue.contents() =~= orig.subrange(
                            applied + pending@.len(),
                            taken,
                        ));
                    }
                },
                None => {
                    proof {
                        assert(false);
                    }
                },
            }
        }
        let pending_len = pending.len();
        proof {
            assert(pending_len >= 1);
        }
        let ghost tracks_mid = store.tracks@;
        let ghost albums_mid = store.albums@;
        let ghost pv = spec_result_views(pending@);
        let (btracks, balbums, mut berrors, bitems) = apply_migration_batch(store, &pending);
        let ghost old_applied = applied;
        proof {
            applied = applied + pending@.len();
            lemma_result_views_subrange(orig, old_applied, applied);
            assert(pending@ =~= orig.subrange(old_applied, applied));
            assert(pv == rv.subrange(old_applied, applied));
            assert(rv.take(old_applied) + rv.subrange(old_applied, applied) =~= rv.take(applied));
            lemma_batch_specs_congruent(
                tracks_mid,
                albums_mid,
                old(store).tracks@,
                old(store).albums@,
                pv,
            );
            lemma_batch_specs_concat(
                old(store).tracks@,
                old(store).albums@,
                rv.take(old_applied),
                pv,
            );
            lemma_successes_errors_partition(old(store).tracks@, old(store).albums@, pv);
            lemma_successes_errors_partition(tracks_mid, albums_mid, pv);
            assert forall|j: int| 0 <= j < old(store).tracks@.len() implies spec_track_row_after(
                #[trigger] old(store).tracks@[j],
                store.tracks@[j],
                spec_batch_path_for(rv.take(applied), ItemKind::Track, old(store).tracks@[j].id),
            ) by {
                lemma_track_row_compose(
                    old(store).tracks@[j],
                    tracks_mid[j],
                    store.tracks@[j],
                    spec_batch_path_for(
                        rv.take(old_applied),
                        ItemKind::Track,
                        old(store).tracks@[j].id,
                    ),
                    spec_batch_path_for(pv, ItemKind::Track, old(store).tracks@[j].id),
                );
                lemma_path_for_concat(
                    rv.take(old_applied),
                    pv,
                    ItemKind::Track,
                    old(store).tracks@[j].id,
                );
            }
            assert forall|j: int| 0 <= j < old(store).albums@.len() implies spec_album_row_after(
                #[trigger] old(store).albums@[j],
                store.albums@[j],
                spec_batch_path_for(rv.take(applied), ItemKind::Album, old(store).albums@[j].id),
            ) by {
                lemma_album_row_compose(
                    old(store).albums@[j],
                    albums_mid[j],
                    store.albums@[j],
                    spec_batch_path_for(
                        rv.take(old_applied),
                        ItemKind::Album,
                        old(store).albums@[j].id,
                    ),
                    spec_batch_path_for(pv, ItemKind::Album, old(store).albums@[j].id),
                );
                lemma_path_for_concat(
                    rv.take(old_applied),
                    pv,
                    ItemKind::Album,
                    old(store).albums@[j].id,
                );
            }
        }
        let ghost errors_before = errors@;
        tracks_done = tracks_done + btracks;
        albums_done = albums_done + balbums;
        let had_batch_errors = berrors.len() > 0;
        errors.append(&mut berrors);
        proof {
            assert(errors@ =~= spec_row_errors(
                old(store).tracks@,
                old(store).albums@,
                rv.take(applied),
            ));
        }
        batches = batches + 1;
        let done = tracks_done + albums_done;
        let done64 = done as u64;
        let elapsed = crate::batch::sat_mul_u64(done64, ms_per_item);
        let eta = eta_millis(done64, total as u64, elapsed);
        let ghost events_before = events@;
        events.push(
            MigrationBatchEvent {
                items: bitems,
                progress: MigrationProgressUpdate {
                    current: done,
                    total,
                    current_batch: batches,
                    batch_size: pending_len,
                    estimated_time_remaining_ms: eta,
                    tracks_migrated: tracks_done,
                    albums_migrated: albums_done,
                },
            },
        );
        proof {
            if errors@.len() == 0 {
                assert(errors_before.len() == 0);
                assert(btracks + balbums == pending@.len());
            }
        }
    }
    proof {
        assert(rv.take(applied) =~= rv);
    }
    (tracks_done, albums_done, errors, events)
}


/// How many track rows a run will migrate.
pub open spec fn spec_migratable_track_count(ts: Seq<Track>) -> nat
    decreases ts.len(),
{
    if ts.len() == 0 {
        0
    } else {
        spec_migratable_track_count(ts.drop_last()) + (if spec_track_migratable(ts.last()) {
            1nat
        } else {
            0nat
        })
    }
}

/// How many album rows a run will migrate.
pub open spec fn spec_migratable_album_count(als: Seq<Album>) -> nat
    decreases als.len(),
{
    if als.len() == 0 {
        0
    } else {
        spec_migratable_album_count(als.drop_last()) + (if spec_album_migratable(als.last()) {
            1nat
        } else {
            0nat
        })
    }
}

/// A track row after one run: a migratable row now carries the path of
/// its stored cover and is otherwise unchanged; every other row is
/// untouched.
pub open spec fn spec_track_migrated_row(t: Track, ft: Track) -> bool {
    if spec_track_migratable(t) {
        &&& ft.track_cover_path is Some
        &&& ft.track_cover_path->0@ == spec_cover_name(
            t.id as int,
            spec_transform_format(t.track_cover->0@),
        )
        &&& ft == track_with_cover_path(t, ft.track_cover_path)
    } else {
        ft == t
    }
}

/// An album row after one run.
pub open spec fn spec_album_migrated_row(a: Album, fa: Album) -> bool {
    if spec_album_migratable(a) {
        &&& fa.art_path is Some
        &&& fa.art_path->0@ == spec_cover_name(
            a.id as int,
            spec_transform_format(a.art_data->0@),
        )
        &&& fa == album_with_art_path(a, fa.art_path)
    } else {
        fa == a
    }
}

proof fn lemma_results_of_concat(
    s1: Seq<(ItemKind, i64, Seq<char>)>,
    s2: Seq<(ItemKind, i64, Seq<char>)>,
)
    ensures
        spec_results_of(s1 + s2) == spec_results_of(s1) + spec_results_of(s2),
        spec_item_errors(s1 + s2) == spec_item_errors(s1) + spec_item_errors(s2),
    decreases s2.len(),
{
    if s2.len() == 0 {
        assert(s1 + s2 =~= s1);
        assert(spec_results_of(s1) + spec_results_of(s2) =~= spec_results_of(s1));
        assert(spec_item_errors(s1) + spec_item_errors(s2) =~= spec_item_errors(s1));
    } else {
        assert((s1 + s2).last() == s2.last());
        assert((s1 + s2).drop_last() =~= s1 + s2.drop_last());
        lemma_results_of_concat(s1, s2.drop_last());
        assert(spec_results_of(s1 + s2) =~= spec_results_of(s1) + spec_results_of(s2));
        assert(spec_item_errors(s1 + s2) =~= spec_item_errors(s1) + spec_item_errors(s2));
    }
}

proof fn lemma_track_items_wf(ts: Seq<Track>)
    requires
        distinct_track_ids(ts),
    ensures
        forall|k: int|
            0 <= k < spec_track_items(ts).len() ==> (#[trigger] spec_track_items(ts)[k]).0
                == ItemKind::Track && spec_has_track_id(ts, spec_track_items(ts)[k].1),
        spec_distinct_item_ids(spec_track_items(ts)),
    decreases ts.len(),
{
    if ts.len() > 0 {
        let pre = ts.drop_last();
        assert(distinct_track_ids(pre)) by {
            assert(forall|i: int, j: int|
                0 <= i < j < pre.len() ==> pre[i] == ts[i] && pre[j] == ts[j]);
        }
        lemma_track_items_wf(pre);
        let items = spec_track_items(ts);
        let items_pre = spec_track_items(pre);
        assert forall|k: int| 0 <= k < items.len() implies (#[trigger] items[k]).0
            == ItemKind::Track && spec_has_track_id(ts, items[k].1) by {
            if k < items_pre.len() {
                assert(items[k] == items_pre[k]);
                let j = choose|j: int|
                    0 <= j < pre.len() && (#[trigger] pre[j]).id == items_pre[k].1;
                assert(ts[j].id == items[k].1);
            } else {
                assert(items[k].1 == ts.last().id);
                assert(ts[ts.len() - 1].id == items[k].1);
            }
        }
        assert forall|i: int, j: int| 0 <= i < j < items.len() implies !((#[trigger] items[i]).0
            == (#[trigger] items[j]).0 && items[i].1 == items[j].1) by {
            if j < items_pre.len() {
                assert(items[i] == items_pre[i] && items[j] == items_pre[j]);
            } else {
                assert(items[j].1 == ts.last().id);
                assert(items[i] == items_pre[i]);
                let m = choose|m: int|
                    0 <= m < pre.len() && (#[trigger] pre[m]).id == items_pre[i].1;
                assert(ts[m].id == items[i].1);
                assert(ts[m].id != ts[ts.len() - 1].id);
            }
        }
    }
}

proof fn lemma_album_items_wf(als: Seq<Album>)
    requires
        distinct_album_ids(als),
    ensures
        forall|k: int|
            0 <= k < spec_album_items(als).len() ==> (#[trigger] spec_album_items(als)[k]).0
                == ItemKind::Album && spec_has_album_id(als, spec_album_items(als)[k].1),
        spec_distinct_item_ids(spec_album_items(als)),
    decreases als.len(),
{
    if als.len() > 0 {
        let pre = als.drop_last();
        assert(distinct_album_ids(pre)) by {
            assert(forall|i: int, j: int|
                0 <= i < j < pre.len() ==> pre[i] == als[i] && pre[j] == als[j]);
        }
        lemma_album_items_wf(pre);
        let items = spec_album_items(als);
        let items_pre = spec_album_items(pre);
        assert forall|k: int| 0 <= k < items.len() implies (#[trigger] items[k]).0
            == ItemKind::Album && spec_has_album_id(als, items[k].1) by {
            if k < items_pre.len() {
                assert(items[k] == items_pre[k]);
                let j = choose|j: int|
                    0 <= j < pre.len() && (#[trigger] pre[j]).id == items_pre[k].1;
                assert(als[j].id == items[k].1);
            } else {
                assert(items[k].1 == als.last().id);
                assert(als[als.len() - 1].id == items[k].1);
            }
        }
        assert forall|i: int, j: int| 0 <= i < j < items.len() implies !((#[trigger] items[i]).0
            == (#[trigger] items[j]).0 && items[i].1 == items[j].1) by {
            if j < items_pre.len() {
                assert(items[i] == items_pre[i] && items[j] == items_pre[j]);
            } else {
                assert(items[j].1 == als.last().id);
                assert(items[i] == items_pre[i]);
                let m = choose|m: int|
                    0 <= m < pre.len() && (#[trigger] pre[m]).id == items_pre[i].1;
                assert(als[m].id == items[i].1);
                assert(als[m].id != als[als.len() - 1].id);
            }
        }
    }
}

proof fn lemma_path_for_wrong_kind(
    rv: Seq<(ItemKind, i64, Seq<char>)>,
    kind: ItemKind,
    id: i64,
)
    requires
        forall|k: int| 0 <= k < rv.len() ==> (#[trigger] rv[k]).0 != kind,
    ensures
        spec_batch_path_for(rv, kind, id) is None,
    decreases rv.len(),
{
    if rv.len() > 0 {
        lemma_path_for_wrong_kind(rv.drop_last(), kind, id);
    }
}

proof fn lemma_results_of_single(v: (ItemKind, i64, Seq<char>))
    ensures
        spec_results_of(seq![v]) == (match spec_blob_transform(v.2) {
            Some(tr) => seq![(v.0, v.1, spec_cover_name(v.1 as int, tr.1))],
            None => Seq::<(ItemKind, i64, Seq<char>)>::empty(),
        }),
{
    assert(seq![v].drop_last() =~= Seq::<(ItemKind, i64, Seq<char>)>::empty());
    assert(seq![v].last() == v);
    assert(spec_results_of(Seq::<(ItemKind, i64, Seq<char>)>::empty()) == Seq::<
        (ItemKind, i64, Seq<char>),
    >::empty());
    match spec_blob_transform(v.2) {
        Some(tr) => {
            assert(spec_results_of(seq![v]) =~= seq![
                (v.0, v.1, spec_cover_name(v.1 as int, tr.1)),
            ]);
        },
        None => {
            assert(spec_results_of(seq![v]) =~= Seq::<(ItemKind, i64, Seq<char>)>::empty());
        },
    }
}

proof fn lemma_path_for_step(
    rpre: Seq<(ItemKind, i64, Seq<char>)>,
    v: (ItemKind, i64, Seq<char>),
    kind: ItemKind,
    id: i64,
)
    ensures
        spec_batch_path_for(rpre + spec_results_of(seq![v]), kind, id) == (if v.0 == kind && v.1
            == id && spec_blob_transform(v.2) is Some {
            Some(spec_cover_name(v.1 as int, spec_transform_format(v.2)))
        } else {
            spec_batch_path_for(rpre, kind, id)
        }),
{
    lemma_results_of_single(v);
    lemma_path_for_concat(rpre, spec_results_of(seq![v]), kind, id);
    match spec_blob_transform(v.2) {
        Some(tr) => {
            let single = spec_results_of(seq![v]);
            assert(single.last() == (v.0, v.1, spec_cover_name(v.1 as int, tr.1)));
            assert(single.drop_last() =~= Seq::<(ItemKind, i64, Seq<char>)>::empty());
            assert(spec_batch_path_for(
                Seq::<(ItemKind, i64, Seq<char>)>::empty(),
                kind,
                id,
            ) is None);
        },
        None => {
            assert(spec_batch_path_for(
                Seq::<(ItemKind, i64, Seq<char>)>::empty(),
                kind,
                id,
            ) is None);
        },
    }
}

proof fn lemma_no_track_row_no_path(ts: Seq<Track>, id: i64)
    requires
        forall|j: int| 0 <= j < ts.len() ==> (#[trigger] ts[j]).id != id,
    ensures
        spec_batch_path_for(spec_results_of(spec_track_items(ts)), ItemKind::Track, id) is None,
    decreases ts.len(),
{
    if ts.len() > 0 {
        let pre = ts.drop_last();
        lemma_no_track_row_no_path(pre, id);
        if spec_track_eligible(ts.last()) {
            let v = (ItemKind::Track, ts.last().id, ts.last().track_cover->0@);
            assert(spec_track_items(ts) == spec_track_items(pre) + seq![v]);
            lemma_results_of_concat(spec_track_items(pre), seq![v]);
            lemma_path_for_step(spec_results_of(spec_track_items(pre)), v, ItemKind::Track, id);
            assert(ts[ts.len() - 1].id != id);
        } else {
            assert(spec_track_items(ts) =~= spec_track_items(pre));
        }
    }
}

proof fn lemma_no_album_row_no_path(als: Seq<Album>, id: i64)
    requires
        forall|j: int| 0 <= j < als.len() ==> (#[trigger] als[j]).id != id,
    ensures
        spec_batch_path_for(spec_results_of(spec_album_items(als)), ItemKind::Album, id) is None,
    decreases als.len(),
{
    if als.len() > 0 {
        let pre = als.drop_last();
        lemma_no_album_row_no_path(pre, id);
        if spec_album_eligible(als.last()) {
            let v = (ItemKind::Album, als.last().id, als.last().art_data->0@);
            assert(spec_album_items(als) == spec_album_items(pre) + seq![v]);
            lemma_results_of_concat(spec_album_items(pre), seq![v]);
            lemma_path_for_step(spec_results_of(spec_album_items(pre)), v, ItemKind::Album, id);
            assert(als[als.len() - 1].id != id);
        } else {
            assert(spec_album_items(als) =~= spec_album_items(pre));
        }
    }
}

proof fn lemma_track_path_for_row(ts: Seq<Track>, j: int)
    requires
        distinct_track_ids(ts),
        0 <= j < ts.len(),
    ensures
        spec_batch_path_for(spec_results_of(spec_track_items(ts)), ItemKind::Track, ts[j].id)
            == (if spec_track_migratable(ts[j]) {
            Some(
                spec_cover_name(ts[j].id as int, spec_transform_format(ts[j].track_cover->0@)),
            )
        } else {
            None
        }),
    decreases ts.len(),
{
    let pre = ts.drop_last();
    assert(distinct_track_ids(pre)) by {
        assert(forall|i: int, m: int|
            0 <= i < m < pre.len() ==> pre[i] == ts[i] && pre[m] == ts[m]);
    }
    if spec_track_eligible(ts.last()) {
        let v = (ItemKind::Track, ts.last().id, ts.last().track_cover->0@);
        assert(spec_track_items(ts) == spec_track_items(pre) + seq![v]);
        lemma_results_of_concat(spec_track_items(pre), seq![v]);
        lemma_path_for_step(spec_results_of(spec_track_items(pre)), v, ItemKind::Track, ts[j].id);
    } else {
        assert(spec_track_items(ts) =~= spec_track_items(pre));
    }
    if j == ts.len() - 1 {
        assert(forall|m: int| 0 <= m < pre.len() ==> (#[trigger] pre[m]).id != ts[j].id);
        lemma_no_track_row_no_path(pre, ts[j].id);
    } else {
        assert(ts[j] == pre[j]);
        lemma_track_path_for_row(pre, j);
        assert(ts[ts.len() - 1].id != ts[j].id);
    }
}

proof fn lemma_album_path_for_row(als: Seq<Album>, j: int)
    requires
        distinct_album_ids(als),
        0 <= j < als.len(),
    ensures
        spec_batch_path_for(spec_results_of(spec_album_items(als)), ItemKind::Album, als[j].id)
            == (if spec_album_migratable(als[j]) {
            Some(spec_cover_name(als[j].id as int, spec_transform_format(als[j].art_data->0@)))
        } else {
            None
        }),
    decreases als.len(),
{
    let pre = als.drop_last();
    assert(distinct_album_ids(pre)) by {
        assert(forall|i: int, m: int|
            0 <= i < m < pre.len() ==> pre[i] == als[i] && pre[m] == als[m]);
    }
    if spec_album_eligible(als.last()) {
        let v = (ItemKind::Album, als.last().id, als.last().art_data->0@);
        assert(spec_album_items(als) == spec_album_items(pre) + seq![v]);
        lemma_results_of_concat(spec_album_items(pre), seq![v]);
        lemma_path_for_step(spec_results_of(spec_album_items(pre)), v, ItemKind::Album, als[j].id);
    } else {
        assert(spec_album_items(als) =~= spec_album_items(pre));
    }
    if j == als.len() - 1 {
        assert(forall|m: int| 0 <= m < pre.len() ==> (#[trigger] pre[m]).id != als[j].id);
        lemma_no_album_row_no_path(pre, als[j].id);
    } else {
        assert(als[j] == pre[j]);
        lemma_album_path_for_row(pre, j);
        assert(als[als.len() - 1].id != als[j].id);
    }
}

proof fn lemma_track_results_count(ts: Seq<Track>)
    requires
        distinct_track_ids(ts),
    ensures
        spec_results_of(spec_track_items(ts)).len() == spec_migratable_track_count(ts),
        forall|k: int|
            0 <= k < spec_results_of(spec_track_items(ts)).len() ==> (
            #[trigger] spec_results_of(spec_track_items(ts))[k]).0 == ItemKind::Track
                && spec_has_track_id(ts, spec_results_of(spec_track_items(ts))[k].1),
    decreases ts.len(),
{
    if ts.len() > 0 {
        let pre = ts.drop_last();
        assert(distinct_track_ids(pre)) by {
            assert(forall|i: int, m: int|
                0 <= i < m < pre.len() ==> pre[i] == ts[i] && pre[m] == ts[m]);
        }
        lemma_track_results_count(pre);
        let rpre = spec_results_of(spec_track_items(pre));
        let rall = spec_results_of(spec_track_items(ts));
        if spec_track_eligible(ts.last()) {
            let v = (ItemKind::Track, ts.last().id, ts.last().track_cover->0@);
            assert(spec_track_items(ts) == spec_track_items(pre) + seq![v]);
            lemma_results_of_concat(spec_track_items(pre), seq![v]);
            lemma_results_of_single(v);
        } else {
            assert(spec_track_items(ts) =~= spec_track_items(pre));
        }
        assert forall|k: int| 0 <= k < rall.len() implies (#[trigger] rall[k]).0
            == ItemKind::Track && spec_has_track_id(ts, rall[k].1) by {
            if k < rpre.len() {
                assert(rall[k] == rpre[k]);
                let m = choose|m: int|
                    0 <= m < pre.len() && (#[trigger] pre[m]).id == rpre[k].1;
                assert(ts[m].id == rall[k].1);
            } else {
                assert(rall[k].1 == ts.last().id);
                assert(ts[ts.len() - 1].id == rall[k].1);
            }
        }
    }
}

proof fn lemma_album_results_count(als: Seq<Album>)
    requires
        distinct_album_ids(als),
    ensures
        spec_results_of(spec_album_items(als)).len() == spec_migratable_album_count(als),
        forall|k: int|
            0 <= k < spec_results_of(spec_album_items(als)).len() ==> (
            #[trigger] spec_results_of(spec_album_items(als))[k]).0 == ItemKind::Album
                && spec_has_album_id(als, spec_results_of(spec_album_items(als))[k].1),
    decreases als.len(),
{
    if als.len() > 0 {
        let pre = als.drop_last();
        assert(distinct_album_ids(pre)) by {
            assert(forall|i: int, m: int|
                0 <= i < m < pre.len() ==> pre[i] == als[i] && pre[m] == als[m]);
        }
        lemma_album_results_count(pre);
        let rpre = spec_results_of(spec_album_items(pre));
        let rall = spec_results_of(spec_album_items(als));
        if spec_album_eligible(als.last()) {
            let v = (ItemKind::Album, als.last().id, als.last().art_data->0@);
            assert(spec_album_items(als) == spec_album_items(pre) + seq![v]);
            lemma_results_of_concat(spec_album_items(pre), seq![v]);
            lemma_results_of_single(v);
        } else {
            assert(spec_album_items(als) =~= spec_album_items(pre));
        }
        assert forall|k: int| 0 <= k < rall.len() implies (#[trigger] rall[k]).0
            == ItemKind::Album && spec_has_album_id(als, rall[k].1) by {
            if k < rpre.len() {
                assert(rall[k] == rpre[k]);
                let m = choose|m: int|
                    0 <= m < pre.len() && (#[trigger] pre[m]).id == rpre[k].1;
                assert(als[m].id == rall[k].1);
            } else {
                assert(rall[k].1 == als.last().id);
                assert(als[als.len() - 1].id == rall[k].1);
            }
        }
    }
}

pub(crate) proof fn lemma_successes_when_found(
    ts: Seq<Track>,
    als: Seq<Album>,
    rv: Seq<(ItemKind, i64, Seq<char>)>,
)
    requires
        forall|k: int| 0 <= k < rv.len() ==> spec_entry_has_row(ts, als, #[trigger] rv[k]),
    ensures
        spec_row_errors(ts, als, rv) == Seq::<MigrationError>::empty(),
        spec_batch_successes(ts, als, rv, ItemKind::Track) + spec_batch_successes(
            ts,
            als,
            rv,
            ItemKind::Album,
        ) == rv.len(),
    decreases rv.len(),
{
    if rv.len() > 0 {
        lemma_successes_when_found(ts, als, rv.drop_last());
        assert(spec_row_errors(ts, als, rv) =~= Seq::<MigrationError>::empty());
    }
}

pub(crate) proof fn lemma_successes_kind_count(
    ts: Seq<Track>,
    als: Seq<Album>,
    rv: Seq<(ItemKind, i64, Seq<char>)>,
    kind: ItemKind,
)
    requires
        forall|k: int|
            0 <= k < rv.len() ==> (#[trigger] rv[k]).0 == kind && spec_entry_has_row(
                ts,
                als,
                rv[k],
            ),
    ensures
        spec_batch_successes(ts, als, rv, kind) == rv.len(),
    decreases rv.len(),
{
    if rv.len() > 0 {
        lemma_successes_kind_count(ts, als, rv.drop_last(), kind);
    }
}

pub(crate) proof fn lemma_successes_other_kind(
    ts: Seq<Track>,
    als: Seq<Album>,
    rv: Seq<(ItemKind, i64, Seq<char>)>,
    kind: ItemKind,
)
    requires
        forall|k: int| 0 <= k < rv.len() ==> (#[trigger] rv[k]).0 != kind,
    ensures
        spec_batch_successes(ts, als, rv, kind) == 0,
    decreases rv.len(),
{
    if rv.len() > 0 {
        lemma_successes_other_kind(ts, als, rv.drop_last(), kind);
    }
}

proof fn lemma_migratable_track_count_zero(ts: Seq<Track>)
    requires
        forall|j: int| 0 <= j < ts.len() ==> !spec_track_migratable(#[trigger] ts[j]),
    ensures
        spec_migratable_track_count(ts) == 0,
    decreases ts.len(),
{
    if ts.len() > 0 {
        lemma_migratable_track_count_zero(ts.drop_last());
        assert(!spec_track_migratable(ts[ts.len() - 1]));
    }
}

proof fn lemma_migratable_album_count_zero(als: Seq<Album>)
    requires
        forall|j: int| 0 <= j < als.len() ==> !spec_album_migratable(#[trigger] als[j]),
    ensures
        spec_migratable_album_count(als) == 0,
    decreases als.len(),
{
    if als.len() > 0 {
        lemma_migratable_album_count_zero(als.drop_last());
        assert(!spec_album_migratable(als[als.len() - 1]));
    }
}

/// Idempotence of the migration: a store in which every row has been
/// through one run has nothing left to migrate, so a second run processes
/// zero items.
pub proof fn lemma_migration_idempotent(s_old: Store, s_new: Store)
    requires
        s_old.tracks@.len() == s_new.tracks@.len(),
        s_old.albums@.len() == s_new.albums@.len(),
        forall|j: int|
            0 <= j < s_old.tracks@.len() ==> spec_track_migrated_row(
                #[trigger] s_old.tracks@[j],
                s_new.tracks@[j],
            ),
        forall|j: int|
            0 <= j < s_old.albums@.len() ==> spec_album_migrated_row(
                #[trigger] s_old.albums@[j],
                s_new.albums@[j],
            ),
    ensures
        spec_migratable_track_count(s_new.tracks@) == 0,
        spec_migratable_album_count(s_new.albums@) == 0,
{
    assert forall|j: int| 0 <= j < s_new.tracks@.len() implies !spec_track_migratable(
        #[trigger] s_new.tracks@[j],
    ) by {
        assert(spec_track_migrated_row(s_old.tracks@[j], s_new.tracks@[j]));
    }
    assert forall|j: int| 0 <= j < s_new.albums@.len() implies !spec_album_migratable(
        #[trigger] s_new.albums@[j],
    ) by {
        assert(spec_album_migrated_row(s_old.albums@[j], s_new.albums@[j]));
    }
    lemma_migratable_track_count_zero(s_new.tracks@);
    lemma_migratable_album_count_zero(s_new.albums@);
}


proof fn lemma_track_item_of_row(ts: Seq<Track>, j: int)
    requires
        0 <= j < ts.len(),
        spec_track_eligible(ts[j]),
    ensures
        exists|k: int|
            0 <= k < spec_track_items(ts).len() && #[trigger] spec_track_items(ts)[k] == (
                ItemKind::Track,
                ts[j].id,
                ts[j].track_cover->0@,
            ),
    decreases ts.len(),
{
    let pre = ts.drop_last();
    let items = spec_track_items(ts);
    if j == ts.len() - 1 {
        assert(items[items.len() - 1] == (ItemKind::Track, ts[j].id, ts[j].track_cover->0@));
    } else {
        assert(pre[j] == ts[j]);
        lemma_track_item_of_row(pre, j);
        let k = choose|k: int|
            0 <= k < spec_track_items(pre).len() && #[trigger] spec_track_items(pre)[k] == (
                ItemKind::Track,
                pre[j].id,
                pre[j].track_cover->0@,
            );
        assert(items[k] == spec_track_items(pre)[k]);
    }
}

proof fn lemma_album_item_of_row(als: Seq<Album>, j: int)
    requires
        0 <= j < als.len(),
        spec_album_eligible(als[j]),
    ensures
        exists|k: int|
            0 <= k < spec_album_items(als).len() && #[trigger] spec_album_items(als)[k] == (
                ItemKind::Album,
                als[j].id,
                als[j].art_data->0@,
            ),
    decreases als.len(),
{
    let pre = als.drop_last();
    let items = spec_album_items(als);
    if j == als.len() - 1 {
        assert(items[items.len() - 1] == (ItemKind::Album, als[j].id, als[j].art_data->0@));
    } else {
        assert(pre[j] == als[j]);
        lemma_album_item_of_row(pre, j);
        let k = choose|k: int|
            0 <= k < spec_album_items(pre).len() && #[trigger] spec_album_items(pre)[k] == (
                ItemKind::Album,
                pre[j].id,
                pre[j].art_data->0@,
            );
        assert(items[k] == spec_album_items(pre)[k]);
    }
}

/// One full migration run: enumerate the eligible rows, transform every
/// blob and write its cover file, commit the new paths in adaptive
/// batches, and return the terminal summary together with the progress
/// snapshots emitted after each batch.  The modelled clock advances
/// `ms_per_item` milliseconds per committed item.
pub fn migrate_covers_to_files(
    store: &mut Store,
    tracks_dir: &mut CoverDir,
    albums_dir: &mut CoverDir,
    ms_per_item: u64,
) -> (r: (MigrationProgress, Vec<MigrationBatchEvent>))
    requires
        old(store).wf(),
        old(tracks_dir).wf(),
        old(albums_dir).wf(),
    ensures
        final(store).wf(),
        final(tracks_dir).wf(),
        final(albums_dir).wf(),
        final(store).tracks@.len() == old(store).tracks@.len(),
        final(store).albums@.len() == old(store).albums@.len(),
        forall|j: int|
            0 <= j < old(store).tracks@.len() ==> spec_track_migrated_row(
                #[trigger] old(store).tracks@[j],
                final(store).tracks@[j],
            ),
        forall|j: int|
            0 <= j < old(store).albums@.len() ==> spec_album_migrated_row(
                #[trigger] old(store).albums@[j],
                final(store).albums@[j],
            ),
        forall|j: int|
            0 <= j < old(store).tracks@.len() && spec_track_migratable(
                #[trigger] old(store).tracks@[j],
            ) ==> crate::files::spec_file_content_is(
                final(tracks_dir).files@,
                spec_cover_name(
                    old(store).tracks@[j].id as int,
                    spec_transform_format(old(store).tracks@[j].track_cover->0@),
                ),
                spec_transform_bytes(old(store).tracks@[j].track_cover->0@),
            ),
        forall|j: int|
            0 <= j < old(store).albums@.len() && spec_album_migratable(
                #[trigger] old(store).albums@[j],
            ) ==> crate::files::spec_file_content_is(
                final(albums_dir).files@,
                spec_cover_name(
                    old(store).albums@[j].id as int,
                    spec_transform_format(old(store).albums@[j].art_data->0@),
                ),
                spec_transform_bytes(old(store).albums@[j].art_data->0@),
            ),
        forall|idx: int|
            0 <= idx < old(tracks_dir).files@.len() && !spec_items_write_name(
                spec_track_items(old(store).tracks@) + spec_album_items(old(store).albums@),
                ItemKind::Track,
                (#[trigger] old(tracks_dir).files@[idx]).name@,
            ) ==> final(tracks_dir).files@[idx] == old(tracks_dir).files@[idx],
        forall|idx: int|
            0 <= idx < old(albums_dir).files@.len() && !spec_items_write_name(
                spec_track_items(old(store).tracks@) + spec_album_items(old(store).albums@),
                ItemKind::Album,
                (#[trigger] old(albums_dir).files@[idx]).name@,
            ) ==> final(albums_dir).files@[idx] == old(albums_dir).files@[idx],
        r.0.total as nat == spec_track_items(old(store).tracks@).len() + spec_album_items(
            old(store).albums@,
        ).len(),
        r.0.tracks_migrated as nat == spec_migratable_track_count(old(store).tracks@),
        r.0.albums_migrated as nat == spec_migratable_album_count(old(store).albums@),
        r.0.processed == r.0.tracks_migrated + r.0.albums_migrated,
        r.0.errors@ == spec_item_errors(
            spec_track_items(old(store).tracks@) + spec_album_items(old(store).albums@),
        ),
        spec_migratable_track_count(final(store).tracks@) == 0,
        spec_migratable_album_count(final(store).albums@) == 0,
        forall|i: int|
            0 <= i < r.1@.len() ==> {
                let p = (#[trigger] r.1@[i]).progress;
                &&& p.total == r.0.total
                &&& 1 <= p.batch_size <= 200
                &&& p.current_batch == i + 1
                &&& 1 <= p.current <= r.0.processed
                &&& p.estimated_time_remaining_ms as nat == spec_eta_millis(
                    p.current as nat,
                    r.0.total as nat,
                    crate::batch::spec_sat_mul(p.current as nat, ms_per_item as nat),
                )
            },
        forall|i: int, j: int|
            0 <= i < j < r.1@.len() ==> (#[trigger] r.1@[i]).progress.current < (
            #[trigger] r.1@[j]).progress.current,
{
    let ghost ots = old(store).tracks@;
    let ghost oas = old(store).albums@;
    let ghost ti = spec_track_items(ots);
    let ghost ai = spec_album_items(oas);
    let items = enumerate_work_items(store);
    let total = items.len();
    proof {
        lemma_track_items_wf(ots);
        lemma_album_items_wf(oas);
        let vs = spec_item_views(items@);
        assert(vs == ti + ai);
        assert forall|i: int, j: int| 0 <= i < j < vs.len() implies !((#[trigger] vs[i]).0 == (
        #[trigger] vs[j]).0 && vs[i].1 == vs[j].1) by {
            if i < ti.len() && j < ti.len() {
                assert(vs[i] == ti[i] && vs[j] == ti[j]);
            } else if i < ti.len() && j >= ti.len() {
                assert(vs[i] == ti[i] && vs[j] == ai[j - ti.len()]);
            } else {
                assert(vs[i] == ai[i - ti.len()] && vs[j] == ai[j - ti.len()]);
            }
        }
    }
    let (results, mut item_errors) = transform_stage(&items, tracks_dir, albums_dir);
    let ghost vs = spec_item_views(items@);
    let ghost rv = spec_result_views(results@);
    let n_results = results.len();
    proof {
        assert(n_results as int == results@.len());
        lemma_item_views_len(items@);
        lemma_result_views_take(results@, 0);
        lemma_results_of_concat(ti, ai);
        lemma_track_results_count(ots);
        lemma_album_results_count(oas);
    }
    let ghost rt = spec_results_of(ti);
    let ghost ra = spec_results_of(ai);
    let (tracks_migrated, albums_migrated, mut row_errors, events) = assemble_batches(
        results,
        store,
        total,
        ms_per_item,
    );
    proof {
        assert(rv == rt + ra);
        // Every result entry finds its row, so the batches commit cleanly.
        assert forall|k: int| 0 <= k < rv.len() implies spec_entry_has_row(
            ots,
            oas,
            #[trigger] rv[k],
        ) by {
            if k < rt.len() {
                assert(rv[k] == rt[k]);
            } else {
                assert(rv[k] == ra[k - rt.len()]);
            }
        }
        lemma_successes_when_found(ots, oas, rv);
        lemma_batch_specs_concat(ots, oas, rt, ra);
        assert forall|k: int| 0 <= k < rt.len() implies (#[trigger] rt[k]).0 == ItemKind::Track
            && spec_entry_has_row(ots, oas, rt[k]) by {}
        lemma_successes_kind_count(ots, oas, rt, ItemKind::Track);
        lemma_successes_other_kind(ots, oas, ra, ItemKind::Track);
        lemma_successes_kind_count(ots, oas, ra, ItemKind::Album);
        lemma_successes_other_kind(ots, oas, rt, ItemKind::Album);
        // Per-row outcome: what the batches assign to each row.
        assert forall|j: int| 0 <= j < ots.len() implies spec_track_migrated_row(
            #[trigger] ots[j],
            store.tracks@[j],
        ) by {
            lemma_path_for_wrong_kind(ra, ItemKind::Track, ots[j].id);
            lemma_path_for_concat(rt, ra, ItemKind::Track, ots[j].id);
            lemma_track_path_for_row(ots, j);
        }
        assert forall|j: int| 0 <= j < oas.len() implies spec_album_migrated_row(
            #[trigger] oas[j],
            store.albums@[j],
        ) by {
            lemma_path_for_wrong_kind(rt, ItemKind::Album, oas[j].id);
            lemma_path_for_concat(rt, ra, ItemKind::Album, oas[j].id);
            lemma_album_path_for_row(oas, j);
        }
        lemma_migration_idempotent(
            Store { tracks: old(store).tracks, albums: old(store).albums },
            Store { tracks: store.tracks, albums: store.albums },
        );
        // The files each migratable row's cover was written to.
        assert forall|j: int|
            0 <= j < ots.len() && spec_track_migratable(
                #[trigger] ots[j],
            ) implies crate::files::spec_file_content_is(
            tracks_dir.files@,
            spec_cover_name(ots[j].id as int, spec_transform_format(ots[j].track_cover->0@)),
            spec_transform_bytes(ots[j].track_cover->0@),
        ) by {
            lemma_track_item_of_row(ots, j);
            let k = choose|k: int|
                0 <= k < ti.len() && #[trigger] ti[k] == (
                    ItemKind::Track,
                    ots[j].id,
                    ots[j].track_cover->0@,
                );
            assert(vs[k] == ti[k]);
        }
        assert forall|j: int|
            0 <= j < oas.len() && spec_album_migratable(
                #[trigger] oas[j],
            ) implies crate::files::spec_file_content_is(
            albums_dir.files@,
            spec_cover_name(oas[j].id as int, spec_transform_format(oas[j].art_data->0@)),
            spec_transform_bytes(oas[j].art_data->0@),
        ) by {
            lemma_album_item_of_row(oas, j);
            let k = choose|k: int|
                0 <= k < ai.len() && #[trigger] ai[k] == (
                    ItemKind::Album,
                    oas[j].id,
                    oas[j].art_data->0@,
                );
            assert(vs[ti.len() + k] == ai[k]);
        }
    }
    let ghost row_errors_view = row_errors@;
    item_errors.append(&mut row_errors);
    proof {
        assert(row_errors_view =~= Seq::<MigrationError>::empty());
        assert(item_errors@ =~= spec_item_errors(ti + ai));
    }
    proof {
        assert(tracks_migrated + albums_migrated == n_results as int);
    }
    let processed = tracks_migrated + albums_migrated;
    let summary = MigrationProgress {
        total,
        processed,
        tracks_migrated,
        albums_migrated,
        errors: item_errors,
    };
    (summary, events)
}

} // verus!
