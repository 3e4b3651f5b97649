//! Path synchronisation: rebuild the path columns from the cover files
//! already on disk.  The directories are scanned for image files whose
//! stem is a row id, and the resulting updates are committed through the
//! same batched assembler as the migration.

use vstd::prelude::*;
use crate::batch::{spec_eta_millis, spec_sat_mul};
use crate::digits::parse_i64_spec;
use crate::files::{CoverDir, CoverFile, spec_ext, spec_stem, find_last_dot};
use crate::migrate::{
    assemble_batches, spec_batch_path_for, spec_has_album_id, spec_has_track_id,
    spec_result_views, spec_track_row_after, spec_album_row_after, ItemKind, MigrationBatchEvent,
    MigrationError, MigrationProgress, MigrationResult, lemma_batch_specs_concat,
    lemma_result_views_take, lemma_successes_kind_count,
    lemma_successes_other_kind, lemma_successes_when_found,
};
use crate::store::{Album, Track};
use crate::scan::spec_supported_image_ext;
use crate::store::Store;
use crate::strings::str_chars;

verus! {

/// The row id a stored file name syncs to: present when the extension is
/// an image extension (case folded) and the stem parses as an id.
pub open spec fn spec_sync_id(name: Seq<char>) -> Option<i64> {
    match spec_ext(name) {
        Some(e) => {
            if spec_supported_image_ext(e) {
                parse_i64_spec(spec_stem(name))
            } else {
                None
            }
        },
        None => None,
    }
}

/// The (name, id) pairs a directory scan yields, in listing order.
pub open spec fn spec_sync_views(fs: Seq<CoverFile>) -> Seq<(Seq<char>, i64)>
    decreases fs.len(),
{
    if fs.len() == 0 {
        Seq::empty()
    } else {
        spec_sync_views(fs.drop_last()) + (match spec_sync_id(fs.last().name@) {
            Some(id) => seq![(fs.last().name@, id)],
            None => Seq::empty(),
        })
    }
}

/// The abstract contents of the scanned entries.
pub open spec fn spec_entry_views(es: Seq<(String, i64)>) -> Seq<(Seq<char>, i64)>
    decreases es.len(),
{
    if es.len() == 0 {
        Seq::empty()
    } else {
        spec_entry_views(es.drop_last()).push((es.last().0@, es.last().1))
    }
}

/// The scanned entries as transform results for one table.
pub open spec fn spec_with_kind(vs: Seq<(Seq<char>, i64)>, kind: ItemKind) -> Seq<
    (ItemKind, i64, Seq<char>),
> {
    Seq::new(vs.len(), |i: int| (kind, vs[i].1, vs[i].0))
}

/// The scanned pairs whose id has a track row: a pair whose row no
/// longer exists is silently skipped, since a path update that matches no
/// row is no failure.
pub open spec fn spec_track_present_views(vs: Seq<(Seq<char>, i64)>, ts: Seq<Track>) -> Seq<
    (Seq<char>, i64),
>
    decreases vs.len(),
{
    if vs.len() == 0 {
        Seq::empty()
    } else {
        spec_track_present_views(vs.drop_last(), ts) + (if spec_has_track_id(ts, vs.last().1) {
            seq![vs.last()]
        } else {
            Seq::empty()
        })
    }
}

/// The scanned pairs whose id has an album row.
pub open spec fn spec_album_present_views(vs: Seq<(Seq<char>, i64)>, als: Seq<Album>) -> Seq<
    (Seq<char>, i64),
>
    decreases vs.len(),
{
    if vs.len() == 0 {
        Seq::empty()
    } else {
        spec_album_present_views(vs.drop_last(), als) + (if spec_has_album_id(als, vs.last().1) {
            seq![vs.last()]
        } else {
            Seq::empty()
        })
    }
}

proof fn lemma_entry_views_take(es: Seq<(String, i64)>, i: int)
    requires
        0 <= i <= es.len(),
    ensures
        spec_entry_views(es).len() == es.len(),
        spec_entry_views(es.take(i)) == spec_entry_views(es).take(i),
    decreases es.len(),
{
    lemma_entry_views_len(es);
    if es.len() > 0 {
        lemma_entry_views_take(es.drop_last(), if i < es.len() {
            i
        } else {
            i - 1
        });
        if i < es.len() {
            assert(es.take(i) =~= es.drop_last().take(i));
            assert(spec_entry_views(es).take(i) =~= spec_entry_views(es.drop_last()).take(i));
        } else {
            assert(es.take(i) =~= es);
            assert(spec_entry_views(es).take(i) =~= spec_entry_views(es));
        }
    } else {
        assert(es.take(i) =~= es);
        assert(spec_entry_views(es).take(i) =~= spec_entry_views(es));
    }
}

/// Every pair the filter keeps has its row.
proof fn lemma_track_present_found(vs: Seq<(Seq<char>, i64)>, ts: Seq<Track>)
    ensures
        spec_track_present_views(vs, ts).len() <= vs.len(),
        forall|k: int|
            0 <= k < spec_track_present_views(vs, ts).len() ==> spec_has_track_id(
                ts,
                (#[trigger] spec_track_present_views(vs, ts)[k]).1,
            ),
    decreases vs.len(),
{
    if vs.len() > 0 {
        lemma_track_present_found(vs.drop_last(), ts);
    }
}

/// Every pair the filter keeps has its row.
proof fn lemma_album_present_found(vs: Seq<(Seq<char>, i64)>, als: Seq<Album>)
    ensures
        spec_album_present_views(vs, als).len() <= vs.len(),
        forall|k: int|
            0 <= k < spec_album_present_views(vs, als).len() ==> spec_has_album_id(
                als,
                (#[trigger] spec_album_present_views(vs, als)[k]).1,
            ),
    decreases vs.len(),
{
    if vs.len() > 0 {
        lemma_album_present_found(vs.drop_last(), als);
    }
}

fn filter_present_tracks(entries: &Vec<(String, i64)>, tracks: &Vec<Track>) -> (r: Vec<
    (String, i64),
>)
    ensures
        spec_entry_views(r@) == spec_track_present_views(spec_entry_views(entries@), tracks@),
{
    let ghost ev = spec_entry_views(entries@);
    let mut out: Vec<(String, i64)> = Vec::new();
    let mut i: usize = 0;
    proof {
        lemma_entry_views_take(entries@, 0);
        assert(ev.take(0) =~= Seq::<(Seq<char>, i64)>::empty());
        assert(spec_entry_views(out@) =~= spec_track_present_views(ev.take(0), tracks@));
    }
    while i < entries.len()
        invariant
            i <= entries@.len(),
            ev == spec_entry_views(entries@),
            ev.len() == entries@.len(),
            spec_entry_views(out@) == spec_track_present_views(ev.take(i as int), tracks@),
        decreases entries@.len() - i,
    {
        proof {
            lemma_entry_views_index(entries@, i as int);
            assert(ev.take(i + 1).drop_last() =~= ev.take(i as int));
            assert(ev.take(i + 1).last() == ev[i as int]);
        }
        match crate::store::find_track_index(tracks, entries[i].1) {
            Some(_) => {
                let ghost prev = out@;
                out.push((entries[i].0.clone(), entries[i].1));
                proof {
                    assert(out@.drop_last() =~= prev);
                    assert(spec_entry_views(out@) == spec_entry_views(prev).push(
                        (out@.last().0@, out@.last().1),
                    ));
                    assert(spec_has_track_id(tracks@, ev[i as int].1));
                    assert(spec_entry_views(out@) =~= spec_track_present_views(
                        ev.take(i + 1),
                        tracks@,
                    ));
                }
            },
            None => {
                proof {
                    assert(!spec_has_track_id(tracks@, ev[i as int].1));
                    assert(spec_entry_views(out@) =~= spec_track_present_views(
                        ev.take(i + 1),
                        tracks@,
                    ));
                }
            },
        }
        i = i + 1;
    }
    proof {
        assert(ev.take(ev.len() as int) =~= ev);
    }
    out
}

fn filter_present_albums(entries: &Vec<(String, i64)>, albums: &Vec<Album>) -> (r: Vec<
    (String, i64),
>)
    ensures
        spec_entry_views(r@) == spec_album_present_views(spec_entry_views(entries@), albums@),
{
    let ghost ev = spec_entry_views(entries@);
    let mut out: Vec<(String, i64)> = Vec::new();
    let mut i: usize = 0;
    proof {
        lemma_entry_views_take(entries@, 0);
        assert(ev.take(0) =~= Seq::<(Seq<char>, i64)>::empty());
        assert(spec_entry_views(out@) =~= spec_album_present_views(ev.take(0), albums@));
    }
    while i < entries.len()
        invariant
            i <= entries@.len(),
            ev == spec_entry_views(entries@),
            ev.len() == entries@.len(),
            spec_entry_views(out@) == spec_album_present_views(ev.take(i as int), albums@),
        decreases entries@.len() - i,
    {
        proof {
            lemma_entry_views_index(entries@, i as int);
            assert(ev.take(i + 1).drop_last() =~= ev.take(i as int));
            assert(ev.take(i + 1).last() == ev[i as int]);
        }
        match crate::store::find_album_index(albums, entries[i].1) {
            Some(_) => {
                let ghost prev = out@;
                out.push((entries[i].0.clone(), entries[i].1));
                proof {
                    assert(out@.drop_last() =~= prev);
                    assert(spec_entry_views(out@) == spec_entry_views(prev).push(
                        (out@.last().0@, out@.last().1),
                    ));
                    assert(spec_has_album_id(albums@, ev[i as int].1));
                    assert(spec_entry_views(out@) =~= spec_album_present_views(
                        ev.take(i + 1),
                        albums@,
                    ));
                }
            },
            None => {
                proof {
                    assert(!spec_has_album_id(albums@, ev[i as int].1));
                    assert(spec_entry_views(out@) =~= spec_album_present_views(
                        ev.take(i + 1),
                        albums@,
                    ));
                }
            },
        }
        i = i + 1;
    }
    proof {
        assert(ev.take(ev.len() as int) =~= ev);
    }
    out
}

/// List the stored covers a directory can sync from: every file with an
/// image extension whose stem is a row id, paired with that id.
pub fn scan_covers_directory(dir: &CoverDir) -> (r: Vec<(String, i64)>)
    ensures
        spec_entry_views(r@) == spec_sync_views(dir.files@),
{
    let mut out: Vec<(String, i64)> = Vec::new();
    let mut i: usize = 0;
    proof {
        assert(dir.files@.take(0) =~= Seq::<CoverFile>::empty());
        assert(spec_entry_views(out@) =~= spec_sync_views(dir.files@.take(0)));
    }
    while i < dir.files.len()
        invariant
            i <= dir.files@.len(),
            spec_entry_views(out@) == spec_sync_views(dir.files@.take(i as int)),
        decreases dir.files@.len() - i,
    {
        proof {
            assert(dir.files@.take(i + 1).drop_last() =~= dir.files@.take(i as int));
            assert(dir.files@.take(i + 1).last() == dir.files@[i as int]);
        }
        let name = &dir.files[i].name;
        match sync_id_of_name(name) {
            Some(id) => {
                let ghost prev = out@;
                out.push((name.clone(), id));
                proof {
                    assert(out@.drop_last() =~= prev);
                    assert(spec_entry_views(out@) == spec_entry_views(prev).push(
                        (out@.last().0@, out@.last().1),
                    ));
                    assert(spec_entry_views(out@) =~= spec_sync_views(dir.files@.take(i + 1)));
                }
            },
            None => {
                proof {
                    assert(spec_entry_views(out@) =~= spec_sync_views(dir.files@.take(i + 1)));
                }
            },
        }
        i = i + 1;
    }
    proof {
        assert(dir.files@.take(dir.files@.len() as int) =~= dir.files@);
    }
    out
}

fn sync_id_of_name(name: &String) -> (r: Option<i64>)
    ensures
        r == spec_sync_id(name@),
{
    let chars = str_chars(name.as_str());
    match find_last_dot(&chars) {
        Some(d) => {
            let ext_start = d + 1;
            proof {
                assert(chars@.skip(ext_start as int) == spec_ext(name@)->0);
            }
            if crate::scan::image_ext_matches(&chars, ext_start) {
                proof {
                    assert(chars@.subrange(0, d as int) =~= spec_stem(name@));
                }
                let stem = crate::strings::string_from_chars_range(&chars, 0, d);
                crate::digits::parse_i64(stem.as_str())
            } else {
                None
            }
        },
        None => None,
    }
}

/// Commit scanned path updates for both tables through the batched
/// assembler, and report what was synced.  A scanned pair whose id has no
/// row — a cover left behind by a deleted row — is silently skipped, as
/// an update matching no row is no failure; the summary's total is the
/// scanned work set, known up front.
pub fn sync_cover_paths_from_files(
    store: &mut Store,
    tracks_dir: &CoverDir,
    albums_dir: &CoverDir,
    ms_per_item: u64,
) -> (r: (MigrationProgress, Vec<MigrationBatchEvent>))
    requires
        old(store).wf(),
        tracks_dir.files@.len() + albums_dir.files@.len() <= usize::MAX,
    ensures
        final(store).wf(),
        final(store).tracks@.len() == old(store).tracks@.len(),
        final(store).albums@.len() == old(store).albums@.len(),
        ({
            let tv = spec_with_kind(
                spec_track_present_views(
                    spec_sync_views(tracks_dir.files@),
                    old(store).tracks@,
                ),
                ItemKind::Track,
            );
            let av = spec_with_kind(
                spec_album_present_views(
                    spec_sync_views(albums_dir.files@),
                    old(store).albums@,
                ),
                ItemKind::Album,
            );
            &&& (forall|j: int|
                0 <= j < old(store).tracks@.len() ==> spec_track_row_after(
                    #[trigger] old(store).tracks@[j],
                    final(store).tracks@[j],
                    spec_batch_path_for(tv + av, ItemKind::Track, old(store).tracks@[j].id),
                ))
            &&& (forall|j: int|
                0 <= j < old(store).albums@.len() ==> spec_album_row_after(
                    #[trigger] old(store).albums@[j],
                    final(store).albums@[j],
                    spec_batch_path_for(tv + av, ItemKind::Album, old(store).albums@[j].id),
                ))
            &&& r.0.tracks_migrated as nat == tv.len()
            &&& r.0.albums_migrated as nat == av.len()
        }),
        r.0.processed == r.0.tracks_migrated + r.0.albums_migrated,
        r.0.total as nat == spec_sync_views(tracks_dir.files@).len() + spec_sync_views(
            albums_dir.files@,
        ).len(),
        r.0.errors@ == Seq::<MigrationError>::empty(),
        forall|i: int|
            0 <= i < r.1@.len() ==> {
                let p = (#[trigger] r.1@[i]).progress;
                &&& p.total == r.0.total
                &&& 1 <= p.batch_size <= 200
                &&& p.current_batch == i + 1
                &&& 1 <= p.current
                &&& p.estimated_time_remaining_ms as nat == spec_eta_millis(
                    p.current as nat,
                    r.0.total as nat,
                    spec_sat_mul(p.current as nat, ms_per_item as nat),
                )
            },
        forall|i: int, j: int|
            0 <= i < j < r.1@.len() ==> (#[trigger] r.1@[i]).progress.current < (
            #[trigger] r.1@[j]).progress.current,
{
    let scanned_tracks = scan_covers_directory(tracks_dir);
    let scanned_albums = scan_covers_directory(albums_dir);
    proof {
        lemma_sync_views_len(tracks_dir.files@);
        lemma_sync_views_len(albums_dir.files@);
        lemma_entry_views_len(scanned_tracks@);
        lemma_entry_views_len(scanned_albums@);
    }
    let total = scanned_tracks.len() + scanned_albums.len();
    let track_updates = filter_present_tracks(&scanned_tracks, &store.tracks);
    let album_updates = filter_present_albums(&scanned_albums, &store.albums);
    let ghost tv = spec_with_kind(
        spec_track_present_views(spec_sync_views(tracks_dir.files@), old(store).tracks@),
        ItemKind::Track,
    );
    let ghost av = spec_with_kind(
        spec_album_present_views(spec_sync_views(albums_dir.files@), old(store).albums@),
        ItemKind::Album,
    );
    let mut results: Vec<MigrationResult> = Vec::new();
    let mut i: usize = 0;
    proof {
        assert(spec_result_views(results@) =~~= tv.take(0));
        lemma_entry_views_len(track_updates@);
        lemma_entry_views_len(album_updates@);
    }
    while i < track_updates.len()
        invariant
            i <= track_updates@.len(),
            tv == spec_with_kind(spec_entry_views(track_updates@), ItemKind::Track),
            tv.len() == track_updates@.len(),
            spec_result_views(results@) == tv.take(i as int),
        decreases track_updates@.len() - i,
    {
        let ghost prev = results@;
        let path = track_updates[i].0.clone();
        results.push(MigrationResult { id: track_updates[i].1, path, kind: ItemKind::Track });
        proof {
            assert(results@.drop_last() =~= prev);
            lemma_entry_views_index(track_updates@, i as int);
            assert(spec_result_views(results@) =~~= tv.take(i + 1));
        }
        i = i + 1;
    }
    proof {
        assert(tv.take(tv.len() as int) =~= tv);
        assert(spec_result_views(results@) =~~= tv + av.take(0));
    }
    let mut k: usize = 0;
    while k < album_updates.len()
        invariant
            k <= album_updates@.len(),
            av == spec_with_kind(spec_entry_views(album_updates@), ItemKind::Album),
            av.len() == album_updates@.len(),
            spec_result_views(results@) == tv + av.take(k as int),
        decreases album_updates@.len() - k,
    {
        let ghost prev = results@;
        let path = album_updates[k].0.clone();
        results.push(MigrationResult { id: album_updates[k].1, path, kind: ItemKind::Album });
        proof {
            assert(results@.drop_last() =~= prev);
            lemma_entry_views_index(album_updates@, k as int);
            assert(spec_result_views(results@) =~~= tv + av.take(k + 1));
        }
        k = k + 1;
    }
    proof {
        assert(av.take(av.len() as int) =~= av);
    }
    let ghost rv = spec_result_views(results@);
    let n_results = results.len();
    proof {
        lemma_result_views_take(results@, 0);
        // Every assembled entry was filtered to an existing row, so the
        // batches commit without a single row error.
        lemma_track_present_found(spec_sync_views(tracks_dir.files@), old(store).tracks@);
        lemma_album_present_found(spec_sync_views(albums_dir.files@), old(store).albums@);
        assert forall|m: int| 0 <= m < rv.len() implies crate::migrate::spec_entry_has_row(
            old(store).tracks@,
            old(store).albums@,
            #[trigger] rv[m],
        ) by {
            if m < tv.len() {
                assert(rv[m] == tv[m]);
            } else {
                assert(rv[m] == av[m - tv.len()]);
            }
        }
        lemma_successes_when_found(old(store).tracks@, old(store).albums@, rv);
        lemma_batch_specs_concat(old(store).tracks@, old(store).albums@, tv, av);
        assert forall|m: int| 0 <= m < tv.len() implies (#[trigger] tv[m]).0 == ItemKind::Track
            && crate::migrate::spec_entry_has_row(
            old(store).tracks@,
            old(store).albums@,
            tv[m],
        ) by {}
        lemma_successes_kind_count(old(store).tracks@, old(store).albums@, tv, ItemKind::Track);
        lemma_successes_other_kind(old(store).tracks@, old(store).albums@, av, ItemKind::Track);
        lemma_successes_kind_count(old(store).tracks@, old(store).albums@, av, ItemKind::Album);
        lemma_successes_other_kind(old(store).tracks@, old(store).albums@, tv, ItemKind::Album);
    }
    let (tracks_synced, albums_synced, errors, events) = assemble_batches(
        results,
        store,
        total,
        ms_per_item,
    );
    proof {
        assert(tracks_synced + albums_synced == n_results as int);
        assert(errors@ =~= Seq::<MigrationError>::empty());
    }
    let processed = tracks_synced + albums_synced;
    let summary = MigrationProgress {
        total,
        processed,
        tracks_migrated: tracks_synced,
        albums_migrated: albums_synced,
        errors,
    };
    (summary, events)
}

/// A directory yields at most one scanned pair per file.
proof fn lemma_sync_views_len(fs: Seq<CoverFile>)
    ensures
        spec_sync_views(fs).len() <= fs.len(),
    decreases fs.len(),
{
    if fs.len() > 0 {
        lemma_sync_views_len(fs.drop_last());
    }
}

proof fn lemma_entry_views_len(es: Seq<(String, i64)>)
    ensures
        spec_entry_views(es).len() == es.len(),
    decreases es.len(),
{
    if es.len() > 0 {
        lemma_entry_views_len(es.drop_last());
    }
}

proof fn lemma_entry_views_index(es: Seq<(String, i64)>, i: int)
    requires
        0 <= i < es.len(),
    ensures
        spec_entry_views(es).len() == es.len(),
        spec_entry_views(es)[i] == ((es[i].0)@, es[i].1),
    decreases es.len(),
{
    lemma_entry_views_len(es);
    if i + 1 == es.len() {
    } else {
        lemma_entry_views_index(es.drop_last(), i);
    }
}

} // verus!
