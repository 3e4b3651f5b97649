//! The orphan reconciler: list the cover files on disk, parse each stem
//! back to the id it was stored under, and delete every file whose id the
//! store no longer references.  A stem that does not parse is left alone,
//! and the store is the source of truth: deletion only ever touches files
//! that nothing references.

use vstd::prelude::*;
use crate::digits::{parse_i64, parse_i64_spec};
use crate::files::{
    CoverDir, CoverFile, find_last_dot, spec_cover_name, spec_file_content_is, spec_has_file,
    spec_stem, lemma_cover_name_splits,
};
use crate::image::ImageFormat;
use crate::strings::{str_chars, string_from_chars_range};

verus! {

/// Whether the id is among the referenced ids.
pub open spec fn spec_id_listed(ids: Seq<i64>, id: i64) -> bool {
    exists|i: int| 0 <= i < ids.len() && #[trigger] ids[i] == id
}

fn contains_id(ids: &Vec<i64>, id: i64) -> (r: bool)
    ensures
        r == spec_id_listed(ids@, id),
{
    let mut i: usize = 0;
    while i < ids.len()
        invariant
            i <= ids@.len(),
            forall|j: int| 0 <= j < i ==> #[trigger] ids@[j] != id,
        decreases ids@.len() - i,
    {
        if ids[i] == id {
            return true;
        }
        i = i + 1;
    }
    false
}

/// A file is an orphan when its stem parses to an id that the store does
/// not reference; a stem that does not parse keeps the file safe.
pub open spec fn spec_orphan(name: Seq<char>, ids: Seq<i64>) -> bool {
    match parse_i64_spec(spec_stem(name)) {
        Some(id) => !spec_id_listed(ids, id),
        None => false,
    }
}

/// A cover stored by the migration for a still-referenced id is never an
/// orphan: its stem parses back to exactly that id.
pub proof fn lemma_migrated_cover_not_orphan(id: i64, fmt: ImageFormat, ids: Seq<i64>)
    requires
        spec_id_listed(ids, id),
    ensures
        !spec_orphan(spec_cover_name(id as int, fmt), ids),
{
    lemma_cover_name_splits(id, fmt);
}

fn is_orphan_name(name: &String, ids: &Vec<i64>) -> (r: bool)
    ensures
        r == spec_orphan(name@, ids@),
{
    let chars = str_chars(name.as_str());
    let stem_end: usize = match find_last_dot(&chars) {
        Some(d) => d,
        None => chars.len(),
    };
    proof {
        assert(chars@.subrange(0, stem_end as int) =~= spec_stem(name@));
    }
    let stem = string_from_chars_range(&chars, 0, stem_end);
    match parse_i64(stem.as_str()) {
        Some(id) => !contains_id(ids, id),
        None => false,
    }
}

/// The file is one of the first `upto` given files.
pub open spec fn spec_kept_from(fs: Seq<CoverFile>, upto: int, f: CoverFile) -> bool {
    exists|oidx: int| 0 <= oidx < upto && #[trigger] fs[oidx] == f
}

/// Delete every orphaned file of one directory; every other file is kept
/// untouched.  Returns how many files were deleted.
pub fn cleanup_dir_orphans(ids: &Vec<i64>, dir: &mut CoverDir) -> (r: usize)
    requires
        old(dir).wf(),
    ensures
        final(dir).wf(),
        final(dir).files@.len() + r == old(dir).files@.len(),
        forall|idx: int|
            0 <= idx < old(dir).files@.len() && spec_orphan(
                (#[trigger] old(dir).files@[idx]).name@,
                ids@,
            ) ==> !spec_has_file(final(dir).files@, old(dir).files@[idx].name@),
        forall|idx: int|
            0 <= idx < old(dir).files@.len() && !spec_orphan(
                (#[trigger] old(dir).files@[idx]).name@,
                ids@,
            ) ==> spec_file_content_is(
                final(dir).files@,
                old(dir).files@[idx].name@,
                old(dir).files@[idx].bytes@,
            ),
        forall|k: int|
            0 <= k < final(dir).files@.len() ==> spec_kept_from(
                old(dir).files@,
                old(dir).files@.len() as int,
                #[trigger] final(dir).files@[k],
            ) && !spec_orphan(final(dir).files@[k].name@, ids@),
{
    let ghost orig = old(dir).files@;
    let mut files: Vec<CoverFile> = Vec::new();
    core::mem::swap(&mut files, &mut dir.files);
    let n_files = files.len();
    let mut kept: Vec<CoverFile> = Vec::new();
    let mut deleted: usize = 0;
    let ghost mut done: int = 0;
    proof {
        assert(n_files as int == orig.len());
        assert(files@ =~= orig.skip(0));
    }
    while files.len() > 0
        invariant
            0 <= done <= orig.len(),
            orig.len() <= usize::MAX,
            files@ == orig.skip(done),
            kept@.len() + deleted == done,
            forall|i: int, j: int|
                0 <= i < j < orig.len() ==> (#[trigger] orig[i]).name@ != (#[trigger] orig[j]).name@,
            forall|k: int|
                0 <= k < kept@.len() ==> spec_kept_from(orig, done, #[trigger] kept@[k])
                    && !spec_orphan(kept@[k].name@, ids@),
            forall|k1: int, k2: int|
                0 <= k1 < k2 < kept@.len() ==> (#[trigger] kept@[k1]).name@ != (
                #[trigger] kept@[k2]).name@,
            forall|idx: int|
                0 <= idx < done && !spec_orphan((#[trigger] orig[idx]).name@, ids@)
                    ==> spec_has_file(kept@, orig[idx].name@),
        decreases files@.len(),
    {
        let f = files.remove(0);
        proof {
            assert(f == orig[done]);
            assert(files@ =~= orig.skip(done + 1));
        }
        let ghost prev_kept = kept@;
        if is_orphan_name(&f.name, ids) {
            deleted = deleted + 1;
        } else {
            kept.push(f);
            proof {
                assert(kept@[kept@.len() - 1] == orig[done]);
            }
        }
        proof {
            assert forall|k: int| 0 <= k < kept@.len() implies spec_kept_from(
                orig,
                done + 1,
                #[trigger] kept@[k],
            ) && !spec_orphan(kept@[k].name@, ids@) by {
                if k < prev_kept.len() {
                    assert(kept@[k] == prev_kept[k]);
                    let oidx = choose|oidx: int|
                        0 <= oidx < done && #[trigger] orig[oidx] == prev_kept[k];
                    assert(orig[oidx] == kept@[k]);
                } else {
                    assert(orig[done] == kept@[k]);
                }
            }
            assert forall|k1: int, k2: int|
                0 <= k1 < k2 < kept@.len() implies (#[trigger] kept@[k1]).name@ != (
            #[trigger] kept@[k2]).name@ by {
                if k2 < prev_kept.len() {
                    assert(kept@[k1] == prev_kept[k1] && kept@[k2] == prev_kept[k2]);
                } else if kept@.len() > prev_kept.len() && k2 == prev_kept.len() {
                    assert(kept@[k1] == prev_kept[k1]);
                    assert(spec_kept_from(orig, done, prev_kept[k1]));
                    let oidx = choose|oidx: int|
                        0 <= oidx < done && #[trigger] orig[oidx] == prev_kept[k1];
                    assert(kept@[k2] == orig[done]);
                    assert(orig[oidx].name@ != orig[done].name@);
                }
            }
            assert forall|idx: int|
                0 <= idx < done + 1 && !spec_orphan(
                    (#[trigger] orig[idx]).name@,
                    ids@,
                ) implies spec_has_file(kept@, orig[idx].name@) by {
                if idx < done {
                    let w = choose|w: int|
                        0 <= w < prev_kept.len() && #[trigger] prev_kept[w].name@ == orig[
                            idx
                        ].name@;
                    assert(kept@[w] == prev_kept[w]);
                    assert(kept@[w].name@ == orig[idx].name@);
                } else {
                    assert(kept@[kept@.len() - 1].name@ == orig[idx].name@);
                }
            }
            done = done + 1;
        }
    }
    proof {
        assert(orig.skip(done).len() == 0);
        assert(done == orig.len());
    }
    dir.files = kept;
    proof {
        assert forall|idx: int|
            0 <= idx < orig.len() && spec_orphan(
                (#[trigger] orig[idx]).name@,
                ids@,
            ) implies !spec_has_file(dir.files@, orig[idx].name@) by {
            if spec_has_file(dir.files@, orig[idx].name@) {
                let w = choose|w: int|
                    0 <= w < dir.files@.len() && #[trigger] dir.files@[w].name@ == orig[
                        idx
                    ].name@;
                let ow = choose|ow: int|
                    0 <= ow < orig.len() && #[trigger] orig[ow] == dir.files@[w];
                assert(orig[ow].name@ == orig[idx].name@);
                assert(ow == idx);
            }
        }
        assert forall|idx: int|
            0 <= idx < orig.len() && !spec_orphan(
                (#[trigger] orig[idx]).name@,
                ids@,
            ) implies spec_file_content_is(dir.files@, orig[idx].name@, orig[idx].bytes@) by {
            assert(spec_has_file(dir.files@, orig[idx].name@));
            assert forall|w: int|
                0 <= w < dir.files@.len() && #[trigger] dir.files@[w].name@ == orig[
                    idx
                ].name@ implies dir.files@[w].bytes@ == orig[idx].bytes@ by {
                let ow = choose|ow: int|
                    0 <= ow < orig.len() && #[trigger] orig[ow] == dir.files@[w];
                assert(orig[ow].name@ == orig[idx].name@);
                assert(ow == idx);
            }
        }
    }
    deleted
}

/// Clean up orphaned cover files: delete every stored track or album
/// cover whose id no longer has a row, and report how many files went.
pub fn cleanup_orphaned_covers(
    track_ids: &Vec<i64>,
    album_ids: &Vec<i64>,
    tracks_dir: &mut CoverDir,
    albums_dir: &mut CoverDir,
) -> (r: usize)
    requires
        old(tracks_dir).wf(),
        old(albums_dir).wf(),
        old(tracks_dir).files@.len() + old(albums_dir).files@.len() <= usize::MAX,
    ensures
        final(tracks_dir).wf(),
        final(albums_dir).wf(),
        final(tracks_dir).files@.len() + final(albums_dir).files@.len() + r == old(
            tracks_dir,
        ).files@.len() + old(albums_dir).files@.len(),
        forall|idx: int|
            0 <= idx < old(tracks_dir).files@.len() && spec_orphan(
                (#[trigger] old(tracks_dir).files@[idx]).name@,
                track_ids@,
            ) ==> !spec_has_file(final(tracks_dir).files@, old(tracks_dir).files@[idx].name@),
        forall|idx: int|
            0 <= idx < old(tracks_dir).files@.len() && !spec_orphan(
                (#[trigger] old(tracks_dir).files@[idx]).name@,
                track_ids@,
            ) ==> spec_file_content_is(
                final(tracks_dir).files@,
                old(tracks_dir).files@[idx].name@,
                old(tracks_dir).files@[idx].bytes@,
            ),
        forall|idx: int|
            0 <= idx < old(albums_dir).files@.len() && spec_orphan(
                (#[trigger] old(albums_dir).files@[idx]).name@,
                album_ids@,
            ) ==> !spec_has_file(final(albums_dir).files@, old(albums_dir).files@[idx].name@),
        forall|idx: int|
            0 <= idx < old(albums_dir).files@.len() && !spec_orphan(
                (#[trigger] old(albums_dir).files@[idx]).name@,
                album_ids@,
            ) ==> spec_file_content_is(
                final(albums_dir).files@,
                old(albums_dir).files@[idx].name@,
                old(albums_dir).files@[idx].bytes@,
            ),
{
    let a = cleanup_dir_orphans(track_ids, tracks_dir);
    let b = cleanup_dir_orphans(album_ids, albums_dir);
    a + b
}

} // verus!
