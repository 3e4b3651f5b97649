//! Content-addressed deduplication of cover files, per album: bucket the
//! referenced cover files by size, hash the candidates, and for every set
//! of byte-identical files repoint the album's tracks at one canonical
//! file — the lexicographically smallest path — before deleting the rest.

use vstd::prelude::*;
use vstd::pervasive::VecAdditionalExecFns;
use crate::files::{CoverDir, CoverFile, spec_has_file, spec_file_content_is};
use crate::migrate::MigrationError;
use crate::outside::{sha256_digest, sha256_of};
use crate::store::{Track, track_with_cover_path};
use crate::strings::{lex_le, lex_le_antisymmetric, lex_le_total, lex_le_transitive, str_le};

verus! {

/// The progress snapshot broadcast while the merge runs.
pub struct MergeProgressUpdate {
    pub current_album: usize,
    pub total_albums: usize,
    pub covers_merged: usize,
    pub space_saved_bytes: u64,
    pub estimated_time_remaining_ms: u64,
}

/// One progress emission of the merge pipeline.
pub struct MergeBatchEvent {
    pub progress: MergeProgressUpdate,
}

/// The terminal summary of a merge run.
pub struct MergeCoverResult {
    pub covers_merged: usize,
    pub space_saved_bytes: u64,
    pub albums_processed: usize,
    pub errors: Vec<MigrationError>,
}

/// The path is the least of the group in lexicographic order.
pub open spec fn spec_is_canonical(group: Seq<(String, u64)>, c: Seq<char>) -> bool {
    &&& exists|k: int| 0 <= k < group.len() && (#[trigger] group[k].0)@ == c
    &&& forall|k: int| 0 <= k < group.len() ==> lex_le(c, (#[trigger] group[k].0)@)
}

/// Pick the canonical path of a duplicate set: the lexicographically
/// smallest, so that repeated runs over the same files converge on the
/// same survivor.
pub fn select_canonical(group: &Vec<(String, u64)>) -> (r: usize)
    requires
        group@.len() >= 1,
    ensures
        r < group@.len(),
        spec_is_canonical(group@, group@[r as int].0@),
{
    let mut best: usize = 0;
    let mut k: usize = 1;
    proof {
        lex_le_total(group@[0].0@, group@[0].0@);
    }
    while k < group.len()
        invariant
            best < k <= group@.len(),
            forall|m: int| 0 <= m < k ==> lex_le(group@[best as int].0@, (#[trigger] group@[m].0)@),
        decreases group@.len() - k,
    {
        if str_le(group[k].0.as_str(), group[best].0.as_str()) {
            proof {
                assert forall|m: int| 0 <= m < k + 1 implies lex_le(
                    group@[k as int].0@,
                    (#[trigger] group@[m].0)@,
                ) by {
                    if m < k {
                        lex_le_transitive(group@[k as int].0@, group@[best as int].0@, group@[m].0@);
                    } else {
                        lex_le_total(group@[k as int].0@, group@[k as int].0@);
                    }
                }
            }
            best = k;
        } else {
            proof {
                lex_le_total(group@[k as int].0@, group@[best as int].0@);
            }
        }
        k = k + 1;
    }
    best
}

/// Canonical selection is a function of the set of candidate paths alone:
/// two groups holding the same paths, in any order and with any
/// repetitions, elect the same canonical path.
pub proof fn lemma_canonical_deterministic(
    g1: Seq<(String, u64)>,
    g2: Seq<(String, u64)>,
    c1: Seq<char>,
    c2: Seq<char>,
)
    requires
        spec_is_canonical(g1, c1),
        spec_is_canonical(g2, c2),
        forall|k: int|
            0 <= k < g1.len() ==> exists|m: int|
                0 <= m < g2.len() && (#[trigger] g2[m].0)@ == (#[trigger] g1[k].0)@,
        forall|k: int|
            0 <= k < g2.len() ==> exists|m: int|
                0 <= m < g1.len() && (#[trigger] g1[m].0)@ == (#[trigger] g2[k].0)@,
    ensures
        c1 == c2,
{
    let k1 = choose|k: int| 0 <= k < g1.len() && (#[trigger] g1[k].0)@ == c1;
    let m1 = choose|m: int| 0 <= m < g2.len() && (#[trigger] g2[m].0)@ == g1[k1].0@;
    assert(lex_le(c2, c1));
    let k2 = choose|k: int| 0 <= k < g2.len() && (#[trigger] g2[k].0)@ == c2;
    let m2 = choose|m: int| 0 <= m < g1.len() && (#[trigger] g1[m].0)@ == g2[k2].0@;
    assert(lex_le(c1, c2));
    lex_le_antisymmetric(c1, c2);
}

/// The file is one of the given files, unchanged.
pub open spec fn spec_file_from(fs: Seq<CoverFile>, f: CoverFile) -> bool {
    exists|oidx: int| 0 <= oidx < fs.len() && #[trigger] fs[oidx] == f
}

/// Whether the path stands in the group at a position other than the
/// canonical one.
pub open spec fn spec_in_group_not_canonical(
    group: Seq<(String, u64)>,
    ci: int,
    p: Seq<char>,
) -> bool {
    exists|k: int| 0 <= k < group.len() && k != ci && (#[trigger] group[k].0)@ == p
}

fn path_in_group_not_canonical(group: &Vec<(String, u64)>, ci: usize, p: &String) -> (r: bool)
    ensures
        r == spec_in_group_not_canonical(group@, ci as int, p@),
{
    let mut k: usize = 0;
    while k < group.len()
        invariant
            k <= group@.len(),
            forall|m: int| 0 <= m < k ==> m == ci as int || (#[trigger] group@[m].0)@ != p@,
        decreases group@.len() - k,
    {
        if k != ci && group[k].0 == *p {
            return true;
        }
        k = k + 1;
    }
    false
}

/// The row after the merge of one duplicate set: a track of the album
/// whose cover path stands in the set away from the canonical position is
/// repointed at the canonical path; every other row is untouched.
pub open spec fn spec_merged_row(
    t: Track,
    ft: Track,
    album: Seq<char>,
    group: Seq<(String, u64)>,
    ci: int,
) -> bool {
    if t.album is Some && t.album->0@ == album && t.track_cover_path is Some
        && spec_in_group_not_canonical(group, ci, t.track_cover_path->0@) {
        &&& ft.track_cover_path is Some
        &&& ft.track_cover_path->0@ == group[ci].0@
        &&& ft == track_with_cover_path(t, ft.track_cover_path)
    } else {
        ft == t
    }
}

/// Convergence of the merge: after one duplicate set is merged, no row
/// of the album references a non-canonical member any more, so a repeated
/// run finds nothing left to repoint in that set.
pub proof fn lemma_merge_leaves_no_duplicate_reference(
    t_old: Track,
    t_new: Track,
    album: Seq<char>,
    group: Seq<(String, u64)>,
    ci: int,
)
    requires
        spec_merged_row(t_old, t_new, album, group, ci),
        0 <= ci < group.len(),
        forall|i: int, j: int|
            0 <= i < j < group.len() ==> (#[trigger] group[i].0)@ != (#[trigger] group[j].0)@,
        t_new.album is Some && t_new.album->0@ == album,
        t_new.track_cover_path is Some,
    ensures
        !spec_in_group_not_canonical(group, ci, t_new.track_cover_path->0@),
{
    if t_old.album is Some && t_old.album->0@ == album && t_old.track_cover_path is Some
        && spec_in_group_not_canonical(group, ci, t_old.track_cover_path->0@) {
        if spec_in_group_not_canonical(group, ci, t_new.track_cover_path->0@) {
            let k = choose|k: int|
                0 <= k < group.len() && k != ci && (#[trigger] group[k].0)@
                    == t_new.track_cover_path->0@;
            assert(group[k].0@ == group[ci].0@);
        }
    }
}

/// What deleting the non-canonical members of a duplicate set frees,
/// against the directory as it stood: how many files go, and the recorded
/// sizes they free, saturating at `u64::MAX`.
pub open spec fn spec_group_freed(fs: Seq<CoverFile>, group: Seq<(String, u64)>, ci: int) -> (
    nat,
    nat,
)
    decreases group.len(),
{
    if group.len() == 0 {
        (0, 0)
    } else {
        let rest = spec_group_freed(fs, group.drop_last(), ci);
        if group.len() - 1 != ci && spec_has_file(fs, group.last().0@) {
            (rest.0 + 1, crate::batch::spec_sat_add(rest.1, group.last().1 as nat))
        } else {
            rest
        }
    }
}

/// Merge one duplicate set: repoint every track of the album that
/// references a non-canonical member at the canonical path, then delete
/// the non-canonical files, tolerating ones already gone.  Returns how
/// many files were deleted and the recorded bytes freed.
#[verifier::rlimit(60)]
pub fn merge_group(
    tracks: &mut Vec<Track>,
    dir: &mut CoverDir,
    album: &String,
    group: &Vec<(String, u64)>,
    ci: usize,
) -> (r: (usize, u64))
    requires
        old(dir).wf(),
        (ci as int) < group@.len(),
        forall|i: int, j: int|
            0 <= i < j < group@.len() ==> (#[trigger] group@[i].0)@ != (#[trigger] group@[j].0)@,
    ensures
        final(dir).wf(),
        final(tracks)@.len() == old(tracks)@.len(),
        forall|j: int|
            0 <= j < old(tracks)@.len() ==> spec_merged_row(
                #[trigger] old(tracks)@[j],
                final(tracks)@[j],
                album@,
                group@,
                ci as int,
            ),
        (r.0 as nat, r.1 as nat) == spec_group_freed(old(dir).files@, group@, ci as int),
        final(dir).files@.len() + r.0 == old(dir).files@.len(),
        forall|k: int|
            0 <= k < group@.len() && k != ci as int ==> !spec_has_file(
                final(dir).files@,
                (#[trigger] group@[k].0)@,
            ),
        forall|idx: int|
            0 <= idx < old(dir).files@.len() && !spec_in_group_not_canonical(
                group@,
                ci as int,
                (#[trigger] old(dir).files@[idx]).name@,
            ) ==> spec_file_content_is(
                final(dir).files@,
                old(dir).files@[idx].name@,
                old(dir).files@[idx].bytes@,
            ),
        forall|idx: int|
            0 <= idx < final(dir).files@.len() ==> spec_file_from(
                old(dir).files@,
                #[trigger] final(dir).files@[idx],
            ),
{
    let canonical = group[ci].0.clone();
    let mut j: usize = 0;
    while j < tracks.len()
        invariant
            j <= tracks@.len(),
            (ci as int) < group@.len(),
            canonical@ == group@[ci as int].0@,
            tracks@.len() == old(tracks)@.len(),
            dir == old(dir),
            forall|m: int|
                0 <= m < j ==> spec_merged_row(
                    #[trigger] old(tracks)@[m],
                    tracks@[m],
                    album@,
                    group@,
                    ci as int,
                ),
            forall|m: int| j <= m < tracks@.len() ==> tracks@[m] == old(tracks)@[m],
        decreases tracks@.len() - j,
    {
        let hit: bool = {
            let row = &tracks[j];
            let album_matches = match &row.album {
                Some(a) => *a == *album,
                None => false,
            };
            if album_matches {
                match &row.track_cover_path {
                    Some(p) => path_in_group_not_canonical(group, ci, p),
                    None => false,
                }
            } else {
                false
            }
        };
        if hit {
            let mut row = crate::store::placeholder_track();
            tracks.set_and_swap(j, &mut row);
            row.track_cover_path = Some(canonical.clone());
            tracks.set_and_swap(j, &mut row);
        }
        j = j + 1;
    }
    let mut merged: usize = 0;
    let mut saved: u64 = 0;
    let mut k: usize = 0;
    let ghost old_files = old(dir).files@;
    proof {
        assert(group@.take(0) =~= Seq::<(String, u64)>::empty());
        assert forall|idx: int| 0 <= idx < dir.files@.len() implies spec_file_from(
            old_files,
            #[trigger] dir.files@[idx],
        ) by {
            assert(old_files[idx] == dir.files@[idx]);
        }
    }
    while k < group.len()
        invariant
            k <= group@.len(),
            (ci as int) < group@.len(),
            merged <= k,
            dir.wf(),
            old_files == old(dir).files@,
            forall|i: int, j2: int|
                0 <= i < j2 < group@.len() ==> (#[trigger] group@[i].0)@ != (
                #[trigger] group@[j2].0)@,
            dir.files@.len() + merged == old_files.len(),
            (merged as nat, saved as nat) == spec_group_freed(
                old_files,
                group@.take(k as int),
                ci as int,
            ),
            forall|m: int|
                0 <= m < k && m != ci as int ==> !spec_has_file(
                    dir.files@,
                    (#[trigger] group@[m].0)@,
                ),
            forall|idx: int|
                0 <= idx < old_files.len() && !(exists|m: int|
                    0 <= m < k && m != ci as int && (#[trigger] group@[m].0)@ == (
                    #[trigger] old_files[idx]).name@) ==> spec_file_content_is(
                    dir.files@,
                    old_files[idx].name@,
                    old_files[idx].bytes@,
                ),
            forall|idx: int|
                0 <= idx < dir.files@.len() ==> spec_file_from(
                    old_files,
                    #[trigger] dir.files@[idx],
                ),
        decreases group@.len() - k,
    {
        proof {
            assert(group@.take(k + 1).drop_last() =~= group@.take(k as int));
            assert(group@.take(k + 1).last() == group@[k as int]);
        }
        if k != ci {
            let ghost p = group@[k as int].0@;
            let ghost before = dir.files@;
            let existed = dir.delete_file(&group[k].0);
            proof {
                // Presence of this path at entry to the loop equals its
                // presence now: no earlier step deleted it.
                assert(spec_has_file(before, p) == spec_has_file(old_files, p)) by {
                    if spec_has_file(before, p) {
                        let i = choose|i: int|
                            0 <= i < before.len() && #[trigger] before[i].name@ == p;
                        assert(spec_file_from(old_files, before[i]));
                        let oidx = choose|oidx: int|
                            0 <= oidx < old_files.len() && #[trigger] old_files[oidx] == before[i];
                        assert(old_files[oidx].name@ == p);
                    }
                    if spec_has_file(old_files, p) {
                        let i = choose|i: int|
                            0 <= i < old_files.len() && #[trigger] old_files[i].name@ == p;
                        assert(!(exists|m: int|
                            0 <= m < k && m != ci as int && (#[trigger] group@[m].0)@
                                == old_files[i].name@));
                        assert(spec_file_content_is(before, old_files[i].name@, old_files[i].bytes@));
                    }
                };
                if existed {
                    assert(spec_has_file(before, p));
                } else {
                    assert(!spec_has_file(before, p));
                }
            }
            if existed {
                merged = merged + 1;
                saved = crate::batch::sat_add_u64(saved, group[k].1);
            }
            proof {
                // The deletion removed at most the one file named p.
                assert forall|m: int|
                    0 <= m < k + 1 && m != ci as int implies !spec_has_file(
                    dir.files@,
                    (#[trigger] group@[m].0)@,
                ) by {
                    if m < k {
                        if spec_has_file(dir.files@, group@[m].0@) {
                            let i = choose|i: int|
                                0 <= i < dir.files@.len() && #[trigger] dir.files@[i].name@
                                    == group@[m].0@;
                            if existed {
                                let di = choose|di: int|
                                    0 <= di < before.len() && #[trigger] before[di].name@ == p
                                        && dir.files@ == before.remove(di);
                                if i < di {
                                    assert(dir.files@[i] == before[i]);
                                } else {
                                    assert(dir.files@[i] == before[i + 1]);
                                }
                            }
                        }
                    }
                }
                assert forall|idx: int|
                    0 <= idx < old_files.len() && !(exists|m: int|
                        0 <= m < k + 1 && m != ci as int && (#[trigger] group@[m].0)@ == (
                        #[trigger] old_files[idx]).name@) implies spec_file_content_is(
                    dir.files@,
                    old_files[idx].name@,
                    old_files[idx].bytes@,
                ) by {
                    let n = old_files[idx].name@;
                    assert(spec_file_content_is(before, n, old_files[idx].bytes@));
                    assert(n != p);
                    if existed {
                        let di = choose|di: int|
                            0 <= di < before.len() && #[trigger] before[di].name@ == p
                                && dir.files@ == before.remove(di);
                        let wi = choose|wi: int|
                            0 <= wi < before.len() && #[trigger] before[wi].name@ == n;
                        if wi < di {
                            assert(dir.files@[wi] == before[wi]);
                        } else {
                            assert(before[di].name@ == p);
                            assert(wi != di);
                            assert(dir.files@[wi - 1] == before[wi]);
                        }
                        assert(spec_has_file(dir.files@, n));
                        assert forall|i: int|
                            0 <= i < dir.files@.len() && #[trigger] dir.files@[i].name@
                                == n implies dir.files@[i].bytes@ == old_files[idx].bytes@ by {
                            if i < di {
                                assert(dir.files@[i] == before[i]);
                            } else {
                                assert(dir.files@[i] == before[i + 1]);
                            }
                        }
                    }
                }
                assert forall|idx: int|
                    0 <= idx < dir.files@.len() implies spec_file_from(
                    old_files,
                    #[trigger] dir.files@[idx],
                ) by {
                    if existed {
                        let di = choose|di: int|
                            0 <= di < before.len() && #[trigger] before[di].name@ == p
                                && dir.files@ == before.remove(di);
                        if idx < di {
                            assert(before[idx] == dir.files@[idx]);
                        } else {
                            assert(before[idx + 1] == dir.files@[idx]);
                        }
                    } else {
                        assert(before[idx] == dir.files@[idx]);
                    }
                }
            }
        }
        k = k + 1;
    }
    proof {
        assert(group@.take(group@.len() as int) =~= group@);
    }
    (merged, saved)
}


/// Some string of the list has that content.
pub open spec fn spec_listed(v: Seq<String>, x: Seq<char>) -> bool {
    exists|i: int| 0 <= i < v.len() && (#[trigger] v[i])@ == x
}

/// Some entry of the list carries that path.
pub open spec fn spec_listed_pair(v: Seq<(String, u64)>, x: Seq<char>) -> bool {
    exists|i: int| 0 <= i < v.len() && (#[trigger] v[i].0)@ == x
}

/// Some row has that album name.
pub open spec fn spec_row_has_album(tracks: Seq<Track>, name: Seq<char>) -> bool {
    exists|j: int|
        0 <= j < tracks.len() && (#[trigger] tracks[j]).album is Some && tracks[j].album->0@
            == name
}

/// A row whose cover the dedup pass for the album considers: it belongs
/// to the album and references a non-empty cover path.
pub open spec fn spec_covered_row(t: Track, album: Seq<char>) -> bool {
    t.album is Some && t.album->0@ == album && t.track_cover_path is Some
        && t.track_cover_path->0@.len() > 0
}

/// Some row of the album references that cover path.
pub open spec fn spec_row_covers_path(tracks: Seq<Track>, album: Seq<char>, p: Seq<char>) -> bool {
    exists|j: int|
        0 <= j < tracks.len() && spec_covered_row(#[trigger] tracks[j], album) && tracks[
            j
        ].track_cover_path->0@ == p
}

/// Whether the vector holds a string of that content.
fn contains_string(v: &Vec<String>, s: &String) -> (r: bool)
    ensures
        r == spec_listed(v@, s@),
{
    let mut i: usize = 0;
    while i < v.len()
        invariant
            i <= v@.len(),
            forall|j: int| 0 <= j < i ==> (#[trigger] v@[j])@ != s@,
        decreases v@.len() - i,
    {
        if v[i] == *s {
            return true;
        }
        i = i + 1;
    }
    false
}

/// The distinct album names over the track table, in first-occurrence
/// order: the groups the dedup pipeline works through.
pub fn album_names(tracks: &Vec<Track>) -> (r: Vec<String>)
    ensures
        forall|i: int, j: int| 0 <= i < j < r@.len() ==> (#[trigger] r@[i])@ != (#[trigger] r@[j])@,
        forall|i: int| 0 <= i < r@.len() ==> spec_row_has_album(tracks@, (#[trigger] r@[i])@),
        forall|j: int|
            0 <= j < tracks@.len() && (#[trigger] tracks@[j]).album is Some ==> spec_listed(
                r@,
                tracks@[j].album->0@,
            ),
{
    let mut names: Vec<String> = Vec::new();
    let mut j: usize = 0;
    while j < tracks.len()
        invariant
            j <= tracks@.len(),
            forall|i: int, m: int|
                0 <= i < m < names@.len() ==> (#[trigger] names@[i])@ != (#[trigger] names@[m])@,
            forall|i: int|
                0 <= i < names@.len() ==> spec_row_has_album(tracks@, (#[trigger] names@[i])@),
            forall|m: int|
                0 <= m < j && (#[trigger] tracks@[m]).album is Some ==> spec_listed(
                    names@,
                    tracks@[m].album->0@,
                ),
        decreases tracks@.len() - j,
    {
        let ghost prev = names@;
        match &tracks[j].album {
            Some(name) => {
                if !contains_string(&names, name) {
                    names.push(name.clone());
                    proof {
                        assert((names@[names@.len() - 1])@ == tracks@[j as int].album->0@);
                        assert(spec_row_has_album(tracks@, (names@[names@.len() - 1])@)) by {
                            assert((tracks@[j as int]).album is Some);
                        }
                    }
                }
            },
            None => {
            },
        }
        proof {
            assert forall|i: int| 0 <= i < names@.len() implies spec_row_has_album(
                tracks@,
                (#[trigger] names@[i])@,
            ) by {
                if i < prev.len() {
                    assert(names@[i] == prev[i]);
                }
            }
            assert forall|m: int|
                0 <= m < j + 1 && (#[trigger] tracks@[m]).album is Some implies spec_listed(
                names@,
                tracks@[m].album->0@,
            ) by {
                if m < j {
                    let i = choose|i: int|
                        0 <= i < prev.len() && (#[trigger] prev[i])@ == tracks@[m].album->0@;
                    assert(names@[i] == prev[i]);
                    assert((names@[i])@ == tracks@[m].album->0@);
                } else {
                    if names@.len() > prev.len() {
                        assert((names@[names@.len() - 1])@ == tracks@[m].album->0@);
                    } else {
                        let i = choose|i: int|
                            0 <= i < prev.len() && (#[trigger] prev[i])@ == tracks@[m].album->0@;
                        assert((names@[i])@ == tracks@[m].album->0@);
                    }
                }
            }
        }
        j = j + 1;
    }
    names
}

/// The distinct cover paths the album's tracks reference.
pub fn unique_cover_paths(tracks: &Vec<Track>, album: &String) -> (r: Vec<String>)
    ensures
        forall|i: int, j: int| 0 <= i < j < r@.len() ==> (#[trigger] r@[i])@ != (#[trigger] r@[j])@,
        forall|i: int|
            0 <= i < r@.len() ==> spec_row_covers_path(tracks@, album@, (#[trigger] r@[i])@),
        forall|j: int|
            0 <= j < tracks@.len() && spec_covered_row(#[trigger] tracks@[j], album@)
                ==> spec_listed(r@, tracks@[j].track_cover_path->0@),
{
    let mut paths: Vec<String> = Vec::new();
    let mut j: usize = 0;
    while j < tracks.len()
        invariant
            j <= tracks@.len(),
            forall|i: int, m: int|
                0 <= i < m < paths@.len() ==> (#[trigger] paths@[i])@ != (#[trigger] paths@[m])@,
            forall|i: int|
                0 <= i < paths@.len() ==> spec_row_covers_path(
                    tracks@,
                    album@,
                    (#[trigger] paths@[i])@,
                ),
            forall|m: int|
                0 <= m < j && spec_covered_row(#[trigger] tracks@[m], album@) ==> spec_listed(
                    paths@,
                    tracks@[m].track_cover_path->0@,
                ),
        decreases tracks@.len() - j,
    {
        let ghost prev = paths@;
        let row = &tracks[j];
        let album_matches = match &row.album {
            Some(a) => *a == *album,
            None => false,
        };
        if album_matches {
            match &row.track_cover_path {
                Some(p) => {
                    if !p.as_str().is_empty() {
                        if !contains_string(&paths, p) {
                            paths.push(p.clone());
                            proof {
                                assert((paths@[paths@.len() - 1])@ == tracks@[
                                    j as int
                                ].track_cover_path->0@);
                                assert(spec_row_covers_path(
                                    tracks@,
                                    album@,
                                    (paths@[paths@.len() - 1])@,
                                )) by {
                                    assert(spec_covered_row(tracks@[j as int], album@));
                                }
                            }
                        }
                    }
                },
                None => {
                },
            }
        }
        proof {
            assert forall|i: int| 0 <= i < paths@.len() implies spec_row_covers_path(
                tracks@,
                album@,
                (#[trigger] paths@[i])@,
            ) by {
                if i < prev.len() {
                    assert(paths@[i] == prev[i]);
                }
            }
            assert forall|m: int|
                0 <= m < j + 1 && spec_covered_row(
                    #[trigger] tracks@[m],
                    album@,
                ) implies spec_listed(paths@, tracks@[m].track_cover_path->0@) by {
                if m < j {
                    let i = choose|i: int|
                        0 <= i < prev.len() && (#[trigger] prev[i])@ == tracks@[
                            m
                        ].track_cover_path->0@;
                    assert(paths@[i] == prev[i]);
                    assert((paths@[i])@ == tracks@[m].track_cover_path->0@);
                } else {
                    if paths@.len() > prev.len() {
                        assert((paths@[paths@.len() - 1])@ == tracks@[m].track_cover_path->0@);
                    } else {
                        let i = choose|i: int|
                            0 <= i < prev.len() && (#[trigger] prev[i])@ == tracks@[
                                m
                            ].track_cover_path->0@;
                        assert((paths@[i])@ == tracks@[m].track_cover_path->0@);
                    }
                }
            }
        }
        j = j + 1;
    }
    paths
}

/// The recorded size of the file at that path, when it is present.
fn file_size_of(dir: &CoverDir, p: &String) -> (r: Option<u64>)
    requires
        dir.wf(),
    ensures
        match r {
            Some(s) => spec_has_file(dir.files@, p@) && s as nat == crate::files::spec_file_bytes(
                dir.files@,
                p@,
            ).len(),
            None => !spec_has_file(dir.files@, p@),
        },
{
    match dir.find_index(p) {
        Some(i) => {
            let s = dir.files[i].bytes.len();
            proof {
                let j = choose|j: int|
                    0 <= j < dir.files@.len() && #[trigger] dir.files@[j].name@ == p@;
                assert(j == i as int);
            }
            Some(s as u64)
        },
        None => None,
    }
}

/// A path whose file shares its kilobyte size bucket with another
/// referenced file: only these are worth hashing.
pub open spec fn spec_hash_candidate(paths: Seq<String>, fs: Seq<CoverFile>, k: int) -> bool {
    &&& spec_has_file(fs, paths[k]@)
    &&& exists|m: int|
        0 <= m < paths.len() && m != k && spec_has_file(fs, (#[trigger] paths[m])@)
            && crate::files::spec_file_bytes(fs, paths[m]@).len() / 1024
            == crate::files::spec_file_bytes(fs, paths[k]@).len() / 1024
}

/// The entry pairs some candidate path with its recorded size.
pub open spec fn spec_candidate_entry(
    paths: Seq<String>,
    fs: Seq<CoverFile>,
    e: (String, u64),
) -> bool {
    exists|m: int|
        0 <= m < paths.len() && (e.0)@ == (#[trigger] paths[m])@ && spec_hash_candidate(
            paths,
            fs,
            m,
        ) && e.1 as nat == crate::files::spec_file_bytes(fs, paths[m]@).len()
}

/// The size pre-filter: of the referenced paths, keep those whose file is
/// present and shares its kilobyte size bucket with another one, paired
/// with their recorded sizes.
#[verifier::rlimit(60)]
pub fn files_to_hash(paths: &Vec<String>, dir: &CoverDir) -> (r: Vec<(String, u64)>)
    requires
        dir.wf(),
        forall|i: int, j: int|
            0 <= i < j < paths@.len() ==> (#[trigger] paths@[i])@ != (#[trigger] paths@[j])@,
    ensures
        forall|i: int, j: int|
            0 <= i < j < r@.len() ==> (#[trigger] r@[i].0)@ != (#[trigger] r@[j].0)@,
        forall|e: int|
            0 <= e < r@.len() ==> spec_candidate_entry(paths@, dir.files@, #[trigger] r@[e]),
        forall|k: int|
            0 <= k < paths@.len() && spec_hash_candidate(paths@, dir.files@, k)
                ==> spec_listed_pair(r@, (#[trigger] paths@[k])@),
{
    let mut out: Vec<(String, u64)> = Vec::new();
    let mut k: usize = 0;
    while k < paths.len()
        invariant
            k <= paths@.len(),
            dir.wf(),
            forall|i: int, j: int|
                0 <= i < j < paths@.len() ==> (#[trigger] paths@[i])@ != (#[trigger] paths@[j])@,
            forall|e: int|
                0 <= e < out@.len() ==> spec_candidate_entry(paths@, dir.files@, #[trigger] out@[e]),
            forall|e: int| 0 <= e < out@.len() ==> exists|m: int|
                0 <= m < k && ((#[trigger] out@[e]).0)@ == (#[trigger] paths@[m])@,
            forall|m: int|
                0 <= m < k && spec_hash_candidate(paths@, dir.files@, m) ==> spec_listed_pair(
                    out@,
                    (#[trigger] paths@[m])@,
                ),
            forall|i: int, j: int|
                0 <= i < j < out@.len() ==> (#[trigger] out@[i].0)@ != (#[trigger] out@[j].0)@,
        decreases paths@.len() - k,
    {
        let ghost prev_out = out@;
        match file_size_of(dir, &paths[k]) {
            Some(size_k) => {
                let mut partner: bool = false;
                let mut m: usize = 0;
                while m < paths.len()
                    invariant
                        m <= paths@.len(),
                        k < paths@.len(),
                        dir.wf(),
                        spec_has_file(dir.files@, paths@[k as int]@),
                        size_k as nat == crate::files::spec_file_bytes(
                            dir.files@,
                            paths@[k as int]@,
                        ).len(),
                        partner ==> spec_hash_candidate(paths@, dir.files@, k as int),
                        !partner ==> forall|m2: int|
                            0 <= m2 < m && m2 != k as int ==> !(spec_has_file(
                                dir.files@,
                                (#[trigger] paths@[m2])@,
                            ) && crate::files::spec_file_bytes(dir.files@, paths@[m2]@).len() / 1024
                                == crate::files::spec_file_bytes(
                                dir.files@,
                                paths@[k as int]@,
                            ).len() / 1024),
                    decreases paths@.len() - m,
                {
                    if m != k && !partner {
                        match file_size_of(dir, &paths[m]) {
                            Some(size_m) => {
                                if size_m / 1024 == size_k / 1024 {
                                    partner = true;
                                }
                            },
                            None => {
                            },
                        }
                    }
                    m = m + 1;
                }
                if partner {
                    out.push((paths[k].clone(), size_k));
                    proof {
                        assert((out@[out@.len() - 1].0)@ == paths@[k as int]@);
                        assert(spec_candidate_entry(paths@, dir.files@, out@[out@.len() - 1]));
                    }
                }
            },
            None => {
            },
        }
        proof {
            assert forall|e: int| 0 <= e < out@.len() implies spec_candidate_entry(
                paths@,
                dir.files@,
                #[trigger] out@[e],
            ) by {
                if e < prev_out.len() {
                    assert(out@[e] == prev_out[e]);
                }
            }
            assert forall|e: int| 0 <= e < out@.len() implies exists|m: int|
                0 <= m < k + 1 && ((#[trigger] out@[e]).0)@ == (#[trigger] paths@[m])@ by {
                if e < prev_out.len() {
                    assert(out@[e] == prev_out[e]);
                    let m = choose|m: int|
                        0 <= m < k && ((#[trigger] prev_out[e]).0)@ == (#[trigger] paths@[m])@;
                    assert((out@[e].0)@ == paths@[m]@);
                } else {
                    assert((out@[e].0)@ == paths@[k as int]@);
                }
            }
            assert forall|m: int|
                0 <= m < k + 1 && spec_hash_candidate(
                    paths@,
                    dir.files@,
                    m,
                ) implies spec_listed_pair(out@, (#[trigger] paths@[m])@) by {
                if m < k {
                    let e = choose|e: int|
                        0 <= e < prev_out.len() && (#[trigger] prev_out[e].0)@ == paths@[m]@;
                    assert(out@[e] == prev_out[e]);
                    assert((out@[e].0)@ == paths@[m]@);
                } else {
                    assert((out@[out@.len() - 1].0)@ == paths@[m]@);
                }
            }
            assert forall|i: int, j: int|
                0 <= i < j < out@.len() implies (#[trigger] out@[i].0)@ != (
                #[trigger] out@[j].0)@ by {
                if j < prev_out.len() {
                    assert(out@[i] == prev_out[i] && out@[j] == prev_out[j]);
                } else if out@.len() > prev_out.len() && j == prev_out.len() {
                    assert(out@[i] == prev_out[i]);
                    let m = choose|m: int|
                        0 <= m < k && ((#[trigger] prev_out[i]).0)@ == (#[trigger] paths@[m])@;
                    assert((out@[j].0)@ == paths@[k as int]@);
                    assert(paths@[m]@ != paths@[k as int]@);
                }
            }
        }
        k = k + 1;
    }
    out
}


/// Whether two byte strings are equal.
fn bytes_eq(a: &Vec<u8>, b: &Vec<u8>) -> (r: bool)
    ensures
        r == (a@ == b@),
{
    if a.len() != b.len() {
        proof {
            assert(a@.len() != b@.len());
        }
        return false;
    }
    let mut i: usize = 0;
    while i < a.len()
        invariant
            i <= a@.len(),
            a@.len() == b@.len(),
            forall|j: int| 0 <= j < i ==> a@[j] == b@[j],
        decreases a@.len() - i,
    {
        if a[i] != b[i] {
            return false;
        }
        i = i + 1;
    }
    proof {
        assert(a@ =~= b@);
    }
    true
}

/// The entry is one of the first `upto` candidate files.
pub open spec fn spec_from_files(files: Seq<(String, u64)>, upto: int, e: (String, u64)) -> bool {
    exists|m: int| 0 <= m < upto && #[trigger] files[m] == e
}

/// The entry is one of the candidate files, its file is present, and its
/// file's digest is the group key.
pub open spec fn spec_hash_member(
    files: Seq<(String, u64)>,
    fs: Seq<CoverFile>,
    key: Seq<u8>,
    e: (String, u64),
) -> bool {
    &&& exists|k: int| 0 <= k < files.len() && #[trigger] files[k] == e
    &&& spec_has_file(fs, e.0@)
    &&& sha256_of(crate::files::spec_file_bytes(fs, e.0@)) == key
}

/// Some group member carries that path.
pub open spec fn spec_in_groups(
    groups: Seq<(Vec<u8>, Vec<(String, u64)>)>,
    p: Seq<char>,
) -> bool {
    exists|g: int| 0 <= g < groups.len() && spec_listed_pair((#[trigger] groups[g]).1@, p)
}

fn find_group(groups: &Vec<(Vec<u8>, Vec<(String, u64)>)>, key: &Vec<u8>) -> (r: Option<usize>)
    ensures
        match r {
            Some(g) => g < groups@.len() && groups@[g as int].0@ == key@,
            None => forall|g: int| 0 <= g < groups@.len() ==> (#[trigger] groups@[g]).0@ != key@,
        },
{
    let mut g: usize = 0;
    while g < groups.len()
        invariant
            g <= groups@.len(),
            forall|m: int| 0 <= m < g ==> (#[trigger] groups@[m]).0@ != key@,
        decreases groups@.len() - g,
    {
        if bytes_eq(&groups[g].0, key) {
            return Some(g);
        }
        g = g + 1;
    }
    None
}

/// Group the candidate files by the digest of their content.  Files that
/// are no longer present are dropped; every present candidate lands in
/// exactly the group keyed by its digest.
#[verifier::rlimit(60)]
pub fn hash_groups(files: &Vec<(String, u64)>, dir: &CoverDir) -> (r: Vec<
    (Vec<u8>, Vec<(String, u64)>),
>)
    requires
        dir.wf(),
        forall|i: int, j: int|
            0 <= i < j < files@.len() ==> (#[trigger] files@[i].0)@ != (#[trigger] files@[j].0)@,
    ensures
        forall|g: int| 0 <= g < r@.len() ==> (#[trigger] r@[g]).1@.len() >= 1,
        forall|g1: int, g2: int|
            0 <= g1 < g2 < r@.len() ==> (#[trigger] r@[g1]).0@ != (#[trigger] r@[g2]).0@,
        forall|g: int, i: int|
            0 <= g < r@.len() && 0 <= i < (#[trigger] r@[g]).1@.len() ==> spec_hash_member(
                files@,
                dir.files@,
                r@[g].0@,
                #[trigger] r@[g].1@[i],
            ),
        forall|g: int, i: int, j: int|
            0 <= g < r@.len() && 0 <= i < j < (#[trigger] r@[g]).1@.len() ==> ((
            #[trigger] r@[g].1@[i]).0)@ != ((#[trigger] r@[g].1@[j]).0)@,
        forall|k: int|
            0 <= k < files@.len() && spec_has_file(dir.files@, (#[trigger] files@[k].0)@)
                ==> spec_in_groups(r@, files@[k].0@),
{
    let mut groups: Vec<(Vec<u8>, Vec<(String, u64)>)> = Vec::new();
    let mut k: usize = 0;
    while k < files.len()
        invariant
            k <= files@.len(),
            dir.wf(),
            forall|i: int, j: int|
                0 <= i < j < files@.len() ==> (#[trigger] files@[i].0)@ != (
                #[trigger] files@[j].0)@,
            forall|g: int| 0 <= g < groups@.len() ==> (#[trigger] groups@[g]).1@.len() >= 1,
            forall|g1: int, g2: int|
                0 <= g1 < g2 < groups@.len() ==> (#[trigger] groups@[g1]).0@ != (
                #[trigger] groups@[g2]).0@,
            forall|g: int, i: int|
                0 <= g < groups@.len() && 0 <= i < (#[trigger] groups@[g]).1@.len()
                    ==> spec_hash_member(
                    files@,
                    dir.files@,
                    groups@[g].0@,
                    #[trigger] groups@[g].1@[i],
                ),
            forall|g: int, i: int|
                0 <= g < groups@.len() && 0 <= i < groups@[g].1@.len() ==> spec_from_files(
                    files@,
                    k as int,
                    #[trigger] groups@[g].1@[i],
                ),
            forall|g: int, i: int, j: int|
                0 <= g < groups@.len() && 0 <= i < j < (#[trigger] groups@[g]).1@.len() ==> ((
                #[trigger] groups@[g].1@[i]).0)@ != ((#[trigger] groups@[g].1@[j]).0)@,
            forall|m: int|
                0 <= m < k && spec_has_file(dir.files@, (#[trigger] files@[m].0)@)
                    ==> spec_in_groups(groups@, files@[m].0@),
        decreases files@.len() - k,
    {
        let ghost prev = groups@;
        match dir.find_index(&files[k].0) {
            Some(fi) => {
                let digest = sha256_digest(dir.files[fi].bytes.as_slice());
                proof {
                    let j = choose|j: int|
                        0 <= j < dir.files@.len() && #[trigger] dir.files@[j].name@ == files@[
                            k as int
                        ].0@;
                    assert(j == fi as int);
                    assert(digest@ == sha256_of(
                        crate::files::spec_file_bytes(dir.files@, files@[k as int].0@),
                    ));
                }
                let entry = (files[k].0.clone(), files[k].1);
                proof {
                    assert(entry == files@[k as int]) by {
                        assert(entry.0 == files@[k as int].0);
                        assert(entry.1 == files@[k as int].1);
                    }
                }
                match find_group(&groups, &digest) {
                    Some(gi) => {
                        let mut slot: (Vec<u8>, Vec<(String, u64)>) = (Vec::new(), Vec::new());
                        groups.set_and_swap(gi, &mut slot);
                        let ghost old_members = slot.1@;
                        slot.1.push(entry);
                        groups.set_and_swap(gi, &mut slot);
                        proof {
                            assert(groups@[gi as int].0@ == prev[gi as int].0@);
                            assert(groups@[gi as int].1@ =~= prev[gi as int].1@.push(
                                files@[k as int],
                            ));
                            assert forall|g: int, i: int|
                                0 <= g < groups@.len() && 0 <= i < (
                                #[trigger] groups@[g]).1@.len() implies spec_hash_member(
                                files@,
                                dir.files@,
                                groups@[g].0@,
                                #[trigger] groups@[g].1@[i],
                            ) by {
                                if g != gi as int {
                                    assert(groups@[g] == prev[g]);
                                } else if i < prev[g].1@.len() {
                                    assert(groups@[g].1@[i] == prev[g].1@[i]);
                                } else {
                                    assert(groups@[g].1@[i] == files@[k as int]);
                                }
                            }
                            assert forall|g: int, i: int|
                                0 <= g < groups@.len() && 0 <= i
                                    < groups@[g].1@.len() implies spec_from_files(
                                files@,
                                k + 1,
                                #[trigger] groups@[g].1@[i],
                            ) by {
                                if g != gi as int {
                                    assert(groups@[g] == prev[g]);
                                    assert(spec_from_files(files@, k as int, groups@[g].1@[i]));
                                    let m = choose|m: int|
                                        0 <= m < k && #[trigger] files@[m] == groups@[g].1@[i];
                                    assert(files@[m] == groups@[g].1@[i]);
                                } else if i < prev[g].1@.len() {
                                    assert(groups@[g].1@[i] == prev[g].1@[i]);
                                    assert(spec_from_files(files@, k as int, prev[g].1@[i]));
                                    let m = choose|m: int|
                                        0 <= m < k && #[trigger] files@[m] == prev[g].1@[i];
                                    assert(files@[m] == groups@[g].1@[i]);
                                } else {
                                    assert(files@[k as int] == groups@[g].1@[i]);
                                }
                            }
                            assert forall|g: int, i: int, j: int|
                                0 <= g < groups@.len() && 0 <= i < j < (
                                #[trigger] groups@[g]).1@.len() implies ((
                            #[trigger] groups@[g].1@[i]).0)@ != ((
                            #[trigger] groups@[g].1@[j]).0)@ by {
                                if g != gi as int {
                                    assert(groups@[g] == prev[g]);
                                } else if j < prev[g].1@.len() {
                                    assert(groups@[g].1@[i] == prev[g].1@[i]);
                                    assert(groups@[g].1@[j] == prev[g].1@[j]);
                                } else {
                                    assert(groups@[g].1@[i] == prev[g].1@[i]);
                                    assert(groups@[g].1@[j] == files@[k as int]);
                                    assert(spec_from_files(files@, k as int, prev[g].1@[i]));
                                    let m = choose|m: int|
                                        0 <= m < k && #[trigger] files@[m] == prev[g].1@[i];
                                    assert((files@[m].0)@ != (files@[k as int].0)@);
                                }
                            }
                            assert forall|m: int|
                                0 <= m < k + 1 && spec_has_file(
                                    dir.files@,
                                    (#[trigger] files@[m].0)@,
                                ) implies spec_in_groups(groups@, files@[m].0@) by {
                                if m < k {
                                    let g = choose|g: int|
                                        0 <= g < prev.len() && spec_listed_pair(
                                            (#[trigger] prev[g]).1@,
                                            files@[m].0@,
                                        );
                                    if g == gi as int {
                                        let i = choose|i: int|
                                            0 <= i < prev[g].1@.len() && (
                                            #[trigger] prev[g].1@[i].0)@ == files@[m].0@;
                                        assert(groups@[g].1@[i] == prev[g].1@[i]);
                                        assert(spec_listed_pair(groups@[g].1@, files@[m].0@));
                                    } else {
                                        assert(groups@[g] == prev[g]);
                                        assert(spec_listed_pair(groups@[g].1@, files@[m].0@));
                                    }
                                } else {
                                    assert((groups@[gi as int].1@[groups@[gi as int].1@.len()
                                        - 1].0)@ == files@[m].0@);
                                    assert(spec_listed_pair(groups@[gi as int].1@, files@[m].0@));
                                }
                            }
                        }
                    },
                    None => {
                        let mut members: Vec<(String, u64)> = Vec::new();
                        members.push(entry);
                        groups.push((digest, members));
                        proof {
                            assert(groups@[groups@.len() - 1].1@[0] == files@[k as int]);
                            assert forall|g: int, i: int|
                                0 <= g < groups@.len() && 0 <= i
                                    < groups@[g].1@.len() implies spec_from_files(
                                files@,
                                k + 1,
                                #[trigger] groups@[g].1@[i],
                            ) by {
                                if g < prev.len() {
                                    assert(groups@[g] == prev[g]);
                                    assert(spec_from_files(files@, k as int, groups@[g].1@[i]));
                                    let m = choose|m: int|
                                        0 <= m < k && #[trigger] files@[m] == groups@[g].1@[i];
                                    assert(files@[m] == groups@[g].1@[i]);
                                } else {
                                    assert(files@[k as int] == groups@[g].1@[i]);
                                }
                            }
                            assert forall|m: int|
                                0 <= m < k + 1 && spec_has_file(
                                    dir.files@,
                                    (#[trigger] files@[m].0)@,
                                ) implies spec_in_groups(groups@, files@[m].0@) by {
                                if m < k {
                                    let g = choose|g: int|
                                        0 <= g < prev.len() && spec_listed_pair(
                                            (#[trigger] prev[g]).1@,
                                            files@[m].0@,
                                        );
                                    assert(groups@[g] == prev[g]);
                                    assert(spec_listed_pair(groups@[g].1@, files@[m].0@));
                                } else {
                                    assert((groups@[groups@.len() - 1].1@[0].0)@ == files@[
                                        m
                                    ].0@);
                                    assert(spec_listed_pair(
                                        groups@[groups@.len() - 1].1@,
                                        files@[m].0@,
                                    ));
                                }
                            }
                        }
                    },
                }
            },
            None => {
            },
        }
        k = k + 1;
    }
    groups
}


/// A referenced cover path of the album that the analysis will hash: its
/// file is present, and another referenced file of the album shares its
/// kilobyte size bucket.
pub open spec fn spec_album_candidate(
    ts: Seq<Track>,
    fs: Seq<CoverFile>,
    a: Seq<char>,
    p: Seq<char>,
) -> bool {
    &&& spec_row_covers_path(ts, a, p)
    &&& spec_has_file(fs, p)
    &&& exists|q: Seq<char>|
        #[trigger] spec_row_covers_path(ts, a, q) && q != p && spec_has_file(fs, q)
            && crate::files::spec_file_bytes(fs, q).len() / 1024 == crate::files::spec_file_bytes(
            fs,
            p,
        ).len() / 1024
}

/// The path belongs to a duplicate set of the album: another candidate
/// holds byte-identical content.
pub open spec fn spec_dup_member(
    ts: Seq<Track>,
    fs: Seq<CoverFile>,
    a: Seq<char>,
    p: Seq<char>,
) -> bool {
    &&& spec_album_candidate(ts, fs, a, p)
    &&& exists|q: Seq<char>|
        #[trigger] spec_album_candidate(ts, fs, a, q) && q != p && sha256_of(
            crate::files::spec_file_bytes(fs, q),
        ) == sha256_of(crate::files::spec_file_bytes(fs, p))
}

/// `c` is the canonical member of `p`'s duplicate set: a candidate with
/// the same content, lexicographically least among them.
pub open spec fn spec_set_canonical(
    ts: Seq<Track>,
    fs: Seq<CoverFile>,
    a: Seq<char>,
    p: Seq<char>,
    c: Seq<char>,
) -> bool {
    &&& spec_album_candidate(ts, fs, a, c)
    &&& sha256_of(crate::files::spec_file_bytes(fs, c)) == sha256_of(
        crate::files::spec_file_bytes(fs, p),
    )
    &&& forall|q: Seq<char>|
        #[trigger] spec_album_candidate(ts, fs, a, q) && sha256_of(
            crate::files::spec_file_bytes(fs, q),
        ) == sha256_of(crate::files::spec_file_bytes(fs, p)) ==> lex_le(c, q)
}

/// A doomed path: in a duplicate set of the album, and not the set's
/// canonical member.
pub open spec fn spec_doomed_path(
    ts: Seq<Track>,
    fs: Seq<CoverFile>,
    a: Seq<char>,
    p: Seq<char>,
) -> bool {
    spec_dup_member(ts, fs, a, p) && !spec_set_canonical(ts, fs, a, p, p)
}

proof fn lemma_candidates_listed(
    ts: Seq<Track>,
    fs: Seq<CoverFile>,
    a: Seq<char>,
    paths: Seq<String>,
    fth: Seq<(String, u64)>,
)
    requires
        forall|i: int, j: int| 0 <= i < j < paths.len() ==> (#[trigger] paths[i])@ != (#[trigger] paths[j])@,
        forall|i: int| 0 <= i < paths.len() ==> spec_row_covers_path(ts, a, (#[trigger] paths[i])@),
        forall|j: int|
            0 <= j < ts.len() && spec_covered_row(#[trigger] ts[j], a) ==> spec_listed(
                paths,
                ts[j].track_cover_path->0@,
            ),
        forall|e: int| 0 <= e < fth.len() ==> spec_candidate_entry(paths, fs, #[trigger] fth[e]),
        forall|k: int|
            0 <= k < paths.len() && spec_hash_candidate(paths, fs, k) ==> spec_listed_pair(
                fth,
                (#[trigger] paths[k])@,
            ),
    ensures
        forall|e: int|
            0 <= e < fth.len() ==> spec_album_candidate(ts, fs, a, (#[trigger] fth[e].0)@),
        forall|p: Seq<char>|
            #[trigger] spec_album_candidate(ts, fs, a, p) ==> spec_listed_pair(fth, p),
{
    assert forall|e: int| 0 <= e < fth.len() implies spec_album_candidate(
        ts,
        fs,
        a,
        (#[trigger] fth[e].0)@,
    ) by {
        assert(spec_candidate_entry(paths, fs, fth[e]));
        let m = choose|m: int|
            0 <= m < paths.len() && (fth[e].0)@ == (#[trigger] paths[m])@ && spec_hash_candidate(
                paths,
                fs,
                m,
            ) && fth[e].1 as nat == crate::files::spec_file_bytes(fs, paths[m]@).len();
        let m2 = choose|m2: int|
            0 <= m2 < paths.len() && m2 != m && spec_has_file(fs, (#[trigger] paths[m2])@)
                && crate::files::spec_file_bytes(fs, paths[m2]@).len() / 1024
                == crate::files::spec_file_bytes(fs, paths[m]@).len() / 1024;
        assert(spec_row_covers_path(ts, a, paths[m2]@));
        assert(paths[m2]@ != paths[m]@) by {
            if m < m2 {
            } else {
            }
        }
    }
    assert forall|p: Seq<char>| #[trigger] spec_album_candidate(ts, fs, a, p) implies spec_listed_pair(
        fth,
        p,
    ) by {
        let j = choose|j: int|
            0 <= j < ts.len() && spec_covered_row(#[trigger] ts[j], a) && ts[j].track_cover_path->0@
                == p;
        assert(spec_listed(paths, p));
        let k = choose|k: int| 0 <= k < paths.len() && (#[trigger] paths[k])@ == p;
        let q = choose|q: Seq<char>|
            #[trigger] spec_row_covers_path(ts, a, q) && q != p && spec_has_file(fs, q)
                && crate::files::spec_file_bytes(fs, q).len() / 1024
                == crate::files::spec_file_bytes(fs, p).len() / 1024;
        let jq = choose|jq: int|
            0 <= jq < ts.len() && spec_covered_row(#[trigger] ts[jq], a) && ts[
                jq
            ].track_cover_path->0@ == q;
        assert(spec_listed(paths, q));
        let m2 = choose|m2: int| 0 <= m2 < paths.len() && (#[trigger] paths[m2])@ == q;
        assert(m2 != k);
        assert(spec_hash_candidate(paths, fs, k));
    }
}

#[verifier::rlimit(100)]
#[verifier::spinoff_prover]
proof fn lemma_groups_characterize_dups(
    ts: Seq<Track>,
    fs: Seq<CoverFile>,
    a: Seq<char>,
    paths: Seq<String>,
    fth: Seq<(String, u64)>,
    groups: Seq<(Vec<u8>, Vec<(String, u64)>)>,
)
    requires
        forall|i: int, j: int| 0 <= i < j < paths.len() ==> (#[trigger] paths[i])@ != (#[trigger] paths[j])@,
        forall|i: int| 0 <= i < paths.len() ==> spec_row_covers_path(ts, a, (#[trigger] paths[i])@),
        forall|j: int|
            0 <= j < ts.len() && spec_covered_row(#[trigger] ts[j], a) ==> spec_listed(
                paths,
                ts[j].track_cover_path->0@,
            ),
        forall|e: int| 0 <= e < fth.len() ==> spec_candidate_entry(paths, fs, #[trigger] fth[e]),
        forall|k: int|
            0 <= k < paths.len() && spec_hash_candidate(paths, fs, k) ==> spec_listed_pair(
                fth,
                (#[trigger] paths[k])@,
            ),
        forall|g: int| 0 <= g < groups.len() ==> (#[trigger] groups[g]).1@.len() >= 1,
        forall|g1: int, g2: int|
            0 <= g1 < g2 < groups.len() ==> (#[trigger] groups[g1]).0@ != (#[trigger] groups[g2]).0@,
        forall|g: int, i: int|
            0 <= g < groups.len() && 0 <= i < (#[trigger] groups[g]).1@.len() ==> spec_hash_member(
                fth,
                fs,
                groups[g].0@,
                #[trigger] groups[g].1@[i],
            ),
        forall|g: int, i: int, j: int|
            0 <= g < groups.len() && 0 <= i < j < (#[trigger] groups[g]).1@.len() ==> ((
            #[trigger] groups[g].1@[i]).0)@ != ((#[trigger] groups[g].1@[j]).0)@,
        forall|k: int|
            0 <= k < fth.len() && spec_has_file(fs, (#[trigger] fth[k].0)@) ==> spec_in_groups(
                groups,
                fth[k].0@,
            ),
    ensures
        forall|g: int, i: int|
            0 <= g < groups.len() && (#[trigger] groups[g]).1@.len() >= 2 && 0 <= i
                < groups[g].1@.len() ==> spec_dup_member(ts, fs, a, (#[trigger] groups[g].1@[i].0)@),
        forall|p: Seq<char>|
            #[trigger] spec_dup_member(ts, fs, a, p) ==> exists|g: int|
                0 <= g < groups.len() && (#[trigger] groups[g]).1@.len() >= 2 && spec_listed_pair(
                    groups[g].1@,
                    p,
                ),
        forall|g: int, i: int, c: Seq<char>|
            #![trigger spec_is_canonical(groups[g].1@, c), groups[g].1@[i]]
            0 <= g < groups.len() && groups[g].1@.len() >= 2 && 0 <= i < groups[g].1@.len()
                && spec_is_canonical(groups[g].1@, c) ==> spec_set_canonical(
                ts,
                fs,
                a,
                (groups[g].1@[i].0)@,
                c,
            ),
        forall|g: int, i: int, c: Seq<char>|
            #![trigger spec_is_canonical(groups[g].1@, c), groups[g].1@[i]]
            0 <= g < groups.len() && groups[g].1@.len() >= 2 && 0 <= i < groups[g].1@.len()
                && spec_is_canonical(groups[g].1@, c) ==> (spec_doomed_path(
                ts,
                fs,
                a,
                (groups[g].1@[i].0)@,
            ) <==> (groups[g].1@[i].0)@ != c),
{
    lemma_candidates_listed(ts, fs, a, paths, fth);
    // Every member of a group of two or more is a duplicate member.
    assert forall|g: int, i: int|
        0 <= g < groups.len() && (#[trigger] groups[g]).1@.len() >= 2 && 0 <= i
            < groups[g].1@.len() implies spec_dup_member(
        ts,
        fs,
        a,
        (#[trigger] groups[g].1@[i].0)@,
    ) by {
        let p = (groups[g].1@[i].0)@;
        assert(spec_hash_member(fth, fs, groups[g].0@, groups[g].1@[i]));
        let ke = choose|ke: int| 0 <= ke < fth.len() && #[trigger] fth[ke] == groups[g].1@[i];
        assert(spec_album_candidate(ts, fs, a, (fth[ke].0)@));
        let i2: int = if i == 0 {
            1
        } else {
            0
        };
        let q = (groups[g].1@[i2].0)@;
        assert(spec_hash_member(fth, fs, groups[g].0@, groups[g].1@[i2]));
        let ke2 = choose|ke2: int| 0 <= ke2 < fth.len() && #[trigger] fth[ke2] == groups[g].1@[i2];
        assert(spec_album_candidate(ts, fs, a, q));
        assert(q != p) by {
            if i < i2 {
            } else {
            }
        }
        assert(sha256_of(crate::files::spec_file_bytes(fs, q)) == groups[g].0@);
        assert(sha256_of(crate::files::spec_file_bytes(fs, p)) == groups[g].0@);
    }
    // Every duplicate member stands in a group of two or more.
    assert forall|p: Seq<char>| #[trigger] spec_dup_member(ts, fs, a, p) implies exists|g: int|
        0 <= g < groups.len() && (#[trigger] groups[g]).1@.len() >= 2 && spec_listed_pair(
            groups[g].1@,
            p,
        ) by {
        assert(spec_album_candidate(ts, fs, a, p));
        assert(spec_listed_pair(fth, p));
        let kp = choose|kp: int| 0 <= kp < fth.len() && (#[trigger] fth[kp].0)@ == p;
        assert(spec_in_groups(groups, p));
        let gp = choose|gp: int|
            0 <= gp < groups.len() && spec_listed_pair((#[trigger] groups[gp]).1@, p);
        let ip = choose|ip: int|
            0 <= ip < groups[gp].1@.len() && ((#[trigger] groups[gp].1@[ip]).0)@ == p;
        assert(spec_hash_member(fth, fs, groups[gp].0@, groups[gp].1@[ip]));
        assert(sha256_of(crate::files::spec_file_bytes(fs, p)) == groups[gp].0@);
        let q = choose|q: Seq<char>|
            #[trigger] spec_album_candidate(ts, fs, a, q) && q != p && sha256_of(
                crate::files::spec_file_bytes(fs, q),
            ) == sha256_of(crate::files::spec_file_bytes(fs, p));
        assert(spec_listed_pair(fth, q));
        let kq = choose|kq: int| 0 <= kq < fth.len() && (#[trigger] fth[kq].0)@ == q;
        assert(spec_in_groups(groups, q));
        let gq = choose|gq: int|
            0 <= gq < groups.len() && spec_listed_pair((#[trigger] groups[gq]).1@, q);
        let iq = choose|iq: int|
            0 <= iq < groups[gq].1@.len() && ((#[trigger] groups[gq].1@[iq]).0)@ == q;
        assert(spec_hash_member(fth, fs, groups[gq].0@, groups[gq].1@[iq]));
        assert(groups[gq].0@ == groups[gp].0@);
        assert(gq == gp) by {
            if gq < gp {
            } else if gp < gq {
            }
        }
        assert(ip != iq);
        assert(groups[gp].1@.len() >= 2);
    }
    // The lexicographic least of a big group is the canonical member of
    // every member's duplicate set.
    assert forall|g: int, i: int, c: Seq<char>|
        #![trigger spec_is_canonical(groups[g].1@, c), groups[g].1@[i]]
        0 <= g < groups.len() && groups[g].1@.len() >= 2 && 0 <= i < groups[g].1@.len()
            && spec_is_canonical(groups[g].1@, c) implies spec_set_canonical(
        ts,
        fs,
        a,
        (groups[g].1@[i].0)@,
        c,
    ) by {
        let p = (groups[g].1@[i].0)@;
        let kc = choose|kc: int|
            0 <= kc < groups[g].1@.len() && ((#[trigger] groups[g].1@[kc]).0)@ == c;
        assert(spec_hash_member(fth, fs, groups[g].0@, groups[g].1@[kc]));
        let kec = choose|kec: int| 0 <= kec < fth.len() && #[trigger] fth[kec] == groups[g].1@[kc];
        assert(spec_album_candidate(ts, fs, a, c));
        assert(sha256_of(crate::files::spec_file_bytes(fs, c)) == groups[g].0@);
        assert(sha256_of(crate::files::spec_file_bytes(fs, p)) == groups[g].0@);
        assert forall|q: Seq<char>|
            #[trigger] spec_album_candidate(ts, fs, a, q) && sha256_of(
                crate::files::spec_file_bytes(fs, q),
            ) == sha256_of(crate::files::spec_file_bytes(fs, p)) implies lex_le(c, q) by {
            assert(spec_listed_pair(fth, q));
            let kq = choose|kq: int| 0 <= kq < fth.len() && (#[trigger] fth[kq].0)@ == q;
            assert(spec_in_groups(groups, q));
            let gq = choose|gq: int|
                0 <= gq < groups.len() && spec_listed_pair((#[trigger] groups[gq]).1@, q);
            let iq = choose|iq: int|
                0 <= iq < groups[gq].1@.len() && ((#[trigger] groups[gq].1@[iq]).0)@ == q;
            assert(spec_hash_member(fth, fs, groups[gq].0@, groups[gq].1@[iq]));
            assert(groups[gq].0@ == groups[g].0@);
            assert(gq == g) by {
                if gq < g {
                } else if g < gq {
                }
            }
            assert(lex_le(c, (groups[g].1@[iq].0)@));
        }
    }
    // A member is doomed exactly when it is not the canonical path.
    assert forall|g: int, i: int, c: Seq<char>|
        #![trigger spec_is_canonical(groups[g].1@, c), groups[g].1@[i]]
        0 <= g < groups.len() && groups[g].1@.len() >= 2 && 0 <= i < groups[g].1@.len()
            && spec_is_canonical(groups[g].1@, c) implies (spec_doomed_path(
        ts,
        fs,
        a,
        (groups[g].1@[i].0)@,
    ) <==> (groups[g].1@[i].0)@ != c) by {
        let p = (groups[g].1@[i].0)@;
        assert(spec_dup_member(ts, fs, a, p));
        assert(spec_set_canonical(ts, fs, a, p, c));
        if p == c {
            assert(spec_set_canonical(ts, fs, a, p, p));
            assert(!spec_doomed_path(ts, fs, a, p));
        } else {
            if spec_set_canonical(ts, fs, a, p, p) {
                assert(lex_le(p, c));
                assert(lex_le(c, p));
                lex_le_antisymmetric(p, c);
            }
            assert(spec_doomed_path(ts, fs, a, p));
        }
    }
}

/// The analysis of one album, computed against the run's opening store
/// and directory: the distinct referenced paths, the size-bucket
/// candidates, the content groups, and each group's canonical position.
struct AlbumPlan {
    album: String,
    paths: Vec<String>,
    candidates: Vec<(String, u64)>,
    groups: Vec<(Vec<u8>, Vec<(String, u64)>)>,
    canonicals: Vec<usize>,
}

/// The plan records exactly what the analysis stage guarantees about the
/// album, over the opening store and directory.
spec fn plan_wf(ts: Seq<Track>, fs: Seq<CoverFile>, plan: AlbumPlan) -> bool {
    let a = plan.album@;
    let paths = plan.paths@;
    let fth = plan.candidates@;
    let groups = plan.groups@;
    &&& forall|i: int, j: int|
        0 <= i < j < paths.len() ==> (#[trigger] paths[i])@ != (#[trigger] paths[j])@
    &&& forall|i: int| 0 <= i < paths.len() ==> spec_row_covers_path(ts, a, (#[trigger] paths[i])@)
    &&& forall|j: int|
        0 <= j < ts.len() && spec_covered_row(#[trigger] ts[j], a) ==> spec_listed(
            paths,
            ts[j].track_cover_path->0@,
        )
    &&& forall|e: int| 0 <= e < fth.len() ==> spec_candidate_entry(paths, fs, #[trigger] fth[e])
    &&& forall|k: int|
        0 <= k < paths.len() && spec_hash_candidate(paths, fs, k) ==> spec_listed_pair(
            fth,
            (#[trigger] paths[k])@,
        )
    &&& forall|g: int| 0 <= g < groups.len() ==> (#[trigger] groups[g]).1@.len() >= 1
    &&& forall|g1: int, g2: int|
        0 <= g1 < g2 < groups.len() ==> (#[trigger] groups[g1]).0@ != (#[trigger] groups[g2]).0@
    &&& forall|g: int, i: int|
        0 <= g < groups.len() && 0 <= i < (#[trigger] groups[g]).1@.len() ==> spec_hash_member(
            fth,
            fs,
            groups[g].0@,
            #[trigger] groups[g].1@[i],
        )
    &&& forall|g: int, i: int, j: int|
        0 <= g < groups.len() && 0 <= i < j < (#[trigger] groups[g]).1@.len() ==> ((
        #[trigger] groups[g].1@[i]).0)@ != ((#[trigger] groups[g].1@[j]).0)@
    &&& forall|k: int|
        0 <= k < fth.len() && spec_has_file(fs, (#[trigger] fth[k].0)@) ==> spec_in_groups(
            groups,
            fth[k].0@,
        )
    &&& plan.canonicals@.len() == groups.len()
    &&& forall|g: int|
        0 <= g < groups.len() && (#[trigger] groups[g]).1@.len() >= 2 ==> (
        plan.canonicals@[g] as int) < groups[g].1@.len() && spec_is_canonical(
            groups[g].1@,
            (groups[g].1@[plan.canonicals@[g] as int].0)@,
        )
}

/// The name stands in one of the plan's duplicate sets away from the
/// canonical position.
spec fn spec_plan_dooms(plan: AlbumPlan, name: Seq<char>) -> bool {
    exists|g: int|
        0 <= g < plan.groups@.len() && (#[trigger] plan.groups@[g]).1@.len() >= 2
            && spec_in_group_not_canonical(
            plan.groups@[g].1@,
            plan.canonicals@[g] as int,
            name,
        )
}

fn plan_dooms(plan: &AlbumPlan, name: &String) -> (r: bool)
    requires
        plan.canonicals@.len() == plan.groups@.len(),
    ensures
        r == spec_plan_dooms(*plan, name@),
{
    let mut g: usize = 0;
    while g < plan.groups.len()
        invariant
            g <= plan.groups@.len(),
            plan.canonicals@.len() == plan.groups@.len(),
            forall|g2: int|
                0 <= g2 < g ==> !((#[trigger] plan.groups@[g2]).1@.len() >= 2
                    && spec_in_group_not_canonical(
                    plan.groups@[g2].1@,
                    plan.canonicals@[g2] as int,
                    name@,
                )),
        decreases plan.groups@.len() - g,
    {
        if plan.groups[g].1.len() >= 2 && path_in_group_not_canonical(
            &plan.groups[g].1,
            plan.canonicals[g],
            name,
        ) {
            return true;
        }
        g = g + 1;
    }
    false
}

/// Under the plan's analysis facts, a name doomed by the plan is exactly
/// a doomed path of the album, and the canonical of a doomed name's group
/// is its set's canonical member.
proof fn lemma_plan_dooms_exact(ts: Seq<Track>, fs: Seq<CoverFile>, plan: AlbumPlan)
    requires
        plan_wf(ts, fs, plan),
    ensures
        forall|p: Seq<char>| #[trigger] spec_plan_dooms(plan, p) <==> spec_doomed_path(
            ts,
            fs,
            plan.album@,
            p,
        ),
        forall|g: int, i: int|
            #![trigger plan.groups@[g].1@[i]]
            0 <= g < plan.groups@.len() && plan.groups@[g].1@.len() >= 2 && 0 <= i
                < plan.groups@[g].1@.len() ==> spec_set_canonical(
                ts,
                fs,
                plan.album@,
                (plan.groups@[g].1@[i].0)@,
                (plan.groups@[g].1@[plan.canonicals@[g] as int].0)@,
            ),
{
    let a = plan.album@;
    let groups = plan.groups@;
    lemma_groups_characterize_dups(ts, fs, a, plan.paths@, plan.candidates@, groups);
    assert forall|g: int, i: int|
        #![trigger plan.groups@[g].1@[i]]
        0 <= g < groups.len() && groups[g].1@.len() >= 2 && 0 <= i
            < groups[g].1@.len() implies spec_set_canonical(
        ts,
        fs,
        a,
        (groups[g].1@[i].0)@,
        (groups[g].1@[plan.canonicals@[g] as int].0)@,
    ) by {
        assert(spec_is_canonical(groups[g].1@, (groups[g].1@[plan.canonicals@[g] as int].0)@));
    }
    assert forall|p: Seq<char>| #[trigger] spec_plan_dooms(plan, p) implies spec_doomed_path(
        ts,
        fs,
        a,
        p,
    ) by {
        let g = choose|g: int|
            0 <= g < groups.len() && (#[trigger] groups[g]).1@.len() >= 2
                && spec_in_group_not_canonical(groups[g].1@, plan.canonicals@[g] as int, p);
        let ci = plan.canonicals@[g] as int;
        let k = choose|k: int|
            0 <= k < groups[g].1@.len() && k != ci && ((#[trigger] groups[g].1@[k]).0)@ == p;
        let c = (groups[g].1@[ci].0)@;
        assert(spec_is_canonical(groups[g].1@, c));
        assert(p != c);
        assert(spec_doomed_path(ts, fs, a, (groups[g].1@[k].0)@) <==> (groups[g].1@[k].0)@ != c);
    }
    assert forall|p: Seq<char>|
        spec_doomed_path(ts, fs, a, p) implies #[trigger] spec_plan_dooms(plan, p) by {
        assert(spec_dup_member(ts, fs, a, p));
        let g = choose|g: int|
            0 <= g < groups.len() && (#[trigger] groups[g]).1@.len() >= 2 && spec_listed_pair(
                groups[g].1@,
                p,
            );
        let k = choose|k: int|
            0 <= k < groups[g].1@.len() && ((#[trigger] groups[g].1@[k]).0)@ == p;
        let ci = plan.canonicals@[g] as int;
        let c = (groups[g].1@[ci].0)@;
        assert(spec_is_canonical(groups[g].1@, c));
        assert(spec_doomed_path(ts, fs, a, (groups[g].1@[k].0)@) <==> (groups[g].1@[k].0)@ != c);
        assert(k != ci);
        assert(spec_in_group_not_canonical(groups[g].1@, ci, p));
    }
}

/// Each cover path is referenced by the tracks of at most one album, as
/// the per-track naming of stored covers makes it.  A store in which two
/// albums' tracks share a cover file is outside this contract: the merge
/// of one album can then delete a file the other still references.
pub open spec fn spec_covers_partitioned(ts: Seq<Track>) -> bool {
    forall|j1: int, j2: int|
        0 <= j1 < ts.len() && 0 <= j2 < ts.len() && (#[trigger] ts[j1]).album is Some && ts[
            j1
        ].track_cover_path is Some && (#[trigger] ts[j2]).album is Some && ts[
            j2
        ].track_cover_path is Some && ts[j1].track_cover_path->0@ == ts[j2].track_cover_path->0@
            ==> ts[j1].album->0@ == ts[j2].album->0@
}

/// Some row's album dooms the file name.
pub open spec fn spec_doomed_file(ts: Seq<Track>, fs: Seq<CoverFile>, p: Seq<char>) -> bool {
    exists|j: int|
        0 <= j < ts.len() && (#[trigger] ts[j]).album is Some && spec_doomed_path(
            ts,
            fs,
            ts[j].album->0@,
            p,
        )
}

/// A row after the whole merge run: a track whose cover path is doomed in
/// its own album now carries the set's canonical path; every other row is
/// untouched.
pub open spec fn spec_fully_merged_row(ts: Seq<Track>, fs: Seq<CoverFile>, t: Track, ft: Track) -> bool {
    if t.album is Some && t.track_cover_path is Some && spec_doomed_path(
        ts,
        fs,
        t.album->0@,
        t.track_cover_path->0@,
    ) {
        &&& ft.track_cover_path is Some
        &&& spec_set_canonical(ts, fs, t.album->0@, t.track_cover_path->0@, ft.track_cover_path->0@)
        &&& ft == track_with_cover_path(t, ft.track_cover_path)
    } else {
        ft == t
    }
}

/// The total bytes of the doomed files, before saturation.
pub open spec fn spec_doomed_bytes(ts: Seq<Track>, fsctx: Seq<CoverFile>, fs: Seq<CoverFile>) -> nat
    decreases fs.len(),
{
    if fs.len() == 0 {
        0
    } else {
        spec_doomed_bytes(ts, fsctx, fs.drop_last()) + (if spec_doomed_file(
            ts,
            fsctx,
            fs.last().name@,
        ) {
            fs.last().bytes@.len()
        } else {
            0
        })
    }
}

/// A count capped at `u64::MAX`, as the saturating accumulation reports it.
pub open spec fn spec_cap64(n: nat) -> nat {
    if n > u64::MAX {
        u64::MAX as nat
    } else {
        n
    }
}

proof fn lemma_sat_add_cap(s: nat, total: nat, x: nat)
    requires
        s == spec_cap64(total),
    ensures
        crate::batch::spec_sat_add(s, x) == spec_cap64(total + x),
{
}

/// The bytes doomed by the albums listed so far.
spec fn spec_doomed_bytes_upto(
    ts: Seq<Track>,
    fsctx: Seq<CoverFile>,
    names: Seq<String>,
    upto: int,
    fs: Seq<CoverFile>,
) -> nat
    decreases fs.len(),
{
    if fs.len() == 0 {
        0
    } else {
        spec_doomed_bytes_upto(ts, fsctx, names, upto, fs.drop_last()) + (if exists|i: int|
            0 <= i < upto && spec_doomed_path(ts, fsctx, (#[trigger] names[i])@, fs.last().name@) {
            fs.last().bytes@.len()
        } else {
            0
        })
    }
}

/// The bytes one album's duplicate sets doom.
spec fn spec_album_doomed_bytes(
    ts: Seq<Track>,
    fsctx: Seq<CoverFile>,
    a: Seq<char>,
    fs: Seq<CoverFile>,
) -> nat
    decreases fs.len(),
{
    if fs.len() == 0 {
        0
    } else {
        spec_album_doomed_bytes(ts, fsctx, a, fs.drop_last()) + (if spec_doomed_path(
            ts,
            fsctx,
            a,
            fs.last().name@,
        ) {
            fs.last().bytes@.len()
        } else {
            0
        })
    }
}

/// With cover paths partitioned among albums, a path doomed for two album
/// names is doomed for one name only.
proof fn lemma_doomed_album_unique(
    ts: Seq<Track>,
    fsctx: Seq<CoverFile>,
    a1: Seq<char>,
    a2: Seq<char>,
    p: Seq<char>,
)
    requires
        spec_covers_partitioned(ts),
        spec_doomed_path(ts, fsctx, a1, p),
        spec_doomed_path(ts, fsctx, a2, p),
    ensures
        a1 == a2,
{
    let j1 = choose|j: int|
        0 <= j < ts.len() && spec_covered_row(#[trigger] ts[j], a1) && ts[j].track_cover_path->0@
            == p;
    let j2 = choose|j: int|
        0 <= j < ts.len() && spec_covered_row(#[trigger] ts[j], a2) && ts[j].track_cover_path->0@
            == p;
    assert(ts[j1].album->0@ == ts[j2].album->0@);
}

proof fn lemma_doomed_upto_step(
    ts: Seq<Track>,
    fsctx: Seq<CoverFile>,
    names: Seq<String>,
    upto: int,
    fs: Seq<CoverFile>,
)
    requires
        spec_covers_partitioned(ts),
        0 <= upto < names.len(),
        forall|i1: int, i2: int|
            0 <= i1 < i2 < names.len() ==> (#[trigger] names[i1])@ != (#[trigger] names[i2])@,
    ensures
        spec_doomed_bytes_upto(ts, fsctx, names, upto + 1, fs) == spec_doomed_bytes_upto(
            ts,
            fsctx,
            names,
            upto,
            fs,
        ) + spec_album_doomed_bytes(ts, fsctx, (names[upto])@, fs),
    decreases fs.len(),
{
    if fs.len() > 0 {
        lemma_doomed_upto_step(ts, fsctx, names, upto, fs.drop_last());
        let p = fs.last().name@;
        if spec_doomed_path(ts, fsctx, (names[upto])@, p) {
            assert(exists|i: int|
                0 <= i < upto + 1 && spec_doomed_path(ts, fsctx, (#[trigger] names[i])@, p));
            if exists|i: int|
                0 <= i < upto && spec_doomed_path(ts, fsctx, (#[trigger] names[i])@, p) {
                let i = choose|i: int|
                    0 <= i < upto && spec_doomed_path(ts, fsctx, (#[trigger] names[i])@, p);
                lemma_doomed_album_unique(ts, fsctx, (names[i])@, (names[upto])@, p);
            }
        } else {
            if exists|i: int|
                0 <= i < upto + 1 && spec_doomed_path(ts, fsctx, (#[trigger] names[i])@, p) {
                let i = choose|i: int|
                    0 <= i < upto + 1 && spec_doomed_path(ts, fsctx, (#[trigger] names[i])@, p);
                assert(i < upto);
                assert(exists|i2: int|
                    0 <= i2 < upto && spec_doomed_path(ts, fsctx, (#[trigger] names[i2])@, p));
            }
        }
    }
}

proof fn lemma_doomed_upto_full(
    ts: Seq<Track>,
    fsctx: Seq<CoverFile>,
    names: Seq<String>,
    fs: Seq<CoverFile>,
)
    requires
        forall|i: int| 0 <= i < names.len() ==> spec_row_has_album(ts, (#[trigger] names[i])@),
        forall|j: int|
            0 <= j < ts.len() && (#[trigger] ts[j]).album is Some ==> spec_listed(
                names,
                ts[j].album->0@,
            ),
    ensures
        spec_doomed_bytes_upto(ts, fsctx, names, names.len() as int, fs) == spec_doomed_bytes(
            ts,
            fsctx,
            fs,
        ),
    decreases fs.len(),
{
    if fs.len() > 0 {
        lemma_doomed_upto_full(ts, fsctx, names, fs.drop_last());
        let p = fs.last().name@;
        if exists|i: int|
            0 <= i < names.len() && spec_doomed_path(ts, fsctx, (#[trigger] names[i])@, p) {
            let i = choose|i: int|
                0 <= i < names.len() && spec_doomed_path(ts, fsctx, (#[trigger] names[i])@, p);
            let j = choose|j: int|
                0 <= j < ts.len() && spec_covered_row(#[trigger] ts[j], (names[i])@) && ts[
                    j
                ].track_cover_path->0@ == p;
            assert(spec_doomed_file(ts, fsctx, p)) by {
                assert(ts[j].album is Some && ts[j].album->0@ == (names[i])@);
            }
        }
        if spec_doomed_file(ts, fsctx, p) {
            let j = choose|j: int|
                0 <= j < ts.len() && (#[trigger] ts[j]).album is Some && spec_doomed_path(
                    ts,
                    fsctx,
                    ts[j].album->0@,
                    p,
                );
            assert(spec_listed(names, ts[j].album->0@));
            let i = choose|i: int| 0 <= i < names.len() && (#[trigger] names[i])@ == ts[j].album->0@;
            assert(spec_doomed_path(ts, fsctx, (names[i])@, p));
        }
    }
}

/// A row's cover path is doomed by one of the first `upto` plans for its
/// own album.
spec fn spec_hit_upto(plans: Seq<AlbumPlan>, upto: int, t: Track) -> bool {
    &&& t.album is Some
    &&& t.track_cover_path is Some
    &&& exists|p2: int|
        0 <= p2 < upto && (#[trigger] plans[p2]).album@ == t.album->0@ && spec_plan_dooms(
            plans[p2],
            t.track_cover_path->0@,
        )
}

/// The name is doomed by one of the plan's first `gupto` groups.
spec fn spec_plan_dooms_upto(plan: AlbumPlan, gupto: int, name: Seq<char>) -> bool {
    exists|g: int|
        0 <= g < gupto && (#[trigger] plan.groups@[g]).1@.len() >= 2
            && spec_in_group_not_canonical(
            plan.groups@[g].1@,
            plan.canonicals@[g] as int,
            name,
        )
}

/// The name is doomed by one of the first `upto` plans.
spec fn spec_file_hit_upto(plans: Seq<AlbumPlan>, upto: int, name: Seq<char>) -> bool {
    exists|p2: int| 0 <= p2 < upto && spec_plan_dooms(#[trigger] plans[p2], name)
}

/// The state of one row after the first `pi` plans and the first `g`
/// sets of plan `pi` have been merged.
spec fn spec_row_state(
    ts0: Seq<Track>,
    fs0: Seq<CoverFile>,
    plans: Seq<AlbumPlan>,
    pi: int,
    g: int,
    cur: Seq<Track>,
    j: int,
) -> bool {
    if spec_hit_upto(plans, pi, ts0[j]) || (pi < plans.len() && ts0[j].album is Some
        && ts0[j].album->0@ == plans[pi].album@ && ts0[j].track_cover_path is Some
        && spec_plan_dooms_upto(plans[pi], g, ts0[j].track_cover_path->0@)) {
        &&& cur[j].track_cover_path is Some
        &&& spec_set_canonical(
            ts0,
            fs0,
            ts0[j].album->0@,
            ts0[j].track_cover_path->0@,
            cur[j].track_cover_path->0@,
        )
        &&& cur[j] == track_with_cover_path(ts0[j], cur[j].track_cover_path)
    } else {
        cur[j] == ts0[j]
    }
}

spec fn spec_rows_state(
    ts0: Seq<Track>,
    fs0: Seq<CoverFile>,
    plans: Seq<AlbumPlan>,
    pi: int,
    g: int,
    cur: Seq<Track>,
) -> bool {
    forall|j: int| 0 <= j < ts0.len() ==> #[trigger] spec_row_state(ts0, fs0, plans, pi, g, cur, j)
}

/// The state of one opening file after the first `pi` plans and the
/// first `g` sets of plan `pi` have been merged.
spec fn spec_file_state(
    plans: Seq<AlbumPlan>,
    pi: int,
    g: int,
    fs0: Seq<CoverFile>,
    cur: Seq<CoverFile>,
    idx: int,
) -> bool {
    if spec_file_hit_upto(plans, pi, fs0[idx].name@) || (pi < plans.len()
        && spec_plan_dooms_upto(plans[pi], g, fs0[idx].name@)) {
        !spec_has_file(cur, fs0[idx].name@)
    } else {
        spec_file_content_is(cur, fs0[idx].name@, fs0[idx].bytes@)
    }
}

spec fn spec_files_state(
    plans: Seq<AlbumPlan>,
    pi: int,
    g: int,
    fs0: Seq<CoverFile>,
    cur: Seq<CoverFile>,
) -> bool {
    forall|idx: int|
        0 <= idx < fs0.len() ==> #[trigger] spec_file_state(plans, pi, g, fs0, cur, idx)
}

/// One full merge run: analyse every album against the run's opening
/// store and directory — distinct referenced paths, size-bucket
/// pre-filter, content hashing — then merge each duplicate set onto its
/// canonical path and delete the rest.  The analysis is taken as one
/// snapshot before the first deletion, so a set is judged only against
/// the opening state.  One progress snapshot is emitted per album in
/// which duplicates were found; the modelled clock advances
/// `ms_per_album` milliseconds per album.
#[verifier::rlimit(100)]
#[verifier::spinoff_prover]
pub fn merge_duplicate_covers(
    tracks: &mut Vec<Track>,
    dir: &mut CoverDir,
    ms_per_album: u64,
) -> (r: (MergeCoverResult, Vec<MergeBatchEvent>))
    requires
        old(dir).wf(),
        spec_covers_partitioned(old(tracks)@),
    ensures
        final(dir).wf(),
        final(tracks)@.len() == old(tracks)@.len(),
        forall|j: int|
            0 <= j < old(tracks)@.len() ==> spec_fully_merged_row(
                old(tracks)@,
                old(dir).files@,
                #[trigger] old(tracks)@[j],
                final(tracks)@[j],
            ),
        forall|idx: int|
            0 <= idx < old(dir).files@.len() ==> (if spec_doomed_file(
                old(tracks)@,
                old(dir).files@,
                (#[trigger] old(dir).files@[idx]).name@,
            ) {
                !spec_has_file(final(dir).files@, old(dir).files@[idx].name@)
            } else {
                spec_file_content_is(
                    final(dir).files@,
                    old(dir).files@[idx].name@,
                    old(dir).files@[idx].bytes@,
                )
            }),
        forall|idx: int|
            0 <= idx < final(dir).files@.len() ==> spec_file_from(
                old(dir).files@,
                #[trigger] final(dir).files@[idx],
            ),
        r.0.covers_merged as int == old(dir).files@.len() - final(dir).files@.len(),
        r.0.space_saved_bytes as nat == spec_cap64(
            spec_doomed_bytes(old(tracks)@, old(dir).files@, old(dir).files@),
        ),
        r.0.errors@ == Seq::<MigrationError>::empty(),
        r.1@.len() <= r.0.albums_processed,
        forall|i: int|
            0 <= i < r.1@.len() ==> {
                let p = (#[trigger] r.1@[i]).progress;
                &&& p.total_albums == r.0.albums_processed
                &&& 1 <= p.current_album <= p.total_albums
                &&& p.covers_merged <= r.0.covers_merged
                &&& p.estimated_time_remaining_ms as nat == crate::batch::spec_eta_millis(
                    p.current_album as nat,
                    p.total_albums as nat,
                    crate::batch::spec_sat_mul(p.current_album as nat, ms_per_album as nat),
                )
            },
        forall|i: int, j: int|
            0 <= i <= j < r.1@.len() ==> (#[trigger] r.1@[i]).progress.current_album <= (
            #[trigger] r.1@[j]).progress.current_album,
{
    let ghost ts0 = old(tracks)@;
    let ghost fs0 = old(dir).files@;
    let albums = album_names(&*tracks);
    let total_albums = albums.len();
    let initial_len = dir.files.len();
    proof {
        assert(initial_len as int == fs0.len());
    }
    // Analysis: every album is judged against the opening state, before
    // the first deletion.
    let mut plans: Vec<AlbumPlan> = Vec::new();
    let mut saved: u64 = 0;
    let mut a: usize = 0;
    proof {
        lemma_doomed_upto_zero(ts0, fs0, albums@, fs0);
    }
    while a < albums.len()
        invariant
            a <= albums@.len(),
            tracks@ == ts0,
            dir.files@ == fs0,
            dir.wf(),
            spec_covers_partitioned(ts0),
            forall|i: int, j: int|
                0 <= i < j < albums@.len() ==> (#[trigger] albums@[i])@ != (#[trigger] albums@[j])@,
            plans@.len() == a,
            forall|pi: int|
                0 <= pi < a ==> plan_wf(ts0, fs0, #[trigger] plans@[pi]) && plans@[pi].album@ == (
                albums@[pi])@,
            saved as nat == spec_cap64(spec_doomed_bytes_upto(ts0, fs0, albums@, a as int, fs0)),
        decreases albums@.len() - a,
    {
        let paths = unique_cover_paths(&*tracks, &albums[a]);
        let fth = files_to_hash(&paths, &*dir);
        let groups = hash_groups(&fth, &*dir);
        let mut canonicals: Vec<usize> = Vec::new();
        let mut g: usize = 0;
        while g < groups.len()
            invariant
                g <= groups@.len(),
                canonicals@.len() == g,
                forall|g2: int|
                    0 <= g2 < g && (#[trigger] groups@[g2]).1@.len() >= 2 ==> (
                    canonicals@[g2] as int) < groups@[g2].1@.len() && spec_is_canonical(
                        groups@[g2].1@,
                        (groups@[g2].1@[canonicals@[g2] as int].0)@,
                    ),
            decreases groups@.len() - g,
        {
            if groups[g].1.len() >= 2 {
                let ci = select_canonical(&groups[g].1);
                canonicals.push(ci);
            } else {
                canonicals.push(0);
            }
            g = g + 1;
        }
        let plan = AlbumPlan { album: albums[a].clone(), paths, candidates: fth, groups, canonicals };
        proof {
            assert(plan_wf(ts0, fs0, plan));
            lemma_plan_dooms_exact(ts0, fs0, plan);
        }
        let ghost a_view = (albums@[a as int])@;
        let mut idx: usize = 0;
        proof {
            assert(fs0.take(0) =~= Seq::<CoverFile>::empty());
        }
        while idx < dir.files.len()
            invariant
                idx <= fs0.len(),
                dir.files@ == fs0,
                plan_wf(ts0, fs0, plan),
                plan.album@ == a_view,
                forall|p: Seq<char>| #[trigger] spec_plan_dooms(plan, p) <==> spec_doomed_path(
                    ts0,
                    fs0,
                    a_view,
                    p,
                ),
                a < albums@.len(),
                a_view == (albums@[a as int])@,
                saved as nat == spec_cap64(
                    spec_doomed_bytes_upto(ts0, fs0, albums@, a as int, fs0)
                        + spec_album_doomed_bytes(ts0, fs0, a_view, fs0.take(idx as int)),
                ),
            decreases fs0.len() - idx,
        {
            proof {
                assert(fs0.take(idx + 1).drop_last() =~= fs0.take(idx as int));
                assert(fs0.take(idx + 1).last() == fs0[idx as int]);
            }
            let doomed = plan_dooms(&plan, &dir.files[idx].name);
            if doomed {
                let sz = dir.files[idx].bytes.len() as u64;
                proof {
                    lemma_sat_add_cap(
                        saved as nat,
                        spec_doomed_bytes_upto(ts0, fs0, albums@, a as int, fs0)
                            + spec_album_doomed_bytes(ts0, fs0, a_view, fs0.take(idx as int)),
                        sz as nat,
                    );
                }
                saved = crate::batch::sat_add_u64(saved, sz);
            }
            idx = idx + 1;
        }
        proof {
            assert(fs0.take(fs0.len() as int) =~= fs0);
            lemma_doomed_upto_step(ts0, fs0, albums@, a as int, fs0);
        }
        plans.push(plan);
        a = a + 1;
    }
    proof {
        lemma_doomed_upto_full(ts0, fs0, albums@, fs0);
    }
    // Merge: commit every duplicate set, album by album.
    let mut covers_merged: usize = 0;
    let mut events: Vec<MergeBatchEvent> = Vec::new();
    let mut pi: usize = 0;
    proof {
        lemma_states_initial(ts0, fs0, plans@, tracks@, dir.files@);
        assert forall|idx: int| 0 <= idx < dir.files@.len() implies spec_file_from(
            fs0,
            #[trigger] dir.files@[idx],
        ) by {
            assert(fs0[idx] == dir.files@[idx]);
        }
    }
    while pi < plans.len()
        invariant
            pi <= plans@.len(),
            plans@.len() == albums@.len(),
            total_albums == albums@.len(),
            initial_len as int == fs0.len(),
            ts0.len() == tracks@.len(),
            dir.wf(),
            spec_covers_partitioned(ts0),
            forall|i: int, j: int|
                0 <= i < j < albums@.len() ==> (#[trigger] albums@[i])@ != (#[trigger] albums@[j])@,
            forall|p2: int|
                0 <= p2 < plans@.len() ==> plan_wf(ts0, fs0, #[trigger] plans@[p2])
                    && plans@[p2].album@ == (albums@[p2])@,
            spec_rows_state(ts0, fs0, plans@, pi as int, 0, tracks@),
            spec_files_state(plans@, pi as int, 0, fs0, dir.files@),
            forall|idx: int|
                0 <= idx < dir.files@.len() ==> spec_file_from(fs0, #[trigger] dir.files@[idx]),
            covers_merged as int == fs0.len() - dir.files@.len(),
            events@.len() <= pi,
            forall|i: int|
                0 <= i < events@.len() ==> {
                    let p = (#[trigger] events@[i]).progress;
                    &&& p.total_albums == total_albums
                    &&& 1 <= p.current_album <= pi
                    &&& p.current_album <= total_albums
                    &&& p.covers_merged <= covers_merged
                    &&& p.estimated_time_remaining_ms as nat == crate::batch::spec_eta_millis(
                        p.current_album as nat,
                        p.total_albums as nat,
                        crate::batch::spec_sat_mul(p.current_album as nat, ms_per_album as nat),
                    )
                },
            forall|i: int, j: int|
                0 <= i <= j < events@.len() ==> (#[trigger] events@[i]).progress.current_album <= (
                #[trigger] events@[j]).progress.current_album,
        decreases plans@.len() - pi,
    {
        let mut found_duplicates = false;
        let mut g: usize = 0;
        let n_groups = plans[pi].groups.len();
        while g < n_groups
            invariant
                g <= n_groups,
                pi < plans@.len(),
                n_groups == plans@[pi as int].groups@.len(),
                initial_len as int == fs0.len(),
                ts0.len() == tracks@.len(),
                dir.wf(),
                forall|p2: int|
                    0 <= p2 < plans@.len() ==> plan_wf(ts0, fs0, #[trigger] plans@[p2]),
                forall|p2: int|
                    0 <= p2 < plans@.len() && p2 != pi as int ==> (#[trigger] plans@[p2]).album@
                        != plans@[pi as int].album@,
                spec_rows_state(ts0, fs0, plans@, pi as int, g as int, tracks@),
                spec_files_state(plans@, pi as int, g as int, fs0, dir.files@),
                forall|idx: int|
                    0 <= idx < dir.files@.len() ==> spec_file_from(fs0, #[trigger] dir.files@[idx]),
                covers_merged as int == fs0.len() - dir.files@.len(),
                forall|i: int|
                    0 <= i < events@.len() ==> (#[trigger] events@[i]).progress.covers_merged
                        <= covers_merged,
            decreases n_groups - g,
        {
            if plans[pi].groups[g].1.len() >= 2 {
                let ci = plans[pi].canonicals[g];
                let ghost plan = plans@[pi as int];
                let ghost tracks_mid = tracks@;
                let ghost dir_mid = dir.files@;
                let album_name = plans[pi].album.clone();
                let (m2, _s2) = merge_group(tracks, dir, &album_name, &plans[pi].groups[g].1, ci);
                proof {
                    assert(album_name@ == plan.album@);
                    lemma_rows_after_group(ts0, fs0, plans@, pi as int, g as int, tracks_mid, tracks@);
                    lemma_files_after_group(ts0, fs0, plans@, pi as int, g as int, dir_mid, dir.files@);
                    assert forall|idx: int|
                        0 <= idx < dir.files@.len() implies spec_file_from(
                        fs0,
                        #[trigger] dir.files@[idx],
                    ) by {
                        assert(spec_file_from(dir_mid, dir.files@[idx]));
                        let wm = choose|wm: int|
                            0 <= wm < dir_mid.len() && #[trigger] dir_mid[wm] == dir.files@[idx];
                        assert(spec_file_from(fs0, dir_mid[wm]));
                    }
                }
                covers_merged = covers_merged + m2;
                found_duplicates = true;
            } else {
                proof {
                    lemma_states_small_group(
                        ts0,
                        fs0,
                        plans@,
                        pi as int,
                        g as int,
                        tracks@,
                        dir.files@,
                    );
                }
            }
            g = g + 1;
        }
        proof {
            lemma_states_next_plan(ts0, fs0, plans@, pi as int, tracks@, dir.files@);
        }
        if found_duplicates {
            let current_album = pi + 1;
            let elapsed = crate::batch::sat_mul_u64(current_album as u64, ms_per_album);
            let eta = crate::batch::eta_millis(current_album as u64, total_albums as u64, elapsed);
            let ghost prev_events = events@;
            events.push(
                MergeBatchEvent {
                    progress: MergeProgressUpdate {
                        current_album,
                        total_albums,
                        covers_merged,
                        space_saved_bytes: saved,
                        estimated_time_remaining_ms: eta,
                    },
                },
            );
            proof {
                assert(events@[events@.len() - 1].progress.current_album == pi + 1);
                assert(forall|i: int|
                    0 <= i < prev_events.len() ==> #[trigger] events@[i] == prev_events[i]);
            }
        }
        pi = pi + 1;
    }
    proof {
        lemma_states_final(ts0, fs0, plans@, albums@, tracks@, dir.files@);
    }
    let summary = MergeCoverResult {
        covers_merged,
        space_saved_bytes: saved,
        albums_processed: total_albums,
        errors: Vec::new(),
    };
    (summary, events)
}

/// Before any merging, every row and file is in its opening state.
proof fn lemma_states_initial(
    ts0: Seq<Track>,
    fs0: Seq<CoverFile>,
    plans: Seq<AlbumPlan>,
    cur_t: Seq<Track>,
    cur_f: Seq<CoverFile>,
)
    requires
        cur_t == ts0,
        cur_f == fs0,
        forall|i: int, j: int|
            0 <= i < j < fs0.len() ==> (#[trigger] fs0[i]).name@ != (#[trigger] fs0[j]).name@,
    ensures
        spec_rows_state(ts0, fs0, plans, 0, 0, cur_t),
        spec_files_state(plans, 0, 0, fs0, cur_f),
{
    assert forall|j: int| 0 <= j < ts0.len() implies #[trigger] spec_row_state(
        ts0,
        fs0,
        plans,
        0,
        0,
        cur_t,
        j,
    ) by {}
    assert forall|idx: int| 0 <= idx < fs0.len() implies #[trigger] spec_file_state(
        plans,
        0,
        0,
        fs0,
        cur_f,
        idx,
    ) by {
        assert(spec_has_file(cur_f, fs0[idx].name@)) by {
            assert(cur_f[idx].name@ == fs0[idx].name@);
        }
        assert forall|w: int|
            0 <= w < cur_f.len() && #[trigger] cur_f[w].name@ == fs0[idx].name@ implies cur_f[
            w
        ].bytes@ == fs0[idx].bytes@ by {
            if w != idx {
                assert(fs0[w].name@ != fs0[idx].name@);
            }
        }
    }
}

/// Skipping a set of fewer than two members changes nothing.
#[verifier::spinoff_prover]
proof fn lemma_states_small_group(
    ts0: Seq<Track>,
    fs0: Seq<CoverFile>,
    plans: Seq<AlbumPlan>,
    pi: int,
    g: int,
    cur_t: Seq<Track>,
    cur_f: Seq<CoverFile>,
)
    requires
        0 <= pi < plans.len(),
        0 <= g < plans[pi].groups@.len(),
        plans[pi].groups@[g].1@.len() < 2,
        spec_rows_state(ts0, fs0, plans, pi, g, cur_t),
        spec_files_state(plans, pi, g, fs0, cur_f),
    ensures
        spec_rows_state(ts0, fs0, plans, pi, g + 1, cur_t),
        spec_files_state(plans, pi, g + 1, fs0, cur_f),
{
    let plan = plans[pi];
    assert forall|p: Seq<char>|
        #[trigger] spec_plan_dooms_upto(plan, g + 1, p) implies spec_plan_dooms_upto(
        plan,
        g,
        p,
    ) by {
        let g3 = choose|g3: int|
            0 <= g3 < g + 1 && (#[trigger] plan.groups@[g3]).1@.len() >= 2
                && spec_in_group_not_canonical(
                plan.groups@[g3].1@,
                plan.canonicals@[g3] as int,
                p,
            );
        assert(g3 < g);
    }
    assert forall|j: int| 0 <= j < ts0.len() implies #[trigger] spec_row_state(
        ts0,
        fs0,
        plans,
        pi,
        g + 1,
        cur_t,
        j,
    ) by {
        assert(spec_row_state(ts0, fs0, plans, pi, g, cur_t, j));
    }
    assert forall|idx: int| 0 <= idx < fs0.len() implies #[trigger] spec_file_state(
        plans,
        pi,
        g + 1,
        fs0,
        cur_f,
        idx,
    ) by {
        assert(spec_file_state(plans, pi, g, fs0, cur_f, idx));
    }
}

/// After the last set of a plan, the pass verdict equals the next plan's
/// opening state.
#[verifier::spinoff_prover]
proof fn lemma_states_next_plan(
    ts0: Seq<Track>,
    fs0: Seq<CoverFile>,
    plans: Seq<AlbumPlan>,
    pi: int,
    cur_t: Seq<Track>,
    cur_f: Seq<CoverFile>,
)
    requires
        0 <= pi < plans.len(),
        spec_rows_state(ts0, fs0, plans, pi, plans[pi].groups@.len() as int, cur_t),
        spec_files_state(plans, pi, plans[pi].groups@.len() as int, fs0, cur_f),
    ensures
        spec_rows_state(ts0, fs0, plans, pi + 1, 0, cur_t),
        spec_files_state(plans, pi + 1, 0, fs0, cur_f),
{
    let plan = plans[pi];
    let ng = plan.groups@.len() as int;
    assert forall|j: int| 0 <= j < ts0.len() implies #[trigger] spec_row_state(
        ts0,
        fs0,
        plans,
        pi + 1,
        0,
        cur_t,
        j,
    ) by {
        assert(spec_row_state(ts0, fs0, plans, pi, ng, cur_t, j));
        let t = ts0[j];
        if spec_hit_upto(plans, pi + 1, t) {
            let p2 = choose|p2: int|
                0 <= p2 < pi + 1 && (#[trigger] plans[p2]).album@ == t.album->0@
                    && spec_plan_dooms(plans[p2], t.track_cover_path->0@);
            if p2 < pi {
                assert(spec_hit_upto(plans, pi, t));
            } else {
                assert(spec_plan_dooms_upto(plan, ng, t.track_cover_path->0@));
            }
        }
        if spec_hit_upto(plans, pi, t) {
            assert(spec_hit_upto(plans, pi + 1, t));
        }
        if t.album is Some && t.album->0@ == plan.album@ && t.track_cover_path is Some
            && spec_plan_dooms_upto(plan, ng, t.track_cover_path->0@) {
            assert(spec_hit_upto(plans, pi + 1, t));
        }
    }
    assert forall|idx: int| 0 <= idx < fs0.len() implies #[trigger] spec_file_state(
        plans,
        pi + 1,
        0,
        fs0,
        cur_f,
        idx,
    ) by {
        assert(spec_file_state(plans, pi, ng, fs0, cur_f, idx));
        let n = fs0[idx].name@;
        if spec_file_hit_upto(plans, pi + 1, n) {
            let p2 = choose|p2: int| 0 <= p2 < pi + 1 && spec_plan_dooms(#[trigger] plans[p2], n);
            if p2 < pi {
                assert(spec_file_hit_upto(plans, pi, n));
            } else {
                assert(spec_plan_dooms_upto(plan, ng, n));
            }
        }
        if spec_file_hit_upto(plans, pi, n) {
            assert(spec_file_hit_upto(plans, pi + 1, n));
        }
        if spec_plan_dooms_upto(plan, ng, n) {
            assert(spec_file_hit_upto(plans, pi + 1, n));
        }
    }
}

/// After every plan, a row or file is hit exactly when it is doomed in
/// the opening state.
#[verifier::rlimit(100)]
#[verifier::spinoff_prover]
proof fn lemma_states_final(
    ts0: Seq<Track>,
    fs0: Seq<CoverFile>,
    plans: Seq<AlbumPlan>,
    albums: Seq<String>,
    cur_t: Seq<Track>,
    cur_f: Seq<CoverFile>,
)
    requires
        ts0.len() == cur_t.len(),
        plans.len() == albums.len(),
        forall|p2: int|
            0 <= p2 < plans.len() ==> plan_wf(ts0, fs0, #[trigger] plans[p2]) && plans[p2].album@
                == (albums[p2])@,
        forall|j: int|
            0 <= j < ts0.len() && (#[trigger] ts0[j]).album is Some ==> spec_listed(
                albums,
                ts0[j].album->0@,
            ),
        spec_rows_state(ts0, fs0, plans, plans.len() as int, 0, cur_t),
        spec_files_state(plans, plans.len() as int, 0, fs0, cur_f),
    ensures
        forall|j: int|
            0 <= j < ts0.len() ==> spec_fully_merged_row(ts0, fs0, #[trigger] ts0[j], cur_t[j]),
        forall|idx: int|
            0 <= idx < fs0.len() ==> (if spec_doomed_file(ts0, fs0, (
            #[trigger] fs0[idx]).name@) {
                !spec_has_file(cur_f, fs0[idx].name@)
            } else {
                spec_file_content_is(cur_f, fs0[idx].name@, fs0[idx].bytes@)
            }),
{
    let np = plans.len() as int;
    assert forall|j: int| 0 <= j < ts0.len() implies spec_fully_merged_row(
        ts0,
        fs0,
        #[trigger] ts0[j],
        cur_t[j],
    ) by {
        assert(spec_row_state(ts0, fs0, plans, np, 0, cur_t, j));
        let t = ts0[j];
        if t.album is Some && t.track_cover_path is Some && spec_doomed_path(
            ts0,
            fs0,
            t.album->0@,
            t.track_cover_path->0@,
        ) {
            assert(spec_listed(albums, t.album->0@));
            let i = choose|i: int| 0 <= i < albums.len() && (#[trigger] albums[i])@ == t.album->0@;
            lemma_plan_dooms_exact(ts0, fs0, plans[i]);
            assert(spec_plan_dooms(plans[i], t.track_cover_path->0@));
            assert(spec_hit_upto(plans, np, t));
        } else {
            if spec_hit_upto(plans, np, t) {
                let p2 = choose|p2: int|
                    0 <= p2 < np && (#[trigger] plans[p2]).album@ == t.album->0@
                        && spec_plan_dooms(plans[p2], t.track_cover_path->0@);
                lemma_plan_dooms_exact(ts0, fs0, plans[p2]);
            }
        }
    }
    assert forall|idx: int|
        0 <= idx < fs0.len() implies (if spec_doomed_file(ts0, fs0, (
    #[trigger] fs0[idx]).name@) {
        !spec_has_file(cur_f, fs0[idx].name@)
    } else {
        spec_file_content_is(cur_f, fs0[idx].name@, fs0[idx].bytes@)
    }) by {
        assert(spec_file_state(plans, np, 0, fs0, cur_f, idx));
        let n = fs0[idx].name@;
        if spec_doomed_file(ts0, fs0, n) {
            let jr = choose|jr: int|
                0 <= jr < ts0.len() && (#[trigger] ts0[jr]).album is Some && spec_doomed_path(
                    ts0,
                    fs0,
                    ts0[jr].album->0@,
                    n,
                );
            assert(spec_listed(albums, ts0[jr].album->0@));
            let i = choose|i: int|
                0 <= i < albums.len() && (#[trigger] albums[i])@ == ts0[jr].album->0@;
            lemma_plan_dooms_exact(ts0, fs0, plans[i]);
            assert(spec_plan_dooms(plans[i], n));
            assert(spec_file_hit_upto(plans, np, n));
        } else {
            if spec_file_hit_upto(plans, np, n) {
                let p2 = choose|p2: int| 0 <= p2 < np && spec_plan_dooms(#[trigger] plans[p2], n);
                lemma_plan_dooms_exact(ts0, fs0, plans[p2]);
                let jc = choose|jc: int|
                    0 <= jc < ts0.len() && spec_covered_row(#[trigger] ts0[jc], plans[p2].album@)
                        && ts0[jc].track_cover_path->0@ == n;
                assert(spec_doomed_file(ts0, fs0, n)) by {
                    assert(ts0[jc].album is Some && ts0[jc].album->0@ == plans[p2].album@);
                }
            }
        }
    }
}

proof fn lemma_doomed_upto_zero(
    ts: Seq<Track>,
    fsctx: Seq<CoverFile>,
    names: Seq<String>,
    fs: Seq<CoverFile>,
)
    ensures
        spec_doomed_bytes_upto(ts, fsctx, names, 0, fs) == 0,
    decreases fs.len(),
{
    if fs.len() > 0 {
        lemma_doomed_upto_zero(ts, fsctx, names, fs.drop_last());
    }
}

/// The canonical path of one duplicate set is no member of another set:
/// the sets' digests differ.
proof fn lemma_canonical_not_in_other_group(
    ts: Seq<Track>,
    fs: Seq<CoverFile>,
    plan: AlbumPlan,
    g2: int,
    g: int,
    c2: Seq<char>,
)
    requires
        plan_wf(ts, fs, plan),
        0 <= g2 < plan.groups@.len(),
        0 <= g < plan.groups@.len(),
        g2 != g,
        plan.groups@[g2].1@.len() >= 2,
        plan.groups@[g].1@.len() >= 2,
        c2 == (plan.groups@[g2].1@[plan.canonicals@[g2] as int].0)@,
    ensures
        !spec_in_group_not_canonical(plan.groups@[g].1@, plan.canonicals@[g] as int, c2),
{
    if spec_in_group_not_canonical(plan.groups@[g].1@, plan.canonicals@[g] as int, c2) {
        let fth = plan.candidates@;
        let ci2 = plan.canonicals@[g2] as int;
        assert(spec_hash_member(fth, fs, plan.groups@[g2].0@, plan.groups@[g2].1@[ci2]));
        let k = choose|k: int|
            0 <= k < plan.groups@[g].1@.len() && k != plan.canonicals@[g] as int && ((
            #[trigger] plan.groups@[g].1@[k]).0)@ == c2;
        assert(spec_hash_member(fth, fs, plan.groups@[g].0@, plan.groups@[g].1@[k]));
        assert(sha256_of(crate::files::spec_file_bytes(fs, c2)) == plan.groups@[g2].0@);
        assert(sha256_of(crate::files::spec_file_bytes(fs, c2)) == plan.groups@[g].0@);
        if g2 < g {
        } else {
        }
    }
}

#[verifier::rlimit(100)]
#[verifier::spinoff_prover]
proof fn lemma_row_after_group(
    ts0: Seq<Track>,
    fs0: Seq<CoverFile>,
    plans: Seq<AlbumPlan>,
    pi: int,
    g: int,
    mid: Seq<Track>,
    new: Seq<Track>,
    j: int,
)
    requires
        0 <= pi < plans.len(),
        0 <= g < plans[pi].groups@.len(),
        plans[pi].groups@[g].1@.len() >= 2,
        plan_wf(ts0, fs0, plans[pi]),
        forall|p2: int|
            0 <= p2 < plans.len() && p2 != pi ==> (#[trigger] plans[p2]).album@ != plans[pi].album@,
        ts0.len() == mid.len(),
        mid.len() == new.len(),
        0 <= j < ts0.len(),
        spec_row_state(ts0, fs0, plans, pi, g, mid, j),
        spec_merged_row(
            mid[j],
            new[j],
            plans[pi].album@,
            plans[pi].groups@[g].1@,
            plans[pi].canonicals@[g] as int,
        ),
    ensures
        spec_row_state(ts0, fs0, plans, pi, g + 1, new, j),
{
    let plan = plans[pi];
    let a_v = plan.album@;
    let grp = plan.groups@[g].1@;
    let ci_i = plan.canonicals@[g] as int;
    lemma_plan_dooms_exact(ts0, fs0, plan);
    let told = ts0[j];
    if spec_hit_upto(plans, pi, told) {
        let p2 = choose|p2: int|
            0 <= p2 < pi && (#[trigger] plans[p2]).album@ == told.album->0@ && spec_plan_dooms(
                plans[p2],
                told.track_cover_path->0@,
            );
        assert(plans[p2].album@ != a_v);
        assert(mid[j].album == told.album);
        assert(!(mid[j].album is Some && mid[j].album->0@ == a_v));
        assert(new[j] == mid[j]);
    } else if told.album is Some && told.album->0@ == a_v && told.track_cover_path is Some
        && spec_plan_dooms_upto(plan, g, told.track_cover_path->0@) {
        let g2 = choose|g2: int|
            0 <= g2 < g && (#[trigger] plan.groups@[g2]).1@.len() >= 2
                && spec_in_group_not_canonical(
                plan.groups@[g2].1@,
                plan.canonicals@[g2] as int,
                told.track_cover_path->0@,
            );
        assert(mid[j].track_cover_path is Some);
        assert(mid[j] == track_with_cover_path(told, mid[j].track_cover_path));
        assert(spec_set_canonical(
            ts0,
            fs0,
            a_v,
            told.track_cover_path->0@,
            mid[j].track_cover_path->0@,
        ));
        // The repointed path is its own set's canonical; pin it to the
        // recorded canonical of that set so no later set can contain it.
        let c2 = (plan.groups@[g2].1@[plan.canonicals@[g2] as int].0)@;
        assert(spec_set_canonical(ts0, fs0, a_v, told.track_cover_path->0@, c2)) by {
            let k2 = choose|k2: int|
                0 <= k2 < plan.groups@[g2].1@.len() && k2 != plan.canonicals@[g2] as int && ((
                #[trigger] plan.groups@[g2].1@[k2]).0)@ == told.track_cover_path->0@;
            assert(spec_is_canonical(plan.groups@[g2].1@, c2));
        }
        assert(mid[j].track_cover_path->0@ == c2) by {
            lemma_set_canonical_unique(
                ts0,
                fs0,
                a_v,
                told.track_cover_path->0@,
                mid[j].track_cover_path->0@,
                c2,
            );
        }
        assert(!spec_in_group_not_canonical(grp, ci_i, mid[j].track_cover_path->0@)) by {
            lemma_canonical_not_in_other_group(ts0, fs0, plan, g2, g, c2);
        }
        assert(new[j] == mid[j]);
        assert(spec_plan_dooms_upto(plan, g + 1, told.track_cover_path->0@));
    } else {
        assert(mid[j] == told);
        if told.album is Some && told.album->0@ == a_v && told.track_cover_path is Some
            && spec_in_group_not_canonical(grp, ci_i, told.track_cover_path->0@) {
            assert(new[j].track_cover_path is Some);
            assert(new[j].track_cover_path->0@ == grp[ci_i].0@);
            assert(spec_plan_dooms_upto(plan, g + 1, told.track_cover_path->0@));
            let k = choose|k: int|
                0 <= k < grp.len() && k != ci_i && ((#[trigger] grp[k]).0)@
                    == told.track_cover_path->0@;
            assert(spec_set_canonical(
                ts0,
                fs0,
                a_v,
                (plan.groups@[g].1@[k].0)@,
                (plan.groups@[g].1@[ci_i].0)@,
            ));
        } else {
            assert(new[j] == told);
            if told.album is Some && told.album->0@ == a_v && told.track_cover_path is Some
                && spec_plan_dooms_upto(plan, g + 1, told.track_cover_path->0@) {
                let g3 = choose|g3: int|
                    0 <= g3 < g + 1 && (#[trigger] plan.groups@[g3]).1@.len() >= 2
                        && spec_in_group_not_canonical(
                        plan.groups@[g3].1@,
                        plan.canonicals@[g3] as int,
                        told.track_cover_path->0@,
                    );
                assert(g3 == g);
                assert(false);
            }
        }
    }
}

/// A duplicate set has one canonical member: two canonical paths of the
/// same member's set are equal.
proof fn lemma_set_canonical_unique(
    ts: Seq<Track>,
    fs: Seq<CoverFile>,
    a: Seq<char>,
    p: Seq<char>,
    c1: Seq<char>,
    c2: Seq<char>,
)
    requires
        spec_set_canonical(ts, fs, a, p, c1),
        spec_set_canonical(ts, fs, a, p, c2),
    ensures
        c1 == c2,
{
    assert(lex_le(c1, c2));
    assert(lex_le(c2, c1));
    lex_le_antisymmetric(c1, c2);
}

#[verifier::rlimit(100)]
#[verifier::spinoff_prover]
proof fn lemma_rows_after_group(
    ts0: Seq<Track>,
    fs0: Seq<CoverFile>,
    plans: Seq<AlbumPlan>,
    pi: int,
    g: int,
    mid: Seq<Track>,
    new: Seq<Track>,
)
    requires
        0 <= pi < plans.len(),
        0 <= g < plans[pi].groups@.len(),
        plans[pi].groups@[g].1@.len() >= 2,
        plan_wf(ts0, fs0, plans[pi]),
        forall|p2: int|
            0 <= p2 < plans.len() && p2 != pi ==> (#[trigger] plans[p2]).album@ != plans[pi].album@,
        ts0.len() == mid.len(),
        mid.len() == new.len(),
        spec_rows_state(ts0, fs0, plans, pi, g, mid),
        forall|j: int|
            0 <= j < ts0.len() ==> spec_merged_row(
                #[trigger] mid[j],
                new[j],
                plans[pi].album@,
                plans[pi].groups@[g].1@,
                plans[pi].canonicals@[g] as int,
            ),
    ensures
        spec_rows_state(ts0, fs0, plans, pi, g + 1, new),
{
    assert forall|j: int| 0 <= j < ts0.len() implies #[trigger] spec_row_state(
        ts0,
        fs0,
        plans,
        pi,
        g + 1,
        new,
        j,
    ) by {
        assert(spec_row_state(ts0, fs0, plans, pi, g, mid, j));
        lemma_row_after_group(ts0, fs0, plans, pi, g, mid, new, j);
    }
}

#[verifier::rlimit(100)]
#[verifier::spinoff_prover]
proof fn lemma_files_after_group(
    ts0: Seq<Track>,
    fs0: Seq<CoverFile>,
    plans: Seq<AlbumPlan>,
    pi: int,
    g: int,
    mid: Seq<CoverFile>,
    new: Seq<CoverFile>,
)
    requires
        0 <= pi < plans.len(),
        0 <= g < plans[pi].groups@.len(),
        plans[pi].groups@[g].1@.len() >= 2,
        plan_wf(ts0, fs0, plans[pi]),
        spec_files_state(plans, pi, g, fs0, mid),
        forall|k: int|
            0 <= k < plans[pi].groups@[g].1@.len() && k != plans[pi].canonicals@[g] as int
                ==> !spec_has_file(new, ((#[trigger] plans[pi].groups@[g].1@[k]).0)@),
        forall|idx: int|
            0 <= idx < mid.len() && !spec_in_group_not_canonical(
                plans[pi].groups@[g].1@,
                plans[pi].canonicals@[g] as int,
                (#[trigger] mid[idx]).name@,
            ) ==> spec_file_content_is(new, mid[idx].name@, mid[idx].bytes@),
        forall|idx: int| 0 <= idx < new.len() ==> spec_file_from(mid, #[trigger] new[idx]),
    ensures
        spec_files_state(plans, pi, g + 1, fs0, new),
{
    let plan = plans[pi];
    let grp = plan.groups@[g].1@;
    let ci_i = plan.canonicals@[g] as int;
    assert forall|idx: int| 0 <= idx < fs0.len() implies #[trigger] spec_file_state(
        plans,
        pi,
        g + 1,
        fs0,
        new,
        idx,
    ) by {
        assert(spec_file_state(plans, pi, g, fs0, mid, idx));
        let n = fs0[idx].name@;
        if spec_file_hit_upto(plans, pi, n) || spec_plan_dooms_upto(plan, g, n) {
            if spec_has_file(new, n) {
                let w = choose|w: int| 0 <= w < new.len() && #[trigger] new[w].name@ == n;
                assert(spec_file_from(mid, new[w]));
                let wm = choose|wm: int| 0 <= wm < mid.len() && #[trigger] mid[wm] == new[w];
                assert(mid[wm].name@ == n);
            }
        } else if spec_in_group_not_canonical(grp, ci_i, n) {
            let k = choose|k: int| 0 <= k < grp.len() && k != ci_i && ((#[trigger] grp[k]).0)@ == n;
            assert(!spec_has_file(new, ((plan.groups@[g].1@[k]).0)@));
            assert(spec_plan_dooms_upto(plan, g + 1, n));
        } else {
            assert(spec_file_content_is(mid, n, fs0[idx].bytes@));
            let w = choose|w: int| 0 <= w < mid.len() && #[trigger] mid[w].name@ == n;
            assert(spec_file_content_is(new, mid[w].name@, mid[w].bytes@));
            if spec_plan_dooms_upto(plan, g + 1, n) {
                let g3 = choose|g3: int|
                    0 <= g3 < g + 1 && (#[trigger] plan.groups@[g3]).1@.len() >= 2
                        && spec_in_group_not_canonical(
                        plan.groups@[g3].1@,
                        plan.canonicals@[g3] as int,
                        n,
                    );
                assert(g3 == g);
                assert(false);
            }
        }
    }
}

} // verus!
