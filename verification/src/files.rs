//! The covers directory, modelled as named byte strings, and the naming
//! scheme of stored covers: the decimal id, a dot, and the extension of
//! the detected format.

use vstd::prelude::*;
use vstd::pervasive::VecAdditionalExecFns;
use crate::digits::{decimal_chars, i64_decimal_string, parse_i64_spec};
use crate::image::ImageFormat;

verus! {

/// One stored cover: its file name and its content.
pub struct CoverFile {
    pub name: String,
    pub bytes: Vec<u8>,
}

/// A flat directory of cover files.
pub struct CoverDir {
    pub files: Vec<CoverFile>,
}

/// Whether a file of that name is present.
pub open spec fn spec_has_file(fs: Seq<CoverFile>, name: Seq<char>) -> bool {
    exists|i: int| 0 <= i < fs.len() && #[trigger] fs[i].name@ == name
}

/// The bytes of the file with that name; meaningful when the directory
/// has unique names and holds the file.
pub open spec fn spec_file_bytes(fs: Seq<CoverFile>, name: Seq<char>) -> Seq<u8> {
    fs[choose|i: int| 0 <= i < fs.len() && #[trigger] fs[i].name@ == name].bytes@
}

/// A file of that name is present and holds exactly those bytes.
pub open spec fn spec_file_content_is(fs: Seq<CoverFile>, name: Seq<char>, bytes: Seq<u8>) -> bool {
    spec_has_file(fs, name) && forall|i: int|
        0 <= i < fs.len() && #[trigger] fs[i].name@ == name ==> fs[i].bytes@ == bytes
}

impl CoverDir {
    /// File names are unique within the directory.
    pub open spec fn wf(&self) -> bool {
        forall|i: int, j: int|
            0 <= i < j < self.files@.len() ==> self.files@[i].name@ != self.files@[j].name@
    }

    /// An empty directory.
    pub fn new() -> (r: CoverDir)
        ensures
            r.files@ == Seq::<CoverFile>::empty(),
            r.wf(),
    {
        CoverDir { files: Vec::new() }
    }

    /// The index of the file with that name, if present.
    pub fn find_index(&self, name: &String) -> (r: Option<usize>)
        ensures
            match r {
                Some(i) => i < self.files@.len() && self.files@[i as int].name@ == name@,
                None => !spec_has_file(self.files@, name@),
            },
    {
        let mut i: usize = 0;
        while i < self.files.len()
            invariant
                i <= self.files@.len(),
                forall|j: int| 0 <= j < i ==> #[trigger] self.files@[j].name@ != name@,
            decreases self.files@.len() - i,
        {
            if self.files[i].name == *name {
                return Some(i);
            }
            i = i + 1;
        }
        None
    }

    /// Write a file: an existing file of that name is overwritten, any
    /// other file is untouched.
    pub fn write_file(&mut self, name: String, bytes: Vec<u8>)
        requires
            old(self).wf(),
        ensures
            final(self).wf(),
            spec_has_file(final(self).files@, name@),
            if spec_has_file(old(self).files@, name@) {
                final(self).files@.len() == old(self).files@.len()
            } else {
                final(self).files@.len() == old(self).files@.len() + 1
            },
            forall|i: int|
                0 <= i < final(self).files@.len() ==> #[trigger] final(self).files@[i].name@
                    == name@ ==> final(self).files@[i].bytes@ == bytes@,
            forall|i: int|
                0 <= i < old(self).files@.len() && #[trigger] old(self).files@[i].name@ != name@
                    ==> final(self).files@[i] == old(self).files@[i],
            forall|i: int|
                0 <= i < final(self).files@.len() ==> (#[trigger] final(self).files@[i].name@
                    == name@) || (i < old(self).files@.len() && final(self).files@[i] == old(
                    self,
                ).files@[i]),
    {
        match self.find_index(&name) {
            Some(i) => {
                let mut f = CoverFile { name, bytes };
                self.files.set_and_swap(i, &mut f);
                proof {
                    assert(self.files@[i as int].name@ == name@);
                }
            },
            None => {
                self.files.push(CoverFile { name, bytes });
                proof {
                    assert(self.files@[self.files@.len() - 1].name@ == name@);
                }
            },
        }
    }

    /// Delete the file of that name; a missing file is not an error and
    /// is reported as `false`.
    pub fn delete_file(&mut self, name: &String) -> (r: bool)
        requires
            old(self).wf(),
        ensures
            final(self).wf(),
            !spec_has_file(final(self).files@, name@),
            if r {
                exists|i: int|
                    0 <= i < old(self).files@.len() && #[trigger] old(self).files@[i].name@
                        == name@ && final(self).files@ == old(self).files@.remove(i)
            } else {
                final(self).files@ == old(self).files@ && !spec_has_file(old(self).files@, name@)
            },
    {
        match self.find_index(name) {
            Some(i) => {
                self.files.remove(i);
                proof {
                    assert forall|j: int|
                        0 <= j < self.files@.len() implies #[trigger] self.files@[j].name@
                        != name@ by {
                        if j < i {
                            assert(self.files@[j] == old(self).files@[j]);
                        } else {
                            assert(self.files@[j] == old(self).files@[j + 1]);
                        }
                    }
                }
                true
            },
            None => false,
        }
    }
}

/// The name a migrated cover is stored under: the decimal id, a dot, and
/// the extension of its detected format.
pub open spec fn spec_cover_name(id: int, fmt: ImageFormat) -> Seq<char> {
    decimal_chars(id) + seq!['.'] + fmt.spec_extension()
}

/// Build the stored name for an item's cover.
pub fn cover_file_name(id: i64, fmt: ImageFormat) -> (r: String)
    ensures
        r@ == spec_cover_name(id as int, fmt),
{
    let mut s = i64_decimal_string(id);
    s.push('.');
    match fmt {
        ImageFormat::Jpeg => {
            s.push('j');
            s.push('p');
            s.push('g');
            proof {
                reveal_strlit("jpg");
                assert(s@ =~= spec_cover_name(id as int, fmt));
            }
        },
        ImageFormat::Png => {
            s.push('p');
            s.push('n');
            s.push('g');
            proof {
                reveal_strlit("png");
                assert(s@ =~= spec_cover_name(id as int, fmt));
            }
        },
        ImageFormat::Webp => {
            s.push('w');
            s.push('e');
            s.push('b');
            s.push('p');
            proof {
                reveal_strlit("webp");
                assert(s@ =~= spec_cover_name(id as int, fmt));
            }
        },
    }
    s
}

/// The index of the dot separating stem and extension: the last dot, not
/// counting one in first position; negative when there is none.
pub open spec fn spec_last_dot(name: Seq<char>) -> int
    decreases name.len(),
{
    if name.len() <= 1 {
        -1
    } else if name.last() == '.' {
        name.len() - 1
    } else {
        spec_last_dot(name.drop_last())
    }
}

/// The file name without its extension, as the reconciler parses it.
pub open spec fn spec_stem(name: Seq<char>) -> Seq<char> {
    if spec_last_dot(name) < 0 {
        name
    } else {
        name.take(spec_last_dot(name))
    }
}

/// The extension of a file name, when it has one.
pub open spec fn spec_ext(name: Seq<char>) -> Option<Seq<char>> {
    if spec_last_dot(name) < 0 {
        None
    } else {
        Some(name.skip(spec_last_dot(name) + 1))
    }
}

/// Find the dot separating stem and extension of a file name.
pub fn find_last_dot(chars: &Vec<char>) -> (r: Option<usize>)
    ensures
        match r {
            Some(d) => spec_last_dot(chars@) == d && d < chars@.len(),
            None => spec_last_dot(chars@) < 0,
        },
{
    let mut i: usize = chars.len();
    proof {
        assert(chars@.take(chars@.len() as int) =~= chars@);
    }
    while i > 1
        invariant
            i <= chars@.len(),
            spec_last_dot(chars@.take(i as int)) == spec_last_dot(chars@),
        decreases i,
    {
        proof {
            assert(chars@.take(i as int).drop_last() =~= chars@.take(i - 1));
            assert(chars@.take(i as int).last() == chars@[i - 1]);
        }
        if chars[i - 1] == '.' {
            return Some(i - 1);
        }
        i = i - 1;
    }
    None
}

/// Digits and a possible sign never contain a dot, so the stored cover
/// name splits back into exactly the id's digits and the extension.
pub proof fn lemma_cover_name_splits(id: i64, fmt: ImageFormat)
    ensures
        spec_stem(spec_cover_name(id as int, fmt)) == decimal_chars(id as int),
        spec_ext(spec_cover_name(id as int, fmt)) == Some(fmt.spec_extension()),
        parse_i64_spec(spec_stem(spec_cover_name(id as int, fmt))) == Some(id),
{
    let digits = decimal_chars(id as int);
    let name = spec_cover_name(id as int, fmt);
    crate::digits::lemma_decimal_chars_no_dot(id as int);
    let ext = fmt.spec_extension();
    reveal_strlit("jpg");
    reveal_strlit("png");
    reveal_strlit("webp");
    assert(forall|i: int| 0 <= i < ext.len() ==> ext[i] != '.');
    lemma_last_dot_after_dotless_prefix(digits, ext);
    assert(name.take(digits.len() as int) =~= digits);
    assert(name.skip(digits.len() as int + 1) =~= ext);
    crate::digits::lemma_decimal_round_trip(id);
}

/// Distinct ids are stored under distinct names, whatever the formats.
pub proof fn lemma_cover_name_injective(id1: i64, f1: ImageFormat, id2: i64, f2: ImageFormat)
    requires
        id1 != id2,
    ensures
        spec_cover_name(id1 as int, f1) != spec_cover_name(id2 as int, f2),
{
    lemma_cover_name_splits(id1, f1);
    lemma_cover_name_splits(id2, f2);
    if spec_cover_name(id1 as int, f1) == spec_cover_name(id2 as int, f2) {
        assert(spec_stem(spec_cover_name(id1 as int, f1)) == spec_stem(
            spec_cover_name(id2 as int, f2),
        ));
    }
}

proof fn lemma_last_dot_after_dotless_prefix(prefix: Seq<char>, ext: Seq<char>)
    requires
        prefix.len() >= 1,
        forall|i: int| 0 <= i < prefix.len() ==> prefix[i] != '.',
        forall|i: int| 0 <= i < ext.len() ==> ext[i] != '.',
    ensures
        spec_last_dot(prefix + seq!['.'] + ext) == prefix.len(),
    decreases ext.len(),
{
    let name = prefix + seq!['.'] + ext;
    if ext.len() == 0 {
        assert(name.last() == '.');
        assert(name.len() == prefix.len() + 1);
    } else {
        assert(name.last() == ext.last());
        assert(name.drop_last() =~= prefix + seq!['.'] + ext.drop_last());
        lemma_last_dot_after_dotless_prefix(prefix, ext.drop_last());
    }
}

} // verus!
