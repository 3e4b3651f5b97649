//! File discovery for the library scan: which walked files count as audio,
//! the stem a title falls back to, and the fallback row for a file whose
//! tags cannot be read.  Paths are handled as slash-separated strings.

use vstd::prelude::*;
use crate::files::{find_last_dot, spec_ext, spec_stem};
use crate::store::TrackInsert;
use crate::strings::{str_chars, string_from_chars_range};

verus! {

/// ASCII letters fold to lower case; every other character is unchanged.
pub open spec fn spec_ascii_lower(c: char) -> char {
    if 65 <= c as u32 <= 90 {
        (c as u32 + 32) as char
    } else {
        c
    }
}

/// The case-folded characters of an extension.
pub open spec fn spec_lower_seq(s: Seq<char>) -> Seq<char> {
    Seq::new(s.len(), |i: int| spec_ascii_lower(s[i]))
}

/// The audio container extensions the walker accepts, compared after
/// ASCII case folding.
pub open spec fn spec_supported_ext(e: Seq<char>) -> bool {
    ||| spec_lower_seq(e) == "flac"@
    ||| spec_lower_seq(e) == "mp3"@
    ||| spec_lower_seq(e) == "wav"@
    ||| spec_lower_seq(e) == "ogg"@
    ||| spec_lower_seq(e) == "m4a"@
    ||| spec_lower_seq(e) == "aac"@
}

/// The index of the last slash of a path; negative when there is none.
pub open spec fn spec_last_slash(s: Seq<char>) -> int
    decreases s.len(),
{
    if s.len() == 0 {
        -1
    } else if s.last() == '/' {
        s.len() - 1
    } else {
        spec_last_slash(s.drop_last())
    }
}

/// The final path component.
pub open spec fn spec_base_name(s: Seq<char>) -> Seq<char> {
    s.skip(spec_last_slash(s) + 1)
}

/// Whether the walked path names a supported audio file: its final
/// component has an extension on the accepted list, case folded.
pub open spec fn spec_is_supported_audio_file(path: Seq<char>) -> bool {
    match spec_ext(spec_base_name(path)) {
        Some(e) => spec_supported_ext(e),
        None => false,
    }
}

fn find_last_slash(chars: &Vec<char>) -> (r: Option<usize>)
    ensures
        match r {
            Some(d) => spec_last_slash(chars@) == d && d < chars@.len(),
            None => spec_last_slash(chars@) == -1,
        },
{
    let mut i: usize = chars.len();
    proof {
        assert(chars@.take(chars@.len() as int) =~= chars@);
    }
    while i > 0
        invariant
            i <= chars@.len(),
            spec_last_slash(chars@.take(i as int)) == spec_last_slash(chars@),
        decreases i,
    {
        proof {
            assert(chars@.take(i as int).drop_last() =~= chars@.take(i - 1));
            assert(chars@.take(i as int).last() == chars@[i - 1]);
        }
        if chars[i - 1] == '/' {
            return Some(i - 1);
        }
        i = i - 1;
    }
    None
}

/// Whether the character case folds to the given lowercase letter.
fn char_folds_to(c: char, lower: char) -> (r: bool)
    requires
        !(65 <= lower as u32 <= 90),
    ensures
        r == (spec_ascii_lower(c) == lower),
{
    c == lower || (65 <= c as u32 && c as u32 <= 90 && (c as u32) + 32 == lower as u32)
}

fn ext_chars_match(chars: &Vec<char>, start: usize, pat: &Vec<char>) -> (r: bool)
    requires
        start <= chars@.len(),
        forall|i: int| 0 <= i < pat@.len() ==> !(65 <= (#[trigger] pat@[i]) as u32 <= 90),
    ensures
        r == (spec_lower_seq(chars@.skip(start as int)) == pat@),
{
    let n = chars.len() - start;
    if n != pat.len() {
        proof {
            assert(spec_lower_seq(chars@.skip(start as int)).len() != pat@.len());
        }
        return false;
    }
    let mut i: usize = 0;
    while i < pat.len()
        invariant
            i <= pat@.len(),
            chars@.len() <= usize::MAX,
            start + pat@.len() == chars@.len(),
            forall|j: int| 0 <= j < pat@.len() ==> !(65 <= (#[trigger] pat@[j]) as u32 <= 90),
            forall|j: int|
                0 <= j < i ==> spec_ascii_lower(chars@[start + j]) == (#[trigger] pat@[j]),
        decreases pat@.len() - i,
    {
        if !char_folds_to(chars[start + i], pat[i]) {
            proof {
                assert(spec_lower_seq(chars@.skip(start as int))[i as int] != pat@[i as int]);
            }
            return false;
        }
        i = i + 1;
    }
    proof {
        assert(spec_lower_seq(chars@.skip(start as int)) =~= pat@);
    }
    true
}

fn pattern_flac() -> (r: Vec<char>)
    ensures
        r@ == "flac"@,
        forall|i: int| 0 <= i < r@.len() ==> !(65 <= (#[trigger] r@[i]) as u32 <= 90),
{
    let mut v: Vec<char> = Vec::new();
    v.push('f');
    v.push('l');
    v.push('a');
    v.push('c');
    proof {
        reveal_strlit("flac");
        assert(v@ =~= "flac"@);
    }
    v
}

fn pattern_mp3() -> (r: Vec<char>)
    ensures
        r@ == "mp3"@,
        forall|i: int| 0 <= i < r@.len() ==> !(65 <= (#[trigger] r@[i]) as u32 <= 90),
{
    let mut v: Vec<char> = Vec::new();
    v.push('m');
    v.push('p');
    v.push('3');
    proof {
        reveal_strlit("mp3");
        assert(v@ =~= "mp3"@);
    }
    v
}

fn pattern_wav() -> (r: Vec<char>)
    ensures
        r@ == "wav"@,
        forall|i: int| 0 <= i < r@.len() ==> !(65 <= (#[trigger] r@[i]) as u32 <= 90),
{
    let mut v: Vec<char> = Vec::new();
    v.push('w');
    v.push('a');
    v.push('v');
    proof {
        reveal_strlit("wav");
        assert(v@ =~= "wav"@);
    }
    v
}

fn pattern_ogg() -> (r: Vec<char>)
    ensures
        r@ == "ogg"@,
        forall|i: int| 0 <= i < r@.len() ==> !(65 <= (#[trigger] r@[i]) as u32 <= 90),
{
    let mut v: Vec<char> = Vec::new();
    v.push('o');
    v.push('g');
    v.push('g');
    proof {
        reveal_strlit("ogg");
        assert(v@ =~= "ogg"@);
    }
    v
}

fn pattern_m4a() -> (r: Vec<char>)
    ensures
        r@ == "m4a"@,
        forall|i: int| 0 <= i < r@.len() ==> !(65 <= (#[trigger] r@[i]) as u32 <= 90),
{
    let mut v: Vec<char> = Vec::new();
    v.push('m');
    v.push('4');
    v.push('a');
    proof {
        reveal_strlit("m4a");
        assert(v@ =~= "m4a"@);
    }
    v
}

fn pattern_aac() -> (r: Vec<char>)
    ensures
        r@ == "aac"@,
        forall|i: int| 0 <= i < r@.len() ==> !(65 <= (#[trigger] r@[i]) as u32 <= 90),
{
    let mut v: Vec<char> = Vec::new();
    v.push('a');
    v.push('a');
    v.push('c');
    proof {
        reveal_strlit("aac");
        assert(v@ =~= "aac"@);
    }
    v
}

/// Whether the walked path names a supported audio file.
pub fn is_supported_audio_file(path: &str) -> (r: bool)
    ensures
        r == spec_is_supported_audio_file(path@),
{
    let chars = str_chars(path);
    let n_chars = chars.len();
    proof {
        assert(n_chars as int == chars@.len());
    }
    let base_start: usize = match find_last_slash(&chars) {
        Some(d) => d + 1,
        None => 0,
    };
    let ghost base = spec_base_name(path@);
    proof {
        assert(chars@.skip(base_start as int) =~= base);
    }
    let mut base_chars: Vec<char> = Vec::new();
    let mut i: usize = base_start;
    proof {
        assert(base_chars@ =~= chars@.subrange(base_start as int, base_start as int));
    }
    while i < chars.len()
        invariant
            base_start <= i <= chars@.len(),
            base_chars@ == chars@.subrange(base_start as int, i as int),
        decreases chars@.len() - i,
    {
        base_chars.push(chars[i]);
        proof {
            assert(base_chars@ =~= chars@.subrange(base_start as int, i + 1));
        }
        i = i + 1;
    }
    proof {
        assert(base_chars@ =~= base);
    }
    match find_last_dot(&base_chars) {
        Some(d) => {
            let ext_start = d + 1;
            proof {
                assert(base_chars@.skip(ext_start as int) == spec_ext(base)->0);
            }
            if ext_chars_match(&base_chars, ext_start, &pattern_flac()) {
                return true;
            }
            if ext_chars_match(&base_chars, ext_start, &pattern_mp3()) {
                return true;
            }
            if ext_chars_match(&base_chars, ext_start, &pattern_wav()) {
                return true;
            }
            if ext_chars_match(&base_chars, ext_start, &pattern_ogg()) {
                return true;
            }
            if ext_chars_match(&base_chars, ext_start, &pattern_m4a()) {
                return true;
            }
            if ext_chars_match(&base_chars, ext_start, &pattern_aac()) {
                return true;
            }
            false
        },
        None => false,
    }
}

/// The stem the scanner uses for a title when a file carries no tags:
/// the final path component without its extension; nothing for a path
/// with an empty final component.
pub open spec fn spec_filename_without_ext(path: Seq<char>) -> Option<Seq<char>> {
    if spec_base_name(path).len() == 0 {
        None
    } else {
        Some(spec_stem(spec_base_name(path)))
    }
}

/// The final path component without its extension, when there is one.
pub fn get_filename_without_ext(path: &str) -> (r: Option<String>)
    ensures
        match r {
            Some(s) => spec_filename_without_ext(path@) == Some(s@),
            None => spec_filename_without_ext(path@) is None,
        },
{
    let chars = str_chars(path);
    let n_chars = chars.len();
    proof {
        assert(n_chars as int == chars@.len());
    }
    let base_start: usize = match find_last_slash(&chars) {
        Some(d) => d + 1,
        None => 0,
    };
    proof {
        assert(chars@.skip(base_start as int) =~= spec_base_name(path@));
    }
    if base_start == chars.len() {
        return None;
    }
    let mut base_chars: Vec<char> = Vec::new();
    let mut i: usize = base_start;
    proof {
        assert(base_chars@ =~= chars@.subrange(base_start as int, base_start as int));
    }
    while i < chars.len()
        invariant
            base_start <= i <= chars@.len(),
            base_chars@ == chars@.subrange(base_start as int, i as int),
        decreases chars@.len() - i,
    {
        base_chars.push(chars[i]);
        proof {
            assert(base_chars@ =~= chars@.subrange(base_start as int, i + 1));
        }
        i = i + 1;
    }
    proof {
        assert(base_chars@ =~= spec_base_name(path@));
    }
    let stem_end: usize = match find_last_dot(&base_chars) {
        Some(d) => d,
        None => base_chars.len(),
    };
    proof {
        assert(base_chars@.subrange(0, stem_end as int) =~= spec_stem(spec_base_name(path@)));
    }
    Some(string_from_chars_range(&base_chars, 0, stem_end))
}

/// The row inserted for a file whose tags could not be read: the path,
/// the stem as the title, and nothing else.
pub fn create_fallback_metadata(path: &str) -> (r: TrackInsert)
    ensures
        r.path@ == path@,
        match r.title {
            Some(t) => spec_filename_without_ext(path@) == Some(t@),
            None => spec_filename_without_ext(path@) is None,
        },
        r.artist is None,
        r.album is None,
        r.track_number is None,
        r.duration is None,
        r.album_art is None,
        r.track_cover is None,
        r.format is None,
        r.bitrate is None,
        r.source_type is None,
        r.cover_url is None,
        r.external_id is None,
        r.content_hash is None,
        r.local_src is None,
{
    TrackInsert {
        path: path.to_owned(),
        title: get_filename_without_ext(path),
        artist: None,
        album: None,
        track_number: None,
        duration: None,
        album_art: None,
        track_cover: None,
        format: None,
        bitrate: None,
        source_type: None,
        cover_url: None,
        external_id: None,
        content_hash: None,
        local_src: None,
    }
}


/// The image extensions the path sync accepts, compared after ASCII case
/// folding.
pub open spec fn spec_supported_image_ext(e: Seq<char>) -> bool {
    ||| spec_lower_seq(e) == "jpg"@
    ||| spec_lower_seq(e) == "jpeg"@
    ||| spec_lower_seq(e) == "png"@
    ||| spec_lower_seq(e) == "webp"@
}

fn pattern_jpg() -> (r: Vec<char>)
    ensures
        r@ == "jpg"@,
        forall|i: int| 0 <= i < r@.len() ==> !(65 <= (#[trigger] r@[i]) as u32 <= 90),
{
    let mut v: Vec<char> = Vec::new();
    v.push('j');
    v.push('p');
    v.push('g');
    proof {
        reveal_strlit("jpg");
        assert(v@ =~= "jpg"@);
    }
    v
}

fn pattern_jpeg() -> (r: Vec<char>)
    ensures
        r@ == "jpeg"@,
        forall|i: int| 0 <= i < r@.len() ==> !(65 <= (#[trigger] r@[i]) as u32 <= 90),
{
    let mut v: Vec<char> = Vec::new();
    v.push('j');
    v.push('p');
    v.push('e');
    v.push('g');
    proof {
        reveal_strlit("jpeg");
        assert(v@ =~= "jpeg"@);
    }
    v
}

fn pattern_png() -> (r: Vec<char>)
    ensures
        r@ == "png"@,
        forall|i: int| 0 <= i < r@.len() ==> !(65 <= (#[trigger] r@[i]) as u32 <= 90),
{
    let mut v: Vec<char> = Vec::new();
    v.push('p');
    v.push('n');
    v.push('g');
    proof {
        reveal_strlit("png");
        assert(v@ =~= "png"@);
    }
    v
}

fn pattern_webp() -> (r: Vec<char>)
    ensures
        r@ == "webp"@,
        forall|i: int| 0 <= i < r@.len() ==> !(65 <= (#[trigger] r@[i]) as u32 <= 90),
{
    let mut v: Vec<char> = Vec::new();
    v.push('w');
    v.push('e');
    v.push('b');
    v.push('p');
    proof {
        reveal_strlit("webp");
        assert(v@ =~= "webp"@);
    }
    v
}

/// Whether the characters from `start` on are an accepted image
/// extension, case folded.
pub(crate) fn image_ext_matches(chars: &Vec<char>, start: usize) -> (r: bool)
    requires
        start <= chars@.len(),
    ensures
        r == spec_supported_image_ext(chars@.skip(start as int)),
{
    if ext_chars_match(chars, start, &pattern_jpg()) {
        return true;
    }
    if ext_chars_match(chars, start, &pattern_jpeg()) {
        return true;
    }
    if ext_chars_match(chars, start, &pattern_png()) {
        return true;
    }
    if ext_chars_match(chars, start, &pattern_webp()) {
        return true;
    }
    false
}


/// ASCII whitespace, as the normalization strips it at either end.
pub open spec fn spec_is_ascii_space(c: char) -> bool {
    c == ' ' || c == '\t' || c == '\n' || c == '\r'
}

/// The characters left after stripping leading whitespace.
pub open spec fn spec_trim_start(s: Seq<char>) -> Seq<char>
    decreases s.len(),
{
    if s.len() > 0 && spec_is_ascii_space(s[0]) {
        spec_trim_start(s.drop_first())
    } else {
        s
    }
}

/// The characters left after stripping trailing whitespace.
pub open spec fn spec_trim_end(s: Seq<char>) -> Seq<char>
    decreases s.len(),
{
    if s.len() > 0 && spec_is_ascii_space(s.last()) {
        spec_trim_end(s.drop_last())
    } else {
        s
    }
}

/// A tag field as the duplicate-detection key normalizes it: trimmed and
/// case folded.
pub open spec fn spec_normalized(s: Seq<char>) -> Seq<char> {
    spec_lower_seq(spec_trim_end(spec_trim_start(s)))
}

/// The characters of an optional tag field; a missing field is empty.
pub open spec fn spec_opt_chars(s: Option<String>) -> Seq<char> {
    match s {
        Some(v) => v@,
        None => Seq::empty(),
    }
}

/// The key the scanner hashes for duplicate detection: the normalized
/// title, artist and album and the decimal duration, joined by bars.
/// Hashing the key is the shell's, so byte-identical metadata always
/// yields the same key here.
pub open spec fn spec_content_key(
    title: Option<String>,
    artist: Option<String>,
    album: Option<String>,
    duration: Option<i32>,
) -> Seq<char> {
    spec_normalized(spec_opt_chars(title)) + seq!['|'] + spec_normalized(spec_opt_chars(artist))
        + seq!['|'] + spec_normalized(spec_opt_chars(album)) + seq!['|'] + (match duration {
        Some(d) => crate::digits::decimal_chars(d as int),
        None => Seq::empty(),
    })
}

fn is_ascii_space(c: char) -> (r: bool)
    ensures
        r == spec_is_ascii_space(c),
{
    c == ' ' || c == '\t' || c == '\n' || c == '\r'
}

fn ascii_lower_char(c: char) -> (r: char)
    ensures
        r == spec_ascii_lower(c),
{
    let code = c as u32;
    if 65 <= code && code <= 90 {
        let r = match c {
            'A' => 'a',
            'B' => 'b',
            'C' => 'c',
            'D' => 'd',
            'E' => 'e',
            'F' => 'f',
            'G' => 'g',
            'H' => 'h',
            'I' => 'i',
            'J' => 'j',
            'K' => 'k',
            'L' => 'l',
            'M' => 'm',
            'N' => 'n',
            'O' => 'o',
            'P' => 'p',
            'Q' => 'q',
            'R' => 'r',
            'S' => 's',
            'T' => 't',
            'U' => 'u',
            'V' => 'v',
            'W' => 'w',
            'X' => 'x',
            'Y' => 'y',
            _ => 'z',
        };
        proof {
            crate::strings::char_code_injective(r, spec_ascii_lower(c));
        }
        r
    } else {
        c
    }
}

/// Append the normalized characters of one optional tag field.
fn push_normalized(out: &mut String, field: &Option<String>)
    ensures
        final(out)@ == old(out)@ + spec_normalized(spec_opt_chars(*field)),
{
    match field {
        None => {
            proof {
                assert(spec_trim_start(Seq::<char>::empty()) =~= Seq::<char>::empty());
                assert(spec_trim_end(Seq::<char>::empty()) =~= Seq::<char>::empty());
                assert(spec_lower_seq(Seq::<char>::empty()) =~= Seq::<char>::empty());
                assert(old(out)@ + spec_normalized(spec_opt_chars(*field)) =~= old(out)@);
            }
        },
        Some(v) => {
            let chars = crate::strings::str_chars(v.as_str());
            let n = chars.len();
            let mut start: usize = 0;
            proof {
                assert(v@.skip(0) =~= v@);
            }
            while start < n && is_ascii_space(chars[start])
                invariant
                    start <= n,
                    n == chars@.len(),
                    chars@ == v@,
                    spec_trim_start(v@) == spec_trim_start(v@.skip(start as int)),
                decreases n - start,
            {
                proof {
                    assert(v@.skip(start as int)[0] == v@[start as int]);
                    assert(v@.skip(start as int).drop_first() =~= v@.skip(start + 1));
                }
                start = start + 1;
            }
            proof {
                if start < n {
                    assert(v@.skip(start as int)[0] == v@[start as int]);
                }
                assert(spec_trim_start(v@) == v@.skip(start as int));
            }
            let mut endpos: usize = n;
            let ghost t = v@.skip(start as int);
            proof {
                assert(t.take(n - start as int) =~= t);
            }
            while endpos > start && is_ascii_space(chars[endpos - 1])
                invariant
                    start <= endpos <= n,
                    n == chars@.len(),
                    chars@ == v@,
                    t == v@.skip(start as int),
                    spec_trim_end(t) == spec_trim_end(t.take(endpos - start as int)),
                decreases endpos,
            {
                proof {
                    assert(t.take(endpos - start as int).last() == v@[endpos - 1]);
                    assert(t.take(endpos - start as int).drop_last() =~= t.take(
                        endpos - 1 - start as int,
                    ));
                }
                endpos = endpos - 1;
            }
            proof {
                if endpos > start {
                    assert(t.take(endpos - start as int).last() == v@[endpos - 1]);
                }
                assert(spec_trim_end(t) == t.take(endpos - start as int));
                assert(t.take(endpos - start as int) =~= v@.subrange(
                    start as int,
                    endpos as int,
                ));
            }
            let mut i: usize = start;
            proof {
                assert(out@ + spec_lower_seq(v@.subrange(start as int, start as int)) =~= out@);
            }
            while i < endpos
                invariant
                    start <= i <= endpos <= n,
                    n == chars@.len(),
                    chars@ == v@,
                    out@ == old(out)@ + spec_lower_seq(v@.subrange(start as int, i as int)),
                decreases endpos - i,
            {
                let lowered = ascii_lower_char(chars[i]);
                out.push(lowered);
                proof {
                    assert(out@ =~= old(out)@ + spec_lower_seq(
                        v@.subrange(start as int, i + 1),
                    ));
                }
                i = i + 1;
            }
            proof {
                assert(out@ =~= old(out)@ + spec_normalized(spec_opt_chars(*field)));
            }
        },
    }
}

/// Build the duplicate-detection key for one scanned file's metadata; the
/// shell hashes this key, so equal metadata always maps to one key.
pub fn content_hash_key(
    title: &Option<String>,
    artist: &Option<String>,
    album: &Option<String>,
    duration: Option<i32>,
) -> (r: String)
    ensures
        r@ == spec_content_key(*title, *artist, *album, duration),
{
    let mut out = String::new();
    proof {
        assert(out@ =~= Seq::<char>::empty());
    }
    push_normalized(&mut out, title);
    out.push('|');
    push_normalized(&mut out, artist);
    out.push('|');
    push_normalized(&mut out, album);
    out.push('|');
    match duration {
        Some(d) => {
            let rendered = crate::digits::i64_decimal_string(d as i64);
            let rchars = crate::strings::str_chars(rendered.as_str());
            let mut i: usize = 0;
            let ghost before = out@;
            proof {
                assert(before + rendered@.take(0) =~= before);
            }
            while i < rchars.len()
                invariant
                    i <= rchars@.len(),
                    rchars@ == rendered@,
                    out@ == before + rendered@.take(i as int),
                decreases rchars@.len() - i,
            {
                out.push(rchars[i]);
                proof {
                    assert(out@ =~= before + rendered@.take(i + 1));
                }
                i = i + 1;
            }
            proof {
                assert(rendered@.take(rendered@.len() as int) =~= rendered@);
                assert(out@ =~= spec_content_key(*title, *artist, *album, duration));
            }
        },
        None => {
            proof {
                assert(out@ =~= spec_content_key(*title, *artist, *album, duration));
            }
        },
    }
    out
}

} // verus!
