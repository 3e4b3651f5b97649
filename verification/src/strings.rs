//! Character-level helpers: turning a string into its characters and the
//! lexicographic order on strings by scalar value, under which the dedup
//! stage picks its canonical path.

use vstd::prelude::*;
use vstd::string::StrSliceExecFns;

verus! {

/// Lexicographic order on character sequences, comparing scalar values.
pub open spec fn lex_le(a: Seq<char>, b: Seq<char>) -> bool
    decreases a.len(),
{
    if a.len() == 0 {
        true
    } else if b.len() == 0 {
        false
    } else if (a[0] as u32) < (b[0] as u32) {
        true
    } else if (b[0] as u32) < (a[0] as u32) {
        false
    } else {
        lex_le(a.drop_first(), b.drop_first())
    }
}

pub(crate) proof fn char_code_injective(c1: char, c2: char)
    requires
        c1 as u32 == c2 as u32,
    ensures
        c1 == c2,
{
}

/// The order is total: any two strings are comparable.
pub proof fn lex_le_total(a: Seq<char>, b: Seq<char>)
    ensures
        lex_le(a, b) || lex_le(b, a),
    decreases a.len(),
{
    if a.len() != 0 && b.len() != 0 && !((a[0] as u32) < (b[0] as u32)) && !((b[0] as u32) < (
    a[0] as u32)) {
        lex_le_total(a.drop_first(), b.drop_first());
    }
}

/// The order is antisymmetric: strings below each other are equal.
pub proof fn lex_le_antisymmetric(a: Seq<char>, b: Seq<char>)
    requires
        lex_le(a, b),
        lex_le(b, a),
    ensures
        a == b,
    decreases a.len(),
{
    if a.len() == 0 {
        assert(b.len() == 0);
        assert(a =~= b);
    } else {
        assert(b.len() != 0);
        char_code_injective(a[0], b[0]);
        lex_le_antisymmetric(a.drop_first(), b.drop_first());
        assert(a =~= seq![a[0]] + a.drop_first());
        assert(b =~= seq![b[0]] + b.drop_first());
    }
}

/// The order is transitive.
pub proof fn lex_le_transitive(a: Seq<char>, b: Seq<char>, c: Seq<char>)
    requires
        lex_le(a, b),
        lex_le(b, c),
    ensures
        lex_le(a, c),
    decreases a.len(),
{
    if a.len() != 0 && b.len() != 0 && c.len() != 0 && a[0] as u32 == b[0] as u32 && b[0] as u32
        == c[0] as u32 {
        lex_le_transitive(a.drop_first(), b.drop_first(), c.drop_first());
    }
}

/// The characters of a string, as a vector.
pub fn str_chars(s: &str) -> (r: Vec<char>)
    ensures
        r@ == s@,
{
    let n = s.unicode_len();
    let mut r: Vec<char> = Vec::new();
    let mut i: usize = 0;
    while i < n
        invariant
            i <= n,
            n == s@.len(),
            r@ == s@.take(i as int),
        decreases n - i,
    {
        let c = s.get_char(i);
        r.push(c);
        proof {
            assert(s@.take(i + 1 as int) =~= s@.take(i as int).push(s@[i as int]));
        }
        i = i + 1;
    }
    proof {
        assert(r@ =~= s@);
    }
    r
}

/// Whether `a` comes no later than `b` in lexicographic order.
pub fn str_le(a: &str, b: &str) -> (r: bool)
    ensures
        r == lex_le(a@, b@),
{
    let av = str_chars(a);
    let bv = str_chars(b);
    let mut i: usize = 0;
    proof {
        assert(a@.skip(0) =~= a@);
        assert(b@.skip(0) =~= b@);
    }
    while i < av.len() && i < bv.len()
        invariant
            i <= av.len(),
            i <= bv.len(),
            av@ == a@,
            bv@ == b@,
            lex_le(a@, b@) == lex_le(a@.skip(i as int), b@.skip(i as int)),
        decreases av.len() - i,
    {
        let ca = av[i];
        let cb = bv[i];
        proof {
            assert(a@.skip(i as int)[0] == a@[i as int]);
            assert(b@.skip(i as int)[0] == b@[i as int]);
        }
        if (ca as u32) < (cb as u32) {
            return true;
        }
        if (cb as u32) < (ca as u32) {
            return false;
        }
        proof {
            assert(a@.skip(i as int).drop_first() =~= a@.skip(i + 1 as int));
            assert(b@.skip(i as int).drop_first() =~= b@.skip(i + 1 as int));
        }
        i = i + 1;
    }
    proof {
        if i == av.len() {
            assert(a@.skip(i as int).len() == 0);
        } else {
            assert(b@.skip(i as int).len() == 0);
            assert(a@.skip(i as int).len() != 0);
        }
    }
    i == av.len()
}


/// The string holding the given range of characters.
pub fn string_from_chars_range(chars: &Vec<char>, start: usize, end: usize) -> (r: String)
    requires
        start <= end <= chars@.len(),
    ensures
        r@ == chars@.subrange(start as int, end as int),
{
    let mut s = String::new();
    let mut i: usize = start;
    proof {
        assert(s@ =~= chars@.subrange(start as int, start as int));
    }
    while i < end
        invariant
            start <= i <= end <= chars@.len(),
            s@ == chars@.subrange(start as int, i as int),
        decreases end - i,
    {
        s.push(chars[i]);
        proof {
            assert(s@ =~= chars@.subrange(start as int, i + 1));
        }
        i = i + 1;
    }
    s
}

} // verus!
