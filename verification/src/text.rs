//! Character-sequence helpers for building rendered lines.

use vstd::prelude::*;

use crate::decfmt::{push_repeat, rep_char};

verus! {

/// Whether `c` carries the Unicode `White_Space` property: the characters
/// that trimming a cell or a header removes from either end.
pub open spec fn is_space(c: char) -> bool {
    ||| c == ' '
    ||| c == '\t'
    ||| c == '\n'
    ||| c == '\u{0B}'
    ||| c == '\u{0C}'
    ||| c == '\r'
    ||| c == '\u{85}'
    ||| c == '\u{A0}'
    ||| c == '\u{1680}'
    ||| c == '\u{2000}'
    ||| c == '\u{2001}'
    ||| c == '\u{2002}'
    ||| c == '\u{2003}'
    ||| c == '\u{2004}'
    ||| c == '\u{2005}'
    ||| c == '\u{2006}'
    ||| c == '\u{2007}'
    ||| c == '\u{2008}'
    ||| c == '\u{2009}'
    ||| c == '\u{200A}'
    ||| c == '\u{2028}'
    ||| c == '\u{2029}'
    ||| c == '\u{202F}'
    ||| c == '\u{205F}'
    ||| c == '\u{3000}'
}

/// Whether `c` carries the Unicode `White_Space` property, executably.
pub fn is_space_char(c: char) -> (r: bool)
    ensures
        r == is_space(c),
{
    c == ' ' || c == '\t' || c == '\n' || c == '\u{0B}' || c == '\u{0C}' || c == '\r' || c
        == '\u{85}' || c == '\u{A0}' || c == '\u{1680}' || c == '\u{2000}' || c == '\u{2001}' || c
        == '\u{2002}' || c == '\u{2003}' || c == '\u{2004}' || c == '\u{2005}' || c == '\u{2006}'
        || c == '\u{2007}' || c == '\u{2008}' || c == '\u{2009}' || c == '\u{200A}' || c
        == '\u{2028}' || c == '\u{2029}' || c == '\u{202F}' || c == '\u{205F}' || c == '\u{3000}'
}

/// A non-empty text free of commas and whitespace: splitting on commas,
/// splitting into lines and trimming all leave such a text intact.
pub open spec fn clean_text(s: Seq<char>) -> bool {
    s.len() > 0 && forall|i: int| 0 <= i < s.len() ==> (#[trigger] s[i]) != ',' && !is_space(s[i])
}

/// `s` left-padded with `c` to width `w` (unchanged when already wide
/// enough): right alignment in a field of `w` characters.
pub open spec fn pad_left(s: Seq<char>, w: int, c: char) -> Seq<char> {
    if s.len() >= w {
        s
    } else {
        rep_char(c, w - s.len()) + s
    }
}

/// Appends the characters of `s`.
pub fn push_str(out: &mut Vec<char>, s: &str)
    ensures
        final(out)@ == old(out)@ + s@,
{
    let n = s.unicode_len();
    let mut i: usize = 0;
    while i < n
        invariant
            i <= n,
            n == s@.len(),
            out@ == old(out)@ + s@.take(i as int),
        decreases n - i,
    {
        out.push(s.get_char(i));
        assert(out@ =~= old(out)@ + s@.take(i + 1));
        i += 1;
    }
    assert(s@.take(n as int) =~= s@);
}

/// Appends `s` right-aligned in a field of `w` characters padded with `c`.
pub fn push_padded_left(out: &mut Vec<char>, s: &str, w: usize, c: char)
    ensures
        final(out)@ == old(out)@ + pad_left(s@, w as int, c),
{
    let n = s.unicode_len();
    if n < w {
        push_repeat(out, c, w - n);
    }
    push_str(out, s);
    assert(final(out)@ =~= old(out)@ + pad_left(s@, w as int, c));
}

} // verus!
