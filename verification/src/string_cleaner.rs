//! Whitespace canonicalization and the accent-stripping transliteration used
//! for fuzzy matching: `clean_string` decodes accents and collapses
//! whitespace runs for display, `clean_and_decode` additionally strips the
//! result down to ASCII for accent-insensitive comparison.

use vstd::prelude::*;
use crate::latex_decoder::{decode_latex, decoded};
use crate::strutil::{to_char_vec, chars_to_string};

verus! {

/// The Unicode White_Space characters, as documented for
/// `char::is_whitespace` in std.
pub open spec fn is_space(c: char) -> bool {
    ||| c == ' '
    ||| c == '\t'
    ||| c == '\n'
    ||| c == '\r'
    ||| c == '\u{000B}'
    ||| c == '\u{000C}'
    ||| c == '\u{0085}'
    ||| c == '\u{00A0}'
    ||| c == '\u{1680}'
    ||| ('\u{2000}' <= c && c <= '\u{200A}')
    ||| c == '\u{2028}'
    ||| c == '\u{2029}'
    ||| c == '\u{202F}'
    ||| c == '\u{205F}'
    ||| c == '\u{3000}'
}

/// One step of whitespace collapsing: `emitted` says whether a word was
/// already written out, `in_word` whether the previous character belonged
/// to the current word.
pub open spec fn collapse_go(s: Seq<char>, emitted: bool, in_word: bool) -> Seq<char>
    decreases s.len(),
{
    if s.len() == 0 {
        Seq::empty()
    } else if is_space(s[0]) {
        collapse_go(s.skip(1), emitted, false)
    } else if !in_word && emitted {
        seq![' ', s[0]] + collapse_go(s.skip(1), true, true)
    } else {
        seq![s[0]] + collapse_go(s.skip(1), true, true)
    }
}

/// Whitespace runs collapsed to a single space, with leading and trailing
/// whitespace dropped.
pub open spec fn collapse_ws(s: Seq<char>) -> Seq<char> {
    collapse_go(s, false, false)
}

/// What `clean_string` returns: accents decoded, whitespace canonicalized.
pub open spec fn cleaned(s: Seq<char>) -> Seq<char> {
    collapse_ws(decoded(s))
}

fn is_space_char(c: char) -> (r: bool)
    ensures
        r == is_space(c),
{
    c == ' ' || c == '\t' || c == '\n' || c == '\r' || c == '\u{000B}' || c == '\u{000C}' || c
        == '\u{0085}' || c == '\u{00A0}' || c == '\u{1680}' || ('\u{2000}' <= c && c
        <= '\u{200A}') || c == '\u{2028}' || c == '\u{2029}' || c == '\u{202F}' || c == '\u{205F}'
        || c == '\u{3000}'
}

/// Collapses every whitespace run to one space and trims the ends.
pub fn remove_extra_whitespace(s: &str) -> (r: String)
    ensures
        r@ == collapse_ws(s@),
{
    let cs = to_char_vec(s);
    let mut out: Vec<char> = Vec::new();
    let mut emitted = false;
    let mut in_word = false;
    let mut i: usize = 0;
    proof {
        assert(cs@.skip(0) =~= cs@);
        assert(out@ + collapse_go(cs@, false, false) =~= collapse_go(cs@, false, false));
    }
    while i < cs.len()
        invariant
            i <= cs.len(),
            collapse_ws(cs@) == out@ + collapse_go(cs@.skip(i as int), emitted, in_word),
        decreases cs.len() - i,
    {
        let ghost t = cs@.skip(i as int);
        let c = cs[i];
        proof {
            assert(t[0] == c);
            assert(t.skip(1) =~= cs@.skip(i as int + 1));
        }
        if is_space_char(c) {
            in_word = false;
        } else {
            if !in_word && emitted {
                out.push(' ');
            }
            out.push(c);
            emitted = true;
            in_word = true;
        }
        proof {
            assert(collapse_ws(cs@) =~= out@ + collapse_go(
                cs@.skip(i as int + 1),
                emitted,
                in_word,
            ));
        }
        i = i + 1;
    }
    proof {
        assert(cs@.skip(cs@.len() as int) =~= Seq::<char>::empty());
        assert(out@ =~= collapse_ws(cs@));
    }
    chars_to_string(&out)
}

/// Decodes accent notation and canonicalizes whitespace: the display form
/// of a field value.
pub fn clean_string(s: &str) -> (r: String)
    ensures
        r@ == cleaned(s@),
{
    let d = decode_latex(s);
    remove_extra_whitespace(d.as_str())
}

/// ASCII transliteration of Unicode text; the result depends on the
/// characters alone.
pub uninterp spec fn transliterate_of(s: Seq<char>) -> Seq<char>;

/// Relies on unidecode's `unidecode()`: the ASCII transliteration of the
/// text, a pure function of the characters.
#[verifier::external_body]
fn transliterate(s: &str) -> (r: String)
    ensures
        r@ == transliterate_of(s@),
{
    unidecode::unidecode(s)
}

/// The accent-insensitive comparison form: cleaned, then transliterated
/// down to ASCII.
pub fn clean_and_decode(s: &str) -> (r: String)
    ensures
        r@ == transliterate_of(cleaned(s@)),
{
    let c = clean_string(s);
    transliterate(c.as_str())
}

} // verus!
