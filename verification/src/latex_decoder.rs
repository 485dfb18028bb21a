//! The text normalizer: decodes TeX-style escape notation for accented
//! characters into base character + Unicode combining mark pairs, removes
//! grouping braces, and composes the result into Unicode NFC.
//!
//! The decoding pass is fully specified by [`scan`]; the final composition
//! step is the outside normalizer, named by [`nfc_of`].

use vstd::prelude::*;
use crate::strutil::{to_char_vec, chars_to_string};
use unicode_normalization::UnicodeNormalization;

verus! {

/// The combining mark emitted for a backslash-prefixed diacritic command,
/// or `None` when the character is not a diacritic command.
pub open spec fn combining_mark(c: char) -> Option<char> {
    if c == '`' {
        Some('\u{0300}')
    } else if c == '\'' {
        Some('\u{0301}')
    } else if c == '^' {
        Some('\u{0302}')
    } else if c == '"' {
        Some('\u{0308}')
    } else if c == 'H' {
        Some('\u{030B}')
    } else if c == '~' {
        Some('\u{0303}')
    } else if c == 'c' {
        Some('\u{0327}')
    } else if c == 'k' {
        Some('\u{0328}')
    } else if c == '=' {
        Some('\u{0304}')
    } else if c == 'b' {
        Some('\u{0332}')
    } else if c == '.' {
        Some('\u{0307}')
    } else if c == 'd' {
        Some('\u{0323}')
    } else if c == 'r' {
        Some('\u{030A}')
    } else if c == 'u' {
        Some('\u{0306}')
    } else if c == 'v' {
        Some('\u{030C}')
    } else {
        None
    }
}

/// Characters that may stand between a diacritic command and its base letter:
/// one layer of braces, possibly with a stray backslash (as in `\^{\i}`).
pub open spec fn is_wrap(c: char) -> bool {
    c == '{' || c == '}' || c == '\\'
}

pub open spec fn is_ascii_letter(c: char) -> bool {
    ('a' <= c && c <= 'z') || ('A' <= c && c <= 'Z')
}

/// Length of the longest prefix of wrap characters.
pub open spec fn wrap_len(s: Seq<char>) -> nat
    decreases s.len(),
{
    if s.len() == 0 || !is_wrap(s[0]) {
        0
    } else {
        1 + wrap_len(s.skip(1))
    }
}

/// The decoding pass over the raw characters, before Unicode composition:
/// unescaped braces are dropped; `\aa`, `\l` and `\o` become their fixed
/// replacement characters; a diacritic command consumes its base letter
/// (optionally wrapped in braces) and emits base then combining mark; any
/// other escaped character is emitted literally; a lone trailing backslash
/// is dropped.
pub open spec fn scan(s: Seq<char>) -> Seq<char>
    decreases s.len(),
{
    if s.len() == 0 {
        Seq::empty()
    } else if s[0] == '{' || s[0] == '}' {
        scan(s.skip(1))
    } else if s[0] == '\\' {
        if s.len() == 1 {
            Seq::empty()
        } else if s.len() >= 3 && s[1] == 'a' && s[2] == 'a' {
            seq!['\u{00E5}'] + scan(s.skip(3))
        } else if s[1] == 'l' {
            seq!['\u{0142}'] + scan(s.skip(2))
        } else if s[1] == 'o' {
            seq!['\u{00F8}'] + scan(s.skip(2))
        } else if combining_mark(s[1]) is Some {
            let t2 = s.skip(2);
            let w = wrap_len(t2);
            if w < t2.len() && is_ascii_letter(t2[w as int]) {
                seq![t2[w as int], combining_mark(s[1])->Some_0] + scan(t2.skip(w as int + 1))
            } else {
                seq![s[1]] + scan(s.skip(2))
            }
        } else {
            seq![s[1]] + scan(s.skip(2))
        }
    } else {
        seq![s[0]] + scan(s.skip(1))
    }
}

/// Holds when the text carries no escape or grouping markers, so the
/// decoding pass copies it through unchanged.
pub open spec fn marker_free(s: Seq<char>) -> bool {
    forall|i: int| 0 <= i < s.len() ==> s[i] != '\\' && s[i] != '{' && s[i] != '}'
}

pub open spec fn ascii_only(s: Seq<char>) -> bool {
    forall|i: int| 0 <= i < s.len() ==> (s[i] as u32) < 128
}

/// On marker-free text the decoding pass is the identity.
pub proof fn lemma_scan_marker_free(s: Seq<char>)
    requires
        marker_free(s),
    ensures
        scan(s) == s,
    decreases s.len(),
{
    if s.len() == 0 {
        assert(scan(s) =~= s);
    } else {
        assert(marker_free(s.skip(1)));
        lemma_scan_marker_free(s.skip(1));
        assert(scan(s) =~= s);
    }
}

/// Unicode canonical composition (NFC) of a character sequence; the result
/// depends on the characters alone.
pub uninterp spec fn nfc_of(s: Seq<char>) -> Seq<char>;

/// What the full decoder returns: the decoding pass composed to NFC.
pub open spec fn decoded(s: Seq<char>) -> Seq<char> {
    nfc_of(scan(s))
}

/// Relies on unicode_normalization's `nfc()`: it yields the input in Unicode
/// Normalization Form C, which per UAX #15 is idempotent and leaves pure
/// ASCII text unchanged.
#[verifier::external_body]
fn nfc_string(s: &str) -> (r: String)
    ensures
        r@ == nfc_of(s@),
        nfc_of(r@) == r@,
        ascii_only(s@) ==> r@ == s@,
{
    s.nfc().collect::<String>()
}

fn mark_for(c: char) -> (r: Option<char>)
    ensures
        r == combining_mark(c),
{
    if c == '`' {
        Some('\u{0300}')
    } else if c == '\'' {
        Some('\u{0301}')
    } else if c == '^' {
        Some('\u{0302}')
    } else if c == '"' {
        Some('\u{0308}')
    } else if c == 'H' {
        Some('\u{030B}')
    } else if c == '~' {
        Some('\u{0303}')
    } else if c == 'c' {
        Some('\u{0327}')
    } else if c == 'k' {
        Some('\u{0328}')
    } else if c == '=' {
        Some('\u{0304}')
    } else if c == 'b' {
        Some('\u{0332}')
    } else if c == '.' {
        Some('\u{0307}')
    } else if c == 'd' {
        Some('\u{0323}')
    } else if c == 'r' {
        Some('\u{030A}')
    } else if c == 'u' {
        Some('\u{0306}')
    } else if c == 'v' {
        Some('\u{030C}')
    } else {
        None
    }
}

/// The decoding pass on a character vector.
fn scan_chars(cs: &Vec<char>) -> (out: Vec<char>)
    ensures
        out@ == scan(cs@),
{
    let mut out: Vec<char> = Vec::new();
    let mut i: usize = 0;
    proof {
        assert(cs@.skip(0) =~= cs@);
        assert(out@ + scan(cs@) =~= scan(cs@));
    }
    while i < cs.len()
        invariant
            i <= cs.len(),
            scan(cs@) == out@ + scan(cs@.skip(i as int)),
        decreases cs.len() - i,
    {
        let ghost t = cs@.skip(i as int);
        let c = cs[i];
        proof {
            assert(t[0] == c);
        }
        if c == '{' || c == '}' {
            proof {
                assert(t.skip(1) =~= cs@.skip(i as int + 1));
                assert(out@ + scan(t) =~= out@ + scan(cs@.skip(i as int + 1)));
            }
            i = i + 1;
        } else if c == '\\' {
            if i + 1 == cs.len() {
                proof {
                    assert(t.len() == 1);
                    assert(scan(t) =~= Seq::<char>::empty());
                    assert(cs@.skip(cs@.len() as int) =~= Seq::<char>::empty());
                    assert(out@ + scan(t) =~= out@ + scan(cs@.skip(cs@.len() as int)));
                }
                i = cs.len();
            } else {
                let d = cs[i + 1];
                proof {
                    assert(t[1] == d);
                    assert(t.len() >= 2);
                }
                if d == 'a' && i + 2 < cs.len() && cs[i + 2] == 'a' {
                    proof {
                        assert(t[2] == cs@[i as int + 2]);
                        assert(t.len() >= 3);
                        assert(t.skip(3) =~= cs@.skip(i as int + 3));
                        assert(scan(t) == seq!['\u{00E5}'] + scan(cs@.skip(i as int + 3)));
                    }
                    out.push('\u{00E5}');
                    proof {
                        assert(scan(cs@) =~= out@ + scan(cs@.skip(i as int + 3)));
                    }
                    i = i + 3;
                } else if d == 'l' {
                    proof {
                        assert(t.skip(2) =~= cs@.skip(i as int + 2));
                        assert(scan(t) == seq!['\u{0142}'] + scan(cs@.skip(i as int + 2)));
                    }
                    out.push('\u{0142}');
                    proof {
                        assert(scan(cs@) =~= out@ + scan(cs@.skip(i as int + 2)));
                    }
                    i = i + 2;
                } else if d == 'o' {
                    proof {
                        assert(t.skip(2) =~= cs@.skip(i as int + 2));
                        assert(scan(t) == seq!['\u{00F8}'] + scan(cs@.skip(i as int + 2)));
                    }
                    out.push('\u{00F8}');
                    proof {
                        assert(scan(cs@) =~= out@ + scan(cs@.skip(i as int + 2)));
                    }
                    i = i + 2;
                } else {
                    let m = mark_for(d);
                    proof {
                        assert(t.skip(2) =~= cs@.skip(i as int + 2));
                    }
                    match m {
                        Some(mark) => {
                            let mut j = i + 2;
                            while j < cs.len() && (cs[j] == '{' || cs[j] == '}' || cs[j]
                                == '\\')
                                invariant
                                    i + 2 <= j <= cs.len(),
                                    wrap_len(cs@.skip(i as int + 2)) == (j - i - 2) + wrap_len(
                                        cs@.skip(j as int),
                                    ),
                                decreases cs.len() - j,
                            {
                                proof {
                                    assert(cs@.skip(j as int)[0] == cs@[j as int]);
                                    assert(cs@.skip(j as int).skip(1) =~= cs@.skip(j as int + 1));
                                }
                                j = j + 1;
                            }
                            proof {
                                if j < cs.len() {
                                    assert(cs@.skip(j as int)[0] == cs@[j as int]);
                                    assert(!is_wrap(cs@.skip(j as int)[0]));
                                } else {
                                    assert(cs@.skip(j as int).len() == 0);
                                }
                                assert(wrap_len(cs@.skip(j as int)) == 0);
                                assert(wrap_len(cs@.skip(i as int + 2)) == j - i - 2);
                            }
                            if j < cs.len() && (('a' <= cs[j] && cs[j] <= 'z') || ('A' <= cs[j]
                                && cs[j] <= 'Z')) {
                                let base = cs[j];
                                proof {
                                    let t2 = cs@.skip(i as int + 2);
                                    assert(t2[j - i - 2] == cs@[j as int]);
                                    assert(t2.skip(j - i - 2 + 1) =~= cs@.skip(j as int + 1));
                                    assert(scan(t) == seq![base, mark] + scan(
                                        cs@.skip(j as int + 1),
                                    ));
                                }
                                out.push(base);
                                out.push(mark);
                                proof {
                                    assert(scan(cs@) =~= out@ + scan(cs@.skip(j as int + 1)));
                                }
                                i = j + 1;
                            } else {
                                proof {
                                    let t2 = cs@.skip(i as int + 2);
                                    if j < cs.len() {
                                        assert(t2[j - i - 2] == cs@[j as int]);
                                        assert(!is_ascii_letter(t2[wrap_len(t2) as int]));
                                    } else {
                                        assert(wrap_len(t2) == t2.len());
                                    }
                                    assert(scan(t) == seq![d] + scan(cs@.skip(i as int + 2)));
                                }
                                out.push(d);
                                proof {
                                    assert(scan(cs@) =~= out@ + scan(cs@.skip(i as int + 2)));
                                }
                                i = i + 2;
                            }
                        }
                        None => {
                            proof {
                                assert(scan(t) == seq![d] + scan(cs@.skip(i as int + 2)));
                            }
                            out.push(d);
                            proof {
                                assert(scan(cs@) =~= out@ + scan(cs@.skip(i as int + 2)));
                            }
                            i = i + 2;
                        }
                    }
                }
            }
        } else {
            proof {
                assert(t.skip(1) =~= cs@.skip(i as int + 1));
                assert(scan(t) == seq![c] + scan(cs@.skip(i as int + 1)));
            }
            out.push(c);
            proof {
                assert(scan(cs@) =~= out@ + scan(cs@.skip(i as int + 1)));
            }
            i = i + 1;
        }
    }
    proof {
        assert(cs@.skip(cs@.len() as int) =~= Seq::<char>::empty());
        assert(out@ =~= scan(cs@));
    }
    out
}

/// Decodes TeX-style accent notation and grouping braces, then composes the
/// result into Unicode NFC.
///
/// The result is always in NFC; on ASCII text with no backslash or brace
/// the decoder is the identity, and on any marker-free result the decoder
/// is idempotent.
pub fn decode_latex(latex: &str) -> (r: String)
    ensures
        r@ == decoded(latex@),
        nfc_of(r@) == r@,
        marker_free(latex@) && ascii_only(latex@) ==> r@ == latex@,
        marker_free(r@) ==> decoded(r@) == r@,
{
    let cs = to_char_vec(latex);
    let scanned = scan_chars(&cs);
    let s1 = chars_to_string(&scanned);
    let r = nfc_string(s1.as_str());
    proof {
        if marker_free(latex@) && ascii_only(latex@) {
            lemma_scan_marker_free(latex@);
        }
        if marker_free(r@) {
            lemma_scan_marker_free(r@);
        }
    }
    r
}

} // verus!
