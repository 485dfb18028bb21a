//! The filter engine: decides whether a record's field value satisfies a
//! query value, either by literal substring containment or — for the fields
//! with normalized matching — case- and accent-insensitively.

use vstd::prelude::*;
use crate::strutil::{to_char_vec, str_eq};
use crate::string_cleaner::{cleaned, transliterate_of, clean_and_decode};
use crate::value::{Value, ValueV};

verus! {

pub open spec fn substring_at(n: Seq<char>, h: Seq<char>, i: int) -> bool {
    0 <= i && i + n.len() <= h.len() && h.subrange(i, i + n.len()) == n
}

/// `n` occurs in `h` as a contiguous run of characters.
pub open spec fn is_substring(n: Seq<char>, h: Seq<char>) -> bool {
    exists|i: int| substring_at(n, h, i)
}

fn match_at(h: &Vec<char>, n: &Vec<char>, i: usize) -> (r: bool)
    requires
        i + n@.len() <= h@.len(),
    ensures
        r == substring_at(n@, h@, i as int),
{
    let hlen = h.len();
    let nlen = n.len();
    let mut j: usize = 0;
    while j < nlen
        invariant
            j <= nlen,
            nlen == n@.len(),
            hlen == h@.len(),
            i + n@.len() <= h@.len(),
            forall|k: int| 0 <= k < j ==> h@[i + k] == n@[k],
        decreases nlen - j,
    {
        if h[i + j] != n[j] {
            proof {
                assert(!substring_at(n@, h@, i as int)) by {
                    if substring_at(n@, h@, i as int) {
                        assert(h@.subrange(i as int, i + n@.len())[j as int] == n@[j as int]);
                    }
                }
            }
            return false;
        }
        j = j + 1;
    }
    proof {
        assert(h@.subrange(i as int, i + n@.len()) =~= n@);
    }
    true
}

fn contains_chars(h: &Vec<char>, n: &Vec<char>) -> (r: bool)
    ensures
        r == is_substring(n@, h@),
{
    if n.len() > h.len() {
        proof {
            assert(forall|i: int| !substring_at(n@, h@, i));
        }
        return false;
    }
    let d = h.len() - n.len();
    let mut i: usize = 0;
    loop
        invariant
            n@.len() <= h@.len(),
            d == h@.len() - n@.len(),
            i <= d,
            forall|k: int| 0 <= k < i ==> !substring_at(n@, h@, k),
        ensures
            forall|k: int| 0 <= k <= d ==> !substring_at(n@, h@, k),
        decreases d - i,
    {
        if match_at(h, n, i) {
            return true;
        }
        if i == d {
            break ;
        }
        i = i + 1;
    }
    proof {
        assert(forall|k: int| !substring_at(n@, h@, k));
    }
    false
}

/// Literal substring containment of `n` in `h`.
pub fn contains_str(h: &str, n: &str) -> (r: bool)
    ensures
        r == is_substring(n@, h@),
{
    let hv = to_char_vec(h);
    let nv = to_char_vec(n);
    contains_chars(&hv, &nv)
}

/// Unicode lowercasing of a character sequence; the result depends on the
/// characters alone.
pub uninterp spec fn lower_of(s: Seq<char>) -> Seq<char>;

/// Relies on str::to_lowercase from std: the Unicode lowercase form of the
/// text, a pure function of the characters.
#[verifier::external_body]
fn lowercase(s: &str) -> (r: String)
    ensures
        r@ == lower_of(s@),
{
    s.to_lowercase()
}

/// The comparison form used by normalized matching: accents decoded and
/// stripped, whitespace collapsed, everything lowercased.
pub open spec fn canon(s: Seq<char>) -> Seq<char> {
    lower_of(transliterate_of(cleaned(s)))
}

/// The scalar matching rule: raw substring containment of the query in the
/// field text, or containment of the canonical forms when `clean` is set.
pub open spec fn match_string_spec(needle: Seq<char>, haystack: Seq<char>, clean: bool) -> bool {
    if clean {
        is_substring(canon(needle), canon(haystack))
    } else {
        is_substring(needle, haystack)
    }
}

/// Decides the scalar matching rule for one query/text pair.
pub fn match_string(needle: &str, haystack: &str, clean: bool) -> (r: bool)
    ensures
        r == match_string_spec(needle@, haystack@, clean),
{
    if clean {
        let ch = clean_and_decode(haystack);
        let cn = clean_and_decode(needle);
        let lh = lowercase(ch.as_str());
        let ln = lowercase(cn.as_str());
        contains_str(lh.as_str(), ln.as_str())
    } else {
        contains_str(haystack, needle)
    }
}

pub open spec fn opt_value_view(v: Option<&Value>) -> Option<ValueV> {
    match v {
        Some(x) => Some(x@),
        None => None,
    }
}

/// Some element of `l` satisfies the scalar rule.
pub open spec fn any_elem_matches(q: Seq<char>, l: Seq<Seq<char>>, clean: bool) -> bool {
    exists|i: int| 0 <= i < l.len() && #[trigger] match_string_spec(q, l[i], clean)
}

/// The full matching rule over a field value: scalar text is matched by the
/// scalar rule, a sequence matches when any element does, and every other
/// shape (missing field, nested record, non-text scalar) never matches.
pub open spec fn matches_value(q: Seq<char>, v: Option<ValueV>, clean: bool) -> bool {
    match v {
        Some(vv) => match vv {
            ValueV::Text(t) => match_string_spec(q, t, clean),
            ValueV::List(l) => any_elem_matches(q, l, clean),
            ValueV::Other(o) => false,
        },
        None => false,
    }
}

/// Decides whether a field value satisfies the query value.
pub fn match_values(value: &str, field_value: Option<&Value>, clean: bool) -> (r: bool)
    ensures
        r == matches_value(value@, opt_value_view(field_value), clean),
{
    match field_value {
        Some(Value::Text(t)) => match_string(value, t.as_str(), clean),
        Some(Value::List(l)) => {
            proof {
                assert(opt_value_view(field_value) == Some(ValueV::List(l.deep_view())));
            }
            let mut i: usize = 0;
            while i < l.len()
                invariant
                    i <= l@.len(),
                    opt_value_view(field_value) == Some(ValueV::List(l.deep_view())),
                    forall|k: int|
                        0 <= k < i ==> !match_string_spec(value@, #[trigger] l.deep_view()[k], clean),
                decreases l.len() - i,
            {
                if match_string(value, l[i].as_str(), clean) {
                    proof {
                        assert(l.deep_view()[i as int] == l@[i as int]@);
                        assert(match_string_spec(value@, l.deep_view()[i as int], clean));
                        assert(any_elem_matches(value@, l.deep_view(), clean));
                    }
                    return true;
                }
                i = i + 1;
            }
            false
        },
        _ => false,
    }
}

/// The fields whose queries go through normalized (case- and
/// accent-insensitive) matching: `title` and `author`.
pub open spec fn normalized_field(f: Seq<char>) -> bool {
    f == "title"@ || f == "author"@
}

pub fn normalize_for(field: &str) -> (r: bool)
    ensures
        r == normalized_field(field@),
{
    str_eq(field, "title") || str_eq(field, "author")
}

} // verus!
