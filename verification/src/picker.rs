//! Support for the interactive chooser: the chooser process is shown the
//! selection's titles and answers with line indices. Parsing those indices
//! and mapping them back to citation keys is verified logic; an index that
//! is not a number, or out of range, is a fatal error for the caller.

use vstd::prelude::*;
use crate::records::{Record, Store};
use crate::strutil::to_char_vec;

verus! {

pub open spec fn is_digit(c: char) -> bool {
    '0' <= c && c <= '9'
}

/// A non-empty run of decimal digits.
pub open spec fn all_digits(s: Seq<char>) -> bool {
    s.len() > 0 && forall|i: int| 0 <= i < s.len() ==> is_digit(s[i])
}

/// The number denoted by decimal digits.
pub open spec fn digits_val(s: Seq<char>) -> int
    decreases s.len(),
{
    if s.len() == 0 {
        0
    } else {
        digits_val(s.drop_last()) * 10 + (s.last() as int - '0' as int)
    }
}

proof fn lemma_digits_nonneg(s: Seq<char>)
    requires
        forall|i: int| 0 <= i < s.len() ==> is_digit(s[i]),
    ensures
        digits_val(s) >= 0,
    decreases s.len(),
{
    if s.len() > 0 {
        lemma_digits_nonneg(s.drop_last());
    }
}

proof fn lemma_digits_prefix_le(s: Seq<char>, k: int)
    requires
        forall|i: int| 0 <= i < s.len() ==> is_digit(s[i]),
        0 <= k <= s.len(),
    ensures
        digits_val(s.take(k)) <= digits_val(s),
    decreases s.len() - k,
{
    if k == s.len() {
        assert(s.take(k) =~= s);
    } else {
        assert(s.take(k + 1).drop_last() =~= s.take(k));
        assert(forall|i: int| 0 <= i < s.take(k).len() ==> is_digit(s.take(k)[i]));
        lemma_digits_nonneg(s.take(k));
        assert(digits_val(s.take(k + 1)) >= digits_val(s.take(k)));
        lemma_digits_prefix_le(s, k + 1);
    }
}

/// Parses a decimal index as the chooser hands it back: `Some` exactly on a
/// non-empty digit run whose value fits.
pub fn parse_index(s: &str) -> (r: Option<usize>)
    ensures
        match r {
            Some(n) => all_digits(s@) && n as int == digits_val(s@),
            None => !all_digits(s@) || digits_val(s@) > usize::MAX as int,
        },
{
    let cs = to_char_vec(s);
    if cs.len() == 0 {
        return None;
    }
    let mut n: usize = 0;
    let mut i: usize = 0;
    proof {
        assert(cs@.take(0) =~= Seq::<char>::empty());
    }
    while i < cs.len()
        invariant
            i <= cs@.len(),
            cs@ == s@,
            cs@.len() > 0,
            forall|j: int| 0 <= j < i ==> is_digit(cs@[j]),
            n as int == digits_val(cs@.take(i as int)),
        decreases cs@.len() - i,
    {
        let c = cs[i];
        if !('0' <= c && c <= '9') {
            return None;
        }
        let d = (c as u32 - '0' as u32) as usize;
        proof {
            assert(cs@.take(i as int + 1).drop_last() =~= cs@.take(i as int));
            assert(cs@.take(i as int + 1).last() == cs@[i as int]);
        }
        let m = match n.checked_mul(10) {
            Some(m) => m,
            None => {
                proof {
                    if all_digits(cs@) {
                        lemma_digits_prefix_le(cs@, i as int + 1);
                    }
                }
                return None;
            },
        };
        n = match m.checked_add(d) {
            Some(v) => v,
            None => {
                proof {
                    if all_digits(cs@) {
                        lemma_digits_prefix_le(cs@, i as int + 1);
                    }
                }
                return None;
            },
        };
        i = i + 1;
    }
    proof {
        assert(cs@.take(cs@.len() as int) =~= cs@);
    }
    Some(n)
}

/// The citation keys of a selection, in display (entry) order: the order
/// in which the chooser is shown the titles.
pub open spec fn key_seq(s: Seq<(String, Record)>) -> Seq<Seq<char>> {
    Seq::new(s.len(), |i: int| s[i].0@)
}

pub fn selection_keys(sel: &Store) -> (r: Vec<String>)
    ensures
        r.deep_view() == key_seq(sel.pairs@),
{
    let mut out: Vec<String> = Vec::new();
    let mut i: usize = 0;
    while i < sel.pairs.len()
        invariant
            i <= sel.pairs@.len(),
            out@.len() == i,
            forall|j: int| 0 <= j < i ==> (#[trigger] out@[j])@ == sel.pairs@[j].0@,
        decreases sel.pairs@.len() - i,
    {
        out.push(sel.pairs[i].0.clone());
        i = i + 1;
    }
    proof {
        assert(out.deep_view() =~~= key_seq(sel.pairs@));
    }
    out
}

/// The keys picked by a list of chooser indices, in answer order.
pub open spec fn picked_keys(keys: Seq<Seq<char>>, idx: Seq<usize>) -> Seq<Seq<char>> {
    Seq::new(idx.len(), |j: int| keys[idx[j] as int])
}

/// Maps chooser indices back to citation keys; `None` exactly when some
/// index is out of range.
pub fn keys_at_indices(keys: &Vec<String>, indices: &Vec<usize>) -> (r: Option<Vec<String>>)
    ensures
        match r {
            Some(v) => (forall|j: int| 0 <= j < indices@.len() ==> (#[trigger] indices@[j])
                < keys@.len()) && v.deep_view() == picked_keys(keys.deep_view(), indices@),
            None => exists|j: int|
                0 <= j < indices@.len() && (#[trigger] indices@[j]) >= keys@.len(),
        },
{
    let mut out: Vec<String> = Vec::new();
    let mut j: usize = 0;
    while j < indices.len()
        invariant
            j <= indices@.len(),
            out@.len() == j,
            forall|k: int| 0 <= k < j ==> (#[trigger] indices@[k]) < keys@.len(),
            forall|k: int|
                0 <= k < j ==> (#[trigger] out@[k])@ == keys.deep_view()[indices@[k] as int],
        decreases indices@.len() - j,
    {
        let ix = indices[j];
        if ix >= keys.len() {
            return None;
        }
        out.push(keys[ix].clone());
        j = j + 1;
    }
    proof {
        assert(out.deep_view() =~~= picked_keys(keys.deep_view(), indices@));
    }
    Some(out)
}

} // verus!
