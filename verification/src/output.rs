//! What the terminal emit commands hand to the outside world: the cleaned
//! field values of the `list` command, the display titles the interactive
//! chooser is shown, and the `file` paths the opener is invoked on.

use vstd::prelude::*;
use crate::records::{Record, Store, store_wf};
use crate::string_cleaner::{cleaned, clean_string};
use crate::table::pairs_map;
use crate::value::Value;

verus! {

/// The scalar text of one field per entry, in entry order; `None` as soon
/// as an entry lacks the field as scalar text.
pub open spec fn field_texts(s: Seq<(String, Record)>, field: Seq<char>) -> Option<Seq<Seq<char>>>
    decreases s.len(),
{
    if s.len() == 0 {
        Some(Seq::empty())
    } else {
        match field_texts(s.drop_last(), field) {
            None => None,
            Some(rest) => {
                let rec = pairs_map(s.last().1.pairs@);
                if rec.dom().contains(field) && rec[field] is Text {
                    Some(rest.push(rec[field]->Text_0))
                } else {
                    None
                }
            },
        }
    }
}

/// What `list <field>` prints: the cleaned display form of each text.
pub open spec fn list_texts(s: Seq<(String, Record)>, field: Seq<char>) -> Option<Seq<Seq<char>>>
    decreases s.len(),
{
    if s.len() == 0 {
        Some(Seq::empty())
    } else {
        match list_texts(s.drop_last(), field) {
            None => None,
            Some(rest) => {
                let rec = pairs_map(s.last().1.pairs@);
                if rec.dom().contains(field) && rec[field] is Text {
                    Some(rest.push(cleaned(rec[field]->Text_0)))
                } else {
                    None
                }
            },
        }
    }
}

proof fn lemma_list_texts_none(s: Seq<(String, Record)>, field: Seq<char>, i: int)
    requires
        0 <= i <= s.len(),
        list_texts(s.take(i), field) is None,
    ensures
        list_texts(s, field) is None,
    decreases s.len() - i,
{
    if i == s.len() {
        assert(s.take(i) =~= s);
    } else {
        assert(s.take(i + 1).drop_last() =~= s.take(i));
        lemma_list_texts_none(s, field, i + 1);
    }
}

/// The display title of each entry: its `title` text, or `null` where the
/// title is missing or not scalar text.
pub open spec fn titles_of(s: Seq<(String, Record)>) -> Seq<Seq<char>>
    decreases s.len(),
{
    if s.len() == 0 {
        Seq::empty()
    } else {
        let rec = pairs_map(s.last().1.pairs@);
        titles_of(s.drop_last()).push(
            if rec.dom().contains("title"@) && rec["title"@] is Text {
                rec["title"@]->Text_0
            } else {
                "null"@
            },
        )
    }
}

proof fn lemma_field_texts_none(s: Seq<(String, Record)>, field: Seq<char>, i: int)
    requires
        0 <= i <= s.len(),
        field_texts(s.take(i), field) is None,
    ensures
        field_texts(s, field) is None,
    decreases s.len() - i,
{
    if i == s.len() {
        assert(s.take(i) =~= s);
    } else {
        assert(s.take(i + 1).drop_last() =~= s.take(i));
        lemma_field_texts_none(s, field, i + 1);
    }
}

/// The cleaned field values that `list <field>` prints, one per selection
/// entry in order, or `None` when some entry lacks the field as text.
pub fn list_lines(selection: &Store, field: &str) -> (r: Option<Vec<String>>)
    requires
        store_wf(*selection),
    ensures
        match r {
            Some(v) => list_texts(selection.pairs@, field@) == Some(v.deep_view()),
            None => list_texts(selection.pairs@, field@) is None,
        },
{
    let ghost sel0 = selection.pairs@;
    let mut out: Vec<String> = Vec::new();
    let mut i: usize = 0;
    proof {
        assert(sel0.take(0) =~= Seq::<(String, Record)>::empty());
        assert(out.deep_view() =~~= Seq::<Seq<char>>::empty());
    }
    while i < selection.pairs.len()
        invariant
            i <= sel0.len(),
            sel0 == selection.pairs@,
            store_wf(*selection),
            list_texts(sel0.take(i as int), field@) == Some(out.deep_view()),
        decreases sel0.len() - i,
    {
        proof {
            assert(sel0.take(i as int + 1).drop_last() =~= sel0.take(i as int));
            assert(sel0.take(i as int + 1).last() == sel0[i as int]);
        }
        let rec = &selection.pairs[i].1;
        match rec.get(field) {
            Some(Value::Text(t)) => {
                let line = clean_string(t.as_str());
                out.push(line);
                proof {
                    assert(list_texts(sel0.take(i as int + 1), field@) is Some);
                    assert(list_texts(sel0.take(i as int + 1), field@)->Some_0 =~~= out.deep_view());
                }
            },
            _ => {
                proof {
                    lemma_list_texts_none(sel0, field@, i as int + 1);
                }
                return None;
            },
        }
        i = i + 1;
    }
    proof {
        assert(sel0.take(sel0.len() as int) =~= sel0);
    }
    Some(out)
}

/// The raw `file` path of each selection entry, for the opener, or `None`
/// when some entry has no `file` text.
pub fn file_list(selection: &Store) -> (r: Option<Vec<String>>)
    requires
        store_wf(*selection),
    ensures
        match r {
            Some(v) => field_texts(selection.pairs@, "file"@) == Some(v.deep_view()),
            None => field_texts(selection.pairs@, "file"@) is None,
        },
{
    let ghost sel0 = selection.pairs@;
    let mut out: Vec<String> = Vec::new();
    let mut i: usize = 0;
    proof {
        assert(sel0.take(0) =~= Seq::<(String, Record)>::empty());
        assert(out.deep_view() =~~= Seq::<Seq<char>>::empty());
    }
    while i < selection.pairs.len()
        invariant
            i <= sel0.len(),
            sel0 == selection.pairs@,
            store_wf(*selection),
            field_texts(sel0.take(i as int), "file"@) == Some(out.deep_view()),
        decreases sel0.len() - i,
    {
        proof {
            assert(sel0.take(i as int + 1).drop_last() =~= sel0.take(i as int));
            assert(sel0.take(i as int + 1).last() == sel0[i as int]);
        }
        let rec = &selection.pairs[i].1;
        match rec.get("file") {
            Some(Value::Text(t)) => {
                out.push(t.clone());
                proof {
                    assert(field_texts(sel0.take(i as int + 1), "file"@) is Some);
                    assert(field_texts(sel0.take(i as int + 1), "file"@)->Some_0 =~~= out.deep_view());
                }
            },
            _ => {
                proof {
                    lemma_field_texts_none(sel0, "file"@, i as int + 1);
                }
                return None;
            },
        }
        i = i + 1;
    }
    proof {
        assert(sel0.take(sel0.len() as int) =~= sel0);
    }
    Some(out)
}

/// The display titles handed to the interactive chooser, one per selection
/// entry in order.
pub fn display_titles(selection: &Store) -> (r: Vec<String>)
    requires
        store_wf(*selection),
    ensures
        r.deep_view() == titles_of(selection.pairs@),
{
    let ghost sel0 = selection.pairs@;
    let mut out: Vec<String> = Vec::new();
    let mut i: usize = 0;
    proof {
        assert(sel0.take(0) =~= Seq::<(String, Record)>::empty());
        assert(out.deep_view() =~~= titles_of(sel0.take(0)));
    }
    while i < selection.pairs.len()
        invariant
            i <= sel0.len(),
            sel0 == selection.pairs@,
            store_wf(*selection),
            out.deep_view() == titles_of(sel0.take(i as int)),
        decreases sel0.len() - i,
    {
        proof {
            assert(sel0.take(i as int + 1).drop_last() =~= sel0.take(i as int));
            assert(sel0.take(i as int + 1).last() == sel0[i as int]);
        }
        let rec = &selection.pairs[i].1;
        match rec.get("title") {
            Some(Value::Text(t)) => {
                out.push(t.clone());
            },
            _ => {
                out.push(String::from_str("null"));
            },
        }
        proof {
            assert(out.deep_view() =~~= titles_of(sel0.take(i as int + 1)));
        }
        i = i + 1;
    }
    proof {
        assert(sel0.take(sel0.len() as int) =~= sel0);
    }
    out
}

} // verus!
