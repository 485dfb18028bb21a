//! Citation-format import and export. Raw parsing is the outside
//! collaborator's work: its entry list is consumed as plain values, named by
//! [`bib_raw_of`]. Everything after the raw parse — string-variable
//! expansion, month abbreviations, tag assembly, selection building — is
//! verified logic, as is rendering a selection back out.

use vstd::prelude::*;
use crate::records::{Record, Store, RecordV, StoreV, store_wf};
use crate::strutil::{str_eq, to_char_vec, chars_to_string};
use crate::table::{Table, pairs_map};
use crate::value::{Value, ValueV};
use vstd::string::StrSliceExecFns;
use nom_bibtex::{Bibtex, Entry};
use nom_bibtex::model::{KeyValue, StringValueType};

verus! {

/// One piece of a tag or variable value: a literal string, or an
/// abbreviation to be expanded.
pub enum BibChunk {
    Str(String),
    Abbr(String),
}

pub enum BibChunkV {
    Str(Seq<char>),
    Abbr(Seq<char>),
}

impl View for BibChunk {
    type V = BibChunkV;

    open spec fn view(&self) -> BibChunkV {
        match self {
            BibChunk::Str(t) => BibChunkV::Str(t@),
            BibChunk::Abbr(a) => BibChunkV::Abbr(a@),
        }
    }
}

impl DeepView for BibChunk {
    type V = BibChunkV;

    open spec fn deep_view(&self) -> BibChunkV {
        self.view()
    }
}

/// One `name = value` pair as the raw parse hands it out.
pub struct BibTag {
    pub name: String,
    pub parts: Vec<BibChunk>,
}

impl View for BibTag {
    type V = (Seq<char>, Seq<BibChunkV>);

    open spec fn view(&self) -> (Seq<char>, Seq<BibChunkV>) {
        (self.name@, self.parts.deep_view())
    }
}

impl DeepView for BibTag {
    type V = (Seq<char>, Seq<BibChunkV>);

    open spec fn deep_view(&self) -> (Seq<char>, Seq<BibChunkV>) {
        self.view()
    }
}

/// One raw entry of a citation file, in file order.
pub enum RawEntry {
    Preamble(Vec<BibChunk>),
    Comment(String),
    Variable(BibTag),
    Bibliography(String, String, Vec<BibTag>),
}

pub enum RawEntryV {
    Preamble(Seq<BibChunkV>),
    Comment(Seq<char>),
    Variable(Seq<char>, Seq<BibChunkV>),
    Bibliography(Seq<char>, Seq<char>, Seq<(Seq<char>, Seq<BibChunkV>)>),
}

impl View for RawEntry {
    type V = RawEntryV;

    open spec fn view(&self) -> RawEntryV {
        match self {
            RawEntry::Preamble(v) => RawEntryV::Preamble(v.deep_view()),
            RawEntry::Comment(c) => RawEntryV::Comment(c@),
            RawEntry::Variable(t) => RawEntryV::Variable(t.name@, t.parts.deep_view()),
            RawEntry::Bibliography(t, k, tags) => RawEntryV::Bibliography(t@, k@, tags.deep_view()),
        }
    }
}

impl DeepView for RawEntry {
    type V = RawEntryV;

    open spec fn deep_view(&self) -> RawEntryV {
        self.view()
    }
}

/// Texts on which the raw parse cannot run its value scanners off the end
/// of the input: the last character, if any, is ASCII and opens no
/// bracketed or quoted value. A text whose very last character starts an
/// unterminated `{` or `"` value — or whose unterminated value ends in a
/// multi-byte character — would make the outside scanner slice out of
/// bounds, so such texts are rejected before the call.
pub open spec fn tail_safe(s: Seq<char>) -> bool {
    s.len() == 0 || ((s.last() as u32) < 128 && s.last() != '{' && s.last() != '"')
}

fn tail_safe_check(s: &str) -> (r: bool)
    ensures
        r == tail_safe(s@),
{
    let n = s.unicode_len();
    if n == 0 {
        return true;
    }
    let c = s.get_char(n - 1);
    (c as u32) < 128 && c != '{' && c != '"'
}

/// What the raw citation parser returns on a given text: `None` when the
/// text is rejected, else the entries in input order with their literal and
/// abbreviation parts. The result depends on the text alone.
pub uninterp spec fn bib_raw_of(s: Seq<char>) -> Option<Seq<RawEntryV>>;

/// Relies on nom_bibtex's `Bibtex::raw_parse`: the file's entries in input
/// order, each variable and tag value as its list of literal and
/// abbreviation parts. The `requires` keeps out the texts on which the
/// parser's value scanners index past the end of the input; within it the
/// call returns plainly, `Err` on a rejected text.
#[verifier::external_body]
fn parse_bib_raw(s: &str) -> (r: Option<Vec<RawEntry>>)
    requires
        tail_safe(s@),
    ensures
        match r {
            Some(v) => bib_raw_of(s@) == Some(v.deep_view()),
            None => bib_raw_of(s@) is None,
        },
{
    let chunk = |v| Vec::into_iter(v).map(|c| match c {
        StringValueType::Str(t) => BibChunk::Str(t),
        StringValueType::Abbreviation(a) => BibChunk::Abbr(a),
    }).collect();
    let tag = |t: KeyValue| BibTag { name: t.key, parts: chunk(t.value) };
    Some(Bibtex::raw_parse(s).ok()?.into_iter().map(|e| match e {
        Entry::Preamble(v) => RawEntry::Preamble(chunk(v)),
        Entry::Comment(c) => RawEntry::Comment(c),
        Entry::Variable(t) => RawEntry::Variable(tag(t)),
        Entry::Bibliography(t, k, v) => RawEntry::Bibliography(t, k, v.into_iter().map(tag).collect()),
    }).collect())
}

/// The string variables of an entry list, in entry order.
pub open spec fn raw_vars(es: Seq<RawEntryV>) -> Seq<(Seq<char>, Seq<BibChunkV>)>
    decreases es.len(),
{
    if es.len() == 0 {
        Seq::empty()
    } else {
        raw_vars(es.drop_last()) + (match es.last() {
            RawEntryV::Variable(n, ps) => seq![(n, ps)],
            _ => Seq::empty(),
        })
    }
}

/// The bibliography entries of an entry list, in entry order: entry type,
/// citation key, tags.
pub open spec fn raw_bibs(es: Seq<RawEntryV>) -> Seq<
    (Seq<char>, Seq<char>, Seq<(Seq<char>, Seq<BibChunkV>)>),
>
    decreases es.len(),
{
    if es.len() == 0 {
        Seq::empty()
    } else {
        raw_bibs(es.drop_last()) + (match es.last() {
            RawEntryV::Bibliography(t, k, tags) => seq![(t, k, tags)],
            _ => Seq::empty(),
        })
    }
}

/// The first variable of that name, as the original expansion looks it up.
pub open spec fn find_var(
    vars: Seq<(Seq<char>, Seq<BibChunkV>)>,
    name: Seq<char>,
) -> Option<Seq<BibChunkV>>
    decreases vars.len(),
{
    if vars.len() == 0 {
        None
    } else if vars[0].0 == name {
        Some(vars[0].1)
    } else {
        find_var(vars.skip(1), name)
    }
}

proof fn lemma_find_var_skip(vars: Seq<(Seq<char>, Seq<BibChunkV>)>, name: Seq<char>, i: int)
    requires
        0 <= i <= vars.len(),
        forall|j: int| 0 <= j < i ==> (#[trigger] vars[j]).0 != name,
    ensures
        find_var(vars, name) == find_var(vars.skip(i), name),
    decreases i,
{
    if i > 0 {
        assert(vars[0].0 != name);
        let v1 = vars.skip(1);
        assert forall|j: int| 0 <= j < i - 1 implies (#[trigger] v1[j]).0 != name by {
            assert(v1[j] == vars[j + 1]);
        }
        lemma_find_var_skip(v1, name, i - 1);
        assert(v1.skip(i - 1) =~= vars.skip(i));
    } else {
        assert(vars.skip(0) =~= vars);
    }
}

/// Variable expansion against the whole variable list, with enough fuel
/// for any reference chain that never revisits a variable: a deeper chain
/// repeats a variable on the stack, which the outside expansion would
/// chase forever, and which fails here.
pub open spec fn expand_chunks(
    chunks: Seq<BibChunkV>,
    vars: Seq<(Seq<char>, Seq<BibChunkV>)>,
    fuel: nat,
) -> Option<Seq<char>>
    decreases fuel, chunks.len(),
{
    if chunks.len() == 0 {
        Some(Seq::empty())
    } else {
        match expand_chunks(chunks.drop_last(), vars, fuel) {
            None => None,
            Some(prefix) => match chunks.last() {
                BibChunkV::Str(t) => Some(prefix + t),
                BibChunkV::Abbr(a) => match find_var(vars, a) {
                    None => None,
                    Some(parts) => if fuel == 0 {
                        None
                    } else {
                        match expand_chunks(parts, vars, (fuel - 1) as nat) {
                            None => None,
                            Some(v) => Some(prefix + v),
                        }
                    },
                },
            },
        }
    }
}

proof fn lemma_expand_chunks_none(
    chunks: Seq<BibChunkV>,
    vars: Seq<(Seq<char>, Seq<BibChunkV>)>,
    fuel: nat,
    i: int,
)
    requires
        0 <= i <= chunks.len(),
        expand_chunks(chunks.take(i), vars, fuel) is None,
    ensures
        expand_chunks(chunks, vars, fuel) is None,
    decreases chunks.len() - i,
{
    if i == chunks.len() {
        assert(chunks.take(i) =~= chunks);
    } else {
        assert(chunks.take(i + 1).drop_last() =~= chunks.take(i));
        lemma_expand_chunks_none(chunks, vars, fuel, i + 1);
    }
}

fn find_var_exec(vars: &Vec<BibTag>, name: &str) -> (r: Option<usize>)
    ensures
        match r {
            Some(i) => i < vars@.len() && find_var(vars.deep_view(), name@) == Some(
                vars.deep_view()[i as int].1,
            ),
            None => find_var(vars.deep_view(), name@) is None,
        },
{
    let mut i: usize = 0;
    while i < vars.len()
        invariant
            i <= vars@.len(),
            forall|j: int| 0 <= j < i ==> (#[trigger] vars.deep_view()[j]).0 != name@,
        decreases vars@.len() - i,
    {
        if str_eq(vars[i].name.as_str(), name) {
            proof {
                lemma_find_var_skip(vars.deep_view(), name@, i as int);
                assert(vars.deep_view().skip(i as int)[0] == vars.deep_view()[i as int]);
            }
            return Some(i);
        }
        proof {
            assert(vars.deep_view()[i as int] == vars@[i as int].deep_view());
        }
        i = i + 1;
    }
    proof {
        lemma_find_var_skip(vars.deep_view(), name@, vars.deep_view().len() as int);
        assert(vars.deep_view().skip(vars.deep_view().len() as int) =~= Seq::<
            (Seq<char>, Seq<BibChunkV>),
        >::empty());
    }
    None
}

fn expand_chunks_exec(chunks: &Vec<BibChunk>, vars: &Vec<BibTag>, fuel: usize) -> (r: Option<
    String,
>)
    ensures
        match r {
            Some(out) => expand_chunks(chunks.deep_view(), vars.deep_view(), fuel as nat) == Some(
                out@,
            ),
            None => expand_chunks(chunks.deep_view(), vars.deep_view(), fuel as nat) is None,
        },
    decreases fuel, chunks@.len(),
{
    let mut out = String::new();
    let mut i: usize = 0;
    proof {
        assert(chunks.deep_view().take(0) =~= Seq::<BibChunkV>::empty());
    }
    while i < chunks.len()
        invariant
            i <= chunks@.len(),
            expand_chunks(chunks.deep_view().take(i as int), vars.deep_view(), fuel as nat)
                == Some(out@),
        decreases chunks@.len() - i,
    {
        proof {
            assert(chunks.deep_view().take(i as int + 1).drop_last() =~= chunks.deep_view().take(
                i as int,
            ));
            assert(chunks.deep_view().take(i as int + 1).last() == chunks.deep_view()[i as int]);
            assert(chunks.deep_view()[i as int] == chunks@[i as int].deep_view());
        }
        match &chunks[i] {
            BibChunk::Str(t) => {
                out.append(t.as_str());
                proof {
                    assert(expand_chunks(
                        chunks.deep_view().take(i as int + 1),
                        vars.deep_view(),
                        fuel as nat,
                    ) == Some(out@));
                }
            },
            BibChunk::Abbr(a) => {
                match find_var_exec(vars, a.as_str()) {
                    None => {
                        proof {
                            lemma_expand_chunks_none(
                                chunks.deep_view(),
                                vars.deep_view(),
                                fuel as nat,
                                i as int + 1,
                            );
                        }
                        return None;
                    },
                    Some(vi) => {
                        if fuel == 0 {
                            proof {
                                lemma_expand_chunks_none(
                                    chunks.deep_view(),
                                    vars.deep_view(),
                                    fuel as nat,
                                    i as int + 1,
                                );
                            }
                            return None;
                        }
                        proof {
                            assert(vars.deep_view()[vi as int] == vars@[vi as int].deep_view());
                        }
                        match expand_chunks_exec(&vars[vi].parts, vars, fuel - 1) {
                            None => {
                                proof {
                                    lemma_expand_chunks_none(
                                        chunks.deep_view(),
                                        vars.deep_view(),
                                        fuel as nat,
                                        i as int + 1,
                                    );
                                }
                                return None;
                            },
                            Some(v) => {
                                out.append(v.as_str());
                                proof {
                                    assert(expand_chunks(
                                        chunks.deep_view().take(i as int + 1),
                                        vars.deep_view(),
                                        fuel as nat,
                                    ) == Some(out@));
                                }
                            },
                        }
                    },
                }
            },
        }
        i = i + 1;
    }
    proof {
        assert(chunks.deep_view().take(chunks.deep_view().len() as int) =~= chunks.deep_view());
    }
    Some(out)
}

/// The expanded variable map: each variable expanded against the whole
/// list, in order, a later variable winning on a repeated name; a variable
/// whose expansion fails — an unknown abbreviation, or a reference cycle
/// the outside expansion would chase forever — is dropped, as the outside
/// expansion drops a variable on error.
pub open spec fn var_map_upto(vars: Seq<(Seq<char>, Seq<BibChunkV>)>, n: int) -> Map<
    Seq<char>,
    Seq<char>,
>
    decreases n,
{
    if n <= 0 {
        Map::empty()
    } else {
        let m = var_map_upto(vars, n - 1);
        match expand_chunks(vars[n - 1].1, vars, vars.len()) {
            Some(v) => m.insert(vars[n - 1].0, v),
            None => m,
        }
    }
}

pub open spec fn var_map(vars: Seq<(Seq<char>, Seq<BibChunkV>)>) -> Map<Seq<char>, Seq<char>> {
    var_map_upto(vars, vars.len() as int)
}

fn build_var_table(vars: &Vec<BibTag>) -> (vt: Table<String>)
    ensures
        vt.wf(),
        vt@ == var_map(vars.deep_view()),
{
    let mut vt: Table<String> = Table::new();
    let fuel = vars.len();
    let mut i: usize = 0;
    while i < vars.len()
        invariant
            i <= vars@.len(),
            fuel == vars@.len(),
            vt.wf(),
            vt@ == var_map_upto(vars.deep_view(), i as int),
        decreases vars@.len() - i,
    {
        proof {
            assert(vars.deep_view()[i as int] == vars@[i as int].deep_view());
        }
        match expand_chunks_exec(&vars[i].parts, vars, fuel) {
            Some(v) => {
                vt.set(vars[i].name.clone(), v);
            },
            None => {},
        }
        i = i + 1;
    }
    vt
}

/// The fixed month abbreviations the outside expansion knows.
pub open spec fn month_of(name: Seq<char>) -> Option<Seq<char>> {
    if name == "jan"@ {
        Some("January"@)
    } else if name == "feb"@ {
        Some("February"@)
    } else if name == "mar"@ {
        Some("March"@)
    } else if name == "apr"@ {
        Some("April"@)
    } else if name == "may"@ {
        Some("May"@)
    } else if name == "jun"@ {
        Some("June"@)
    } else if name == "jul"@ {
        Some("July"@)
    } else if name == "aug"@ {
        Some("August"@)
    } else if name == "sep"@ {
        Some("September"@)
    } else if name == "oct"@ {
        Some("October"@)
    } else if name == "nov"@ {
        Some("November"@)
    } else if name == "dec"@ {
        Some("December"@)
    } else {
        None
    }
}

fn month_lookup(name: &str) -> (r: Option<String>)
    ensures
        match r {
            Some(m) => month_of(name@) == Some(m@),
            None => month_of(name@) is None,
        },
{
    if str_eq(name, "jan") {
        Some(String::from_str("January"))
    } else if str_eq(name, "feb") {
        Some(String::from_str("February"))
    } else if str_eq(name, "mar") {
        Some(String::from_str("March"))
    } else if str_eq(name, "apr") {
        Some(String::from_str("April"))
    } else if str_eq(name, "may") {
        Some(String::from_str("May"))
    } else if str_eq(name, "jun") {
        Some(String::from_str("June"))
    } else if str_eq(name, "jul") {
        Some(String::from_str("July"))
    } else if str_eq(name, "aug") {
        Some(String::from_str("August"))
    } else if str_eq(name, "sep") {
        Some(String::from_str("September"))
    } else if str_eq(name, "oct") {
        Some(String::from_str("October"))
    } else if str_eq(name, "nov") {
        Some(String::from_str("November"))
    } else if str_eq(name, "dec") {
        Some(String::from_str("December"))
    } else {
        None
    }
}

/// A tag value assembled from its parts: literals appended, abbreviations
/// looked up in the expanded variables and then the month table; an
/// unknown abbreviation fails the tag.
pub open spec fn expand_tag(parts: Seq<BibChunkV>, vm: Map<Seq<char>, Seq<char>>) -> Option<
    Seq<char>,
>
    decreases parts.len(),
{
    if parts.len() == 0 {
        Some(Seq::empty())
    } else {
        match expand_tag(parts.drop_last(), vm) {
            None => None,
            Some(prefix) => match parts.last() {
                BibChunkV::Str(t) => Some(prefix + t),
                BibChunkV::Abbr(a) => if vm.dom().contains(a) {
                    Some(prefix + vm[a])
                } else {
                    match month_of(a) {
                        Some(mn) => Some(prefix + mn),
                        None => None,
                    }
                },
            },
        }
    }
}

proof fn lemma_expand_tag_none(parts: Seq<BibChunkV>, vm: Map<Seq<char>, Seq<char>>, i: int)
    requires
        0 <= i <= parts.len(),
        expand_tag(parts.take(i), vm) is None,
    ensures
        expand_tag(parts, vm) is None,
    decreases parts.len() - i,
{
    if i == parts.len() {
        assert(parts.take(i) =~= parts);
    } else {
        assert(parts.take(i + 1).drop_last() =~= parts.take(i));
        lemma_expand_tag_none(parts, vm, i + 1);
    }
}

fn expand_tag_exec(parts: &Vec<BibChunk>, vt: &Table<String>) -> (r: Option<String>)
    requires
        vt.wf(),
    ensures
        match r {
            Some(out) => expand_tag(parts.deep_view(), vt@) == Some(out@),
            None => expand_tag(parts.deep_view(), vt@) is None,
        },
{
    let mut out = String::new();
    let mut i: usize = 0;
    proof {
        assert(parts.deep_view().take(0) =~= Seq::<BibChunkV>::empty());
    }
    while i < parts.len()
        invariant
            i <= parts@.len(),
            vt.wf(),
            expand_tag(parts.deep_view().take(i as int), vt@) == Some(out@),
        decreases parts@.len() - i,
    {
        proof {
            assert(parts.deep_view().take(i as int + 1).drop_last() =~= parts.deep_view().take(
                i as int,
            ));
            assert(parts.deep_view().take(i as int + 1).last() == parts.deep_view()[i as int]);
            assert(parts.deep_view()[i as int] == parts@[i as int].deep_view());
        }
        match &parts[i] {
            BibChunk::Str(t) => {
                out.append(t.as_str());
            },
            BibChunk::Abbr(a) => {
                match vt.get(a.as_str()) {
                    Some(v) => {
                        out.append(v.as_str());
                    },
                    None => {
                        match month_lookup(a.as_str()) {
                            Some(m) => {
                                out.append(m.as_str());
                            },
                            None => {
                                proof {
                                    lemma_expand_tag_none(parts.deep_view(), vt@, i as int + 1);
                                }
                                return None;
                            },
                        }
                    },
                }
            },
        }
        proof {
            assert(expand_tag(parts.deep_view().take(i as int + 1), vt@) == Some(out@));
        }
        i = i + 1;
    }
    proof {
        assert(parts.deep_view().take(parts.deep_view().len() as int) =~= parts.deep_view());
    }
    Some(out)
}

pub open spec fn lower_char(c: char) -> char {
    if 'A' <= c && c <= 'Z' {
        ((c as u32 + 32) as u8) as char
    } else {
        c
    }
}

/// ASCII lowercasing, which is all the lowercasing of tag names needs: the
/// raw parser only produces ASCII identifiers.
pub open spec fn ascii_lower(s: Seq<char>) -> Seq<char> {
    Seq::new(s.len(), |i: int| lower_char(s[i]))
}

fn ascii_lower_str(s: &str) -> (r: String)
    ensures
        r@ == ascii_lower(s@),
{
    let cs = to_char_vec(s);
    let mut out: Vec<char> = Vec::new();
    let mut i: usize = 0;
    while i < cs.len()
        invariant
            i <= cs@.len(),
            cs@ == s@,
            out@.len() == i,
            forall|j: int| 0 <= j < i ==> out@[j] == lower_char(s@[j]),
        decreases cs@.len() - i,
    {
        let c = cs[i];
        if 'A' <= c && c <= 'Z' {
            out.push(((c as u32 + 32) as u8) as char);
        } else {
            out.push(c);
        }
        i = i + 1;
    }
    proof {
        assert(out@ =~= ascii_lower(s@));
    }
    chars_to_string(&out)
}

/// The record denoted by one bibliography entry: the reserved `entry_type`
/// field, then one text field per tag whose value expands, under its
/// lowercased name, a later tag winning on a repeated name; a tag whose
/// value does not expand is dropped.
pub open spec fn record_of_raw(
    etype: Seq<char>,
    tags: Seq<(Seq<char>, Seq<BibChunkV>)>,
    vm: Map<Seq<char>, Seq<char>>,
) -> RecordV
    decreases tags.len(),
{
    if tags.len() == 0 {
        Map::<Seq<char>, ValueV>::empty().insert("entry_type"@, ValueV::Text(etype))
    } else {
        let m = record_of_raw(etype, tags.drop_last(), vm);
        match expand_tag(tags.last().1, vm) {
            Some(v) => m.insert(ascii_lower(tags.last().0), ValueV::Text(v)),
            None => m,
        }
    }
}

fn build_record(etype: String, tags: Vec<BibTag>, vt: &Table<String>) -> (rec: Record)
    requires
        vt.wf(),
    ensures
        rec.wf(),
        rec@ == record_of_raw(etype@, tags.deep_view(), vt@),
{
    let ghost etype0 = etype@;
    let mut rec: Record = Table::new();
    rec.set(String::from_str("entry_type"), Value::Text(etype));
    proof {
        assert(tags.deep_view().take(0) =~= Seq::<(Seq<char>, Seq<BibChunkV>)>::empty());
        assert(rec@ =~= record_of_raw(etype0, tags.deep_view().take(0), vt@));
    }
    let mut j: usize = 0;
    while j < tags.len()
        invariant
            j <= tags@.len(),
            vt.wf(),
            rec.wf(),
            rec@ == record_of_raw(etype0, tags.deep_view().take(j as int), vt@),
        decreases tags@.len() - j,
    {
        proof {
            assert(tags.deep_view().take(j as int + 1).drop_last() =~= tags.deep_view().take(
                j as int,
            ));
            assert(tags.deep_view().take(j as int + 1).last() == tags.deep_view()[j as int]);
            assert(tags.deep_view()[j as int] == tags@[j as int].deep_view());
        }
        match expand_tag_exec(&tags[j].parts, vt) {
            Some(v) => {
                let name = ascii_lower_str(tags[j].name.as_str());
                rec.set(name, Value::Text(v));
            },
            None => {},
        }
        j = j + 1;
    }
    proof {
        assert(tags.deep_view().take(tags.deep_view().len() as int) =~= tags.deep_view());
    }
    rec
}

/// The selection denoted by the bibliography entries, a later entry
/// winning on a repeated citation key.
pub open spec fn bib_fold(
    bs: Seq<(Seq<char>, Seq<char>, Seq<(Seq<char>, Seq<BibChunkV>)>)>,
    vm: Map<Seq<char>, Seq<char>>,
) -> StoreV
    decreases bs.len(),
{
    if bs.len() == 0 {
        Map::empty()
    } else {
        bib_fold(bs.drop_last(), vm).insert(bs.last().1, record_of_raw(bs.last().0, bs.last().2, vm))
    }
}

/// The selection denoted by a raw entry list: its bibliographies, with tag
/// values expanded against its string variables and the month table.
pub open spec fn sel_of_raw(es: Seq<RawEntryV>) -> StoreV {
    bib_fold(raw_bibs(es), var_map(raw_vars(es)))
}

/// The views of the partitioned bibliography entries.
pub open spec fn bibs_view(s: Seq<(String, String, Vec<BibTag>)>) -> Seq<
    (Seq<char>, Seq<char>, Seq<(Seq<char>, Seq<BibChunkV>)>),
> {
    Seq::new(s.len(), |i: int| (s[i].0@, s[i].1@, s[i].2.deep_view()))
}

/// Builds a fresh selection out of the raw entries: variables are expanded
/// first, then each bibliography becomes a record with `entry_type`
/// injected as a reserved field.
pub fn build_selection(entries: Vec<RawEntry>) -> (r: Store)
    ensures
        store_wf(r),
        r@ == sel_of_raw(entries.deep_view()),
{
    let ghost es0 = entries.deep_view();
    let ghost orig_vec = entries@;
    let mut src = entries;
    let mut vars: Vec<BibTag> = Vec::new();
    let mut bibs: Vec<(String, String, Vec<BibTag>)> = Vec::new();
    let mut i: usize = 0;
    let n0 = src.len();
    proof {
        assert(es0.len() == n0);
        assert(src@ =~= orig_vec.skip(0));
        assert(es0.take(0) =~= Seq::<RawEntryV>::empty());
        assert(vars.deep_view() =~= raw_vars(es0.take(0)));
        assert(bibs_view(bibs@) =~= raw_bibs(es0.take(0)));
    }
    while src.len() > 0
        invariant
            es0.len() <= usize::MAX,
            es0.len() == orig_vec.len(),
            forall|x: int| 0 <= x < orig_vec.len() ==> #[trigger] es0[x] == orig_vec[x].deep_view(),
            i + src@.len() == es0.len(),
            src@ == orig_vec.skip(i as int),
            vars.deep_view() == raw_vars(es0.take(i as int)),
            bibs_view(bibs@) == raw_bibs(es0.take(i as int)),
        decreases src@.len(),
    {
        let e = src.remove(0);
        proof {
            assert(e == orig_vec[i as int]);
            assert(e.deep_view() == es0[i as int]);
            assert(src@ =~= orig_vec.skip(i as int + 1));
            assert(es0.take(i as int + 1).drop_last() =~= es0.take(i as int));
            assert(es0.take(i as int + 1).last() == es0[i as int]);
        }
        match e {
            RawEntry::Variable(t) => {
                vars.push(t);
                proof {
                    assert(vars.deep_view() =~= raw_vars(es0.take(i as int + 1)));
                    assert(bibs_view(bibs@) =~= raw_bibs(es0.take(i as int + 1)));
                }
            },
            RawEntry::Bibliography(t, k, tags) => {
                bibs.push((t, k, tags));
                proof {
                    assert(vars.deep_view() =~= raw_vars(es0.take(i as int + 1)));
                    assert(bibs_view(bibs@) =~= raw_bibs(es0.take(i as int + 1)));
                }
            },
            RawEntry::Preamble(_) => {
                proof {
                    assert(vars.deep_view() =~= raw_vars(es0.take(i as int + 1)));
                    assert(bibs_view(bibs@) =~= raw_bibs(es0.take(i as int + 1)));
                }
            },
            RawEntry::Comment(_) => {
                proof {
                    assert(vars.deep_view() =~= raw_vars(es0.take(i as int + 1)));
                    assert(bibs_view(bibs@) =~= raw_bibs(es0.take(i as int + 1)));
                }
            },
        }
        i = i + 1;
    }
    proof {
        assert(es0.take(es0.len() as int) =~= es0);
    }
    let vt = build_var_table(&vars);
    let mut sel: Store = Table::new();
    let ghost bibs_vec = bibs@;
    let ghost bv = bibs_view(bibs_vec);
    let mut j: usize = 0;
    let m0 = bibs.len();
    proof {
        assert(bv.len() == m0);
        assert(bibs@ =~= bibs_vec.skip(0));
        assert(bv.take(0) =~= Seq::<
            (Seq<char>, Seq<char>, Seq<(Seq<char>, Seq<BibChunkV>)>),
        >::empty());
        assert(sel@ =~= bib_fold(bv.take(0), vt@));
    }
    while bibs.len() > 0
        invariant
            bv.len() <= usize::MAX,
            bv == bibs_view(bibs_vec),
            j + bibs@.len() == bv.len(),
            bibs@ == bibs_vec.skip(j as int),
            vt.wf(),
            store_wf(sel),
            sel@ == bib_fold(bv.take(j as int), vt@),
        decreases bibs@.len(),
    {
        let b = bibs.remove(0);
        proof {
            assert(b == bibs_vec[j as int]);
            assert((b.0@, b.1@, b.2.deep_view()) == bv[j as int]);
            assert(bibs@ =~= bibs_vec.skip(j as int + 1));
            assert(bv.take(j as int + 1).drop_last() =~= bv.take(j as int));
            assert(bv.take(j as int + 1).last() == bv[j as int]);
        }
        let (ty, k, tags) = b;
        let rec = build_record(ty, tags, &vt);
        let ghost reck = rec;
        let ghost key0 = k;
        let ghost before = sel.pairs@;
        sel.set(k, rec);
        proof {
            assert forall|x: int| 0 <= x < sel.pairs@.len() implies (#[trigger] sel.pairs@[x]).1.wf() by {
                if sel.pairs@[x] == (key0, reck) {
                } else {
                    let x2 = choose|x2: int| 0 <= x2 < before.len() && sel.pairs@[x] == before[x2];
                }
            }
            assert(sel@ =~= bib_fold(bv.take(j as int + 1), vt@));
        }
        j = j + 1;
    }
    proof {
        assert(bv.take(bv.len() as int) =~= bv);
    }
    sel
}

/// Parses citation text into a fresh selection: `None` when the text ends
/// inside an unterminated value — which the outside parser cannot even
/// scan safely — or when the parser rejects it; both are fatal for the
/// chain.
pub fn parse_bibtex(bibtex_string: &str) -> (r: Option<Store>)
    ensures
        match r {
            Some(st) => tail_safe(bibtex_string@) && bib_raw_of(bibtex_string@) is Some
                && store_wf(st) && st@ == sel_of_raw(bib_raw_of(bibtex_string@)->Some_0),
            None => !tail_safe(bibtex_string@) || bib_raw_of(bibtex_string@) is None,
        },
{
    if !tail_safe_check(bibtex_string) {
        return None;
    }
    match parse_bib_raw(bibtex_string) {
        Some(entries) => Some(build_selection(entries)),
        None => None,
    }
}

/// Text elements escaped for the bracketed list rendering: quote and
/// backslash get a backslash.
pub open spec fn esc(s: Seq<char>) -> Seq<char>
    decreases s.len(),
{
    if s.len() == 0 {
        Seq::empty()
    } else if s[0] == '"' || s[0] == '\\' {
        seq!['\\', s[0]] + esc(s.skip(1))
    } else {
        seq![s[0]] + esc(s.skip(1))
    }
}

pub open spec fn render_list_items(l: Seq<Seq<char>>) -> Seq<char>
    decreases l.len(),
{
    if l.len() == 0 {
        Seq::empty()
    } else if l.len() == 1 {
        seq!['"'] + esc(l[0]) + seq!['"']
    } else {
        render_list_items(l.drop_last()) + seq![','] + seq!['"'] + esc(l.last()) + seq!['"']
    }
}

/// How a field value is rendered between the braces of an export line:
/// scalar text verbatim, a sequence as a quoted bracketed list, any other
/// shape as its carried serialized form.
pub open spec fn render_value(v: ValueV) -> Seq<char> {
    match v {
        ValueV::Text(t) => t,
        ValueV::List(l) => seq!['['] + render_list_items(l) + seq![']'],
        ValueV::Other(o) => o,
    }
}

/// One `    field = {value},` line per non-reserved field, in field order.
pub open spec fn render_fields(fields: Seq<(String, Value)>) -> Seq<char>
    decreases fields.len(),
{
    if fields.len() == 0 {
        Seq::empty()
    } else {
        render_fields(fields.drop_last()) + (if fields.last().0@ == "entry_type"@ {
            Seq::<char>::empty()
        } else {
            "    "@ + fields.last().0@ + " = {"@ + render_value(fields.last().1@) + "},\n"@
        })
    }
}

/// The entry type shown in an entry's header line.
pub open spec fn entry_type_text(rec: Seq<(String, Value)>) -> Seq<char> {
    if pairs_map(rec).dom().contains("entry_type"@) {
        render_value(pairs_map(rec)["entry_type"@])
    } else {
        "null"@
    }
}

pub open spec fn render_entries(s: Seq<(String, Record)>) -> Seq<char>
    decreases s.len(),
{
    if s.len() == 0 {
        Seq::empty()
    } else {
        render_entries(s.drop_last()) + "@"@ + entry_type_text(s.last().1.pairs@) + "{"@
            + s.last().0@ + ",\n"@ + render_fields(s.last().1.pairs@)
    }
}

/// The whole export: every entry in order, closed by a single `}` line for
/// the whole batch — the tool's historical one-closing-brace format.
pub open spec fn export_text(s: Seq<(String, Record)>) -> Seq<char> {
    render_entries(s) + "}\n"@
}

fn escape_into(out: &mut String, s: &str)
    ensures
        final(out)@ == old(out)@ + esc(s@),
{
    let cs = crate::strutil::to_char_vec(s);
    let mut i: usize = 0;
    proof {
        assert(cs@.skip(0) =~= cs@);
    }
    while i < cs.len()
        invariant
            i <= cs@.len(),
            cs@ == s@,
            out@ + esc(cs@.skip(i as int)) == old(out)@ + esc(s@),
        decreases cs@.len() - i,
    {
        let ghost t = cs@.skip(i as int);
        let c = cs[i];
        proof {
            assert(t[0] == c);
            assert(t.skip(1) =~= cs@.skip(i as int + 1));
        }
        if c == '"' || c == '\\' {
            crate::strutil::push_char(out, '\\');
            crate::strutil::push_char(out, c);
        } else {
            crate::strutil::push_char(out, c);
        }
        proof {
            assert(out@ + esc(cs@.skip(i as int + 1)) =~= old(out)@ + esc(s@));
        }
        i = i + 1;
    }
    proof {
        assert(cs@.skip(cs@.len() as int) =~= Seq::<char>::empty());
        assert(out@ =~= old(out)@ + esc(s@));
    }
}

fn append_value(out: &mut String, v: &Value)
    ensures
        final(out)@ == old(out)@ + render_value(v@),
{
    match v {
        Value::Text(t) => {
            out.append(t.as_str());
        },
        Value::Other(o) => {
            out.append(o.as_str());
        },
        Value::List(l) => {
            crate::strutil::push_char(out, '[');
            let ghost lv = l.deep_view();
            let mut j: usize = 0;
            proof {
                assert(lv.take(0) =~= Seq::<Seq<char>>::empty());
                assert(out@ =~= old(out)@ + seq!['['] + render_list_items(lv.take(0)));
            }
            while j < l.len()
                invariant
                    j <= l@.len(),
                    lv == l.deep_view(),
                    out@ == old(out)@ + seq!['['] + render_list_items(lv.take(j as int)),
                decreases l@.len() - j,
            {
                if j > 0 {
                    crate::strutil::push_char(out, ',');
                }
                crate::strutil::push_char(out, '"');
                escape_into(out, l[j].as_str());
                crate::strutil::push_char(out, '"');
                proof {
                    assert(lv.take(j as int + 1).drop_last() =~= lv.take(j as int));
                    assert(lv.take(j as int + 1).last() == lv[j as int]);
                    assert(lv[j as int] == l@[j as int]@);
                    assert(out@ =~= old(out)@ + seq!['['] + render_list_items(lv.take(j as int + 1)));
                }
                j = j + 1;
            }
            crate::strutil::push_char(out, ']');
            proof {
                assert(lv.take(lv.len() as int) =~= lv);
                assert(out@ =~= old(out)@ + render_value(v@));
            }
        },
    }
}

/// Renders the selection in the citation export format.
pub fn generate_bibtex(selection: &Store) -> (r: String)
    requires
        store_wf(*selection),
    ensures
        r@ == export_text(selection.pairs@),
{
    let ghost sel0 = selection.pairs@;
    let mut out = String::new();
    let mut i: usize = 0;
    proof {
        assert(sel0.take(0) =~= Seq::<(String, Record)>::empty());
        assert(out@ =~= render_entries(sel0.take(0)));
    }
    while i < selection.pairs.len()
        invariant
            i <= selection.pairs@.len(),
            sel0 == selection.pairs@,
            store_wf(*selection),
            out@ == render_entries(sel0.take(i as int)),
        decreases selection.pairs@.len() - i,
    {
        let rec = &selection.pairs[i].1;
        out.append("@");
        match rec.get("entry_type") {
            Some(v) => {
                append_value(&mut out, v);
            },
            None => {
                out.append("null");
            },
        }
        out.append("{");
        out.append(selection.pairs[i].0.as_str());
        out.append(",\n");
        proof {
            assert(out@ =~= render_entries(sel0.take(i as int)) + "@"@ + entry_type_text(
                rec.pairs@,
            ) + "{"@ + sel0[i as int].0@ + ",\n"@);
        }
        let ghost header = out@;
        let ghost fields0 = rec.pairs@;
        let mut j: usize = 0;
        proof {
            assert(fields0.take(0) =~= Seq::<(String, Value)>::empty());
            assert(out@ =~= header + render_fields(fields0.take(0)));
        }
        while j < rec.pairs.len()
            invariant
                j <= rec.pairs@.len(),
                fields0 == rec.pairs@,
                out@ == header + render_fields(fields0.take(j as int)),
            decreases rec.pairs@.len() - j,
        {
            proof {
                assert(fields0.take(j as int + 1).drop_last() =~= fields0.take(j as int));
                assert(fields0.take(j as int + 1).last() == fields0[j as int]);
            }
            if !crate::strutil::str_eq(rec.pairs[j].0.as_str(), "entry_type") {
                out.append("    ");
                out.append(rec.pairs[j].0.as_str());
                out.append(" = {");
                append_value(&mut out, &rec.pairs[j].1);
                out.append("},\n");
            }
            proof {
                assert(out@ =~= header + render_fields(fields0.take(j as int + 1)));
            }
            j = j + 1;
        }
        proof {
            assert(fields0.take(fields0.len() as int) =~= fields0);
            assert(sel0.take(i as int + 1).drop_last() =~= sel0.take(i as int));
            assert(sel0.take(i as int + 1).last() == sel0[i as int]);
            assert(out@ =~= render_entries(sel0.take(i as int + 1)));
        }
        i = i + 1;
    }
    out.append("}\n");
    proof {
        assert(sel0.take(sel0.len() as int) =~= sel0);
        assert(out@ =~= export_text(sel0));
    }
    out
}

} // verus!
