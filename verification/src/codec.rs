//! The catalog's textual form: one bracketed header line per entry, then
//! one `name = "value"` line per present field.  Inside quotes a quote,
//! a backslash and a newline are written as backslash escapes, so a line
//! break never falls inside a value.  Emission and parsing are specified
//! here, and parsing undoes emission exactly.

use vstd::prelude::*;

use crate::catalog::{
    insert_sorted, lemma_insert_sorted_append, lemma_lookup_some_iff_key, lookup, sorted, Config,
    EntriesV,
};
use crate::entry::{Doc, DocV};
use crate::error::{DocError, DocErrorKind};
use crate::strutil::{lex_lt, str_eq};

verus! {

/// How one character is written inside a quoted value.
pub open spec fn escape_char(c: char) -> Seq<char> {
    if c == '"' {
        seq!['\\', '"']
    } else if c == '\\' {
        seq!['\\', '\\']
    } else if c == '\n' {
        seq!['\\', 'n']
    } else {
        seq![c]
    }
}

/// A value as written inside quotes.
pub open spec fn escape_seq(s: Seq<char>) -> Seq<char>
    decreases s.len(),
{
    if s.len() == 0 {
        Seq::empty()
    } else {
        escape_char(s[0]) + escape_seq(s.drop_first())
    }
}

/// What a backslash escape denotes, if anything.
pub open spec fn unescape_char(c: char) -> Option<char> {
    if c == '"' {
        Some('"')
    } else if c == '\\' {
        Some('\\')
    } else if c == 'n' {
        Some('\n')
    } else {
        None
    }
}

/// Reading a quoted body back: a raw quote or newline, a trailing
/// backslash and an unknown escape are malformed.
pub open spec fn unescape_seq(s: Seq<char>) -> Option<Seq<char>>
    decreases s.len(),
{
    if s.len() == 0 {
        Some(Seq::empty())
    } else if s[0] == '\\' {
        if s.len() == 1 {
            None
        } else {
            match unescape_char(s[1]) {
                None => None,
                Some(c) => match unescape_seq(s.skip(2)) {
                    None => None,
                    Some(t) => Some(seq![c] + t),
                },
            }
        }
    } else if s[0] == '"' || s[0] == '\n' {
        None
    } else {
        match unescape_seq(s.drop_first()) {
            None => None,
            Some(t) => Some(seq![s[0]] + t),
        }
    }
}

/// Escaping distributes over concatenation.
pub proof fn lemma_escape_cat(a: Seq<char>, b: Seq<char>)
    ensures
        escape_seq(a + b) == escape_seq(a) + escape_seq(b),
    decreases a.len(),
{
    if a.len() == 0 {
        assert(a + b =~= b);
        assert(escape_seq(a) + escape_seq(b) =~= escape_seq(b));
    } else {
        assert((a + b).drop_first() =~= a.drop_first() + b);
        lemma_escape_cat(a.drop_first(), b);
        assert(escape_seq(a + b) == escape_char(a[0]) + (escape_seq(a.drop_first()) + escape_seq(
            b,
        )));
        assert(escape_char(a[0]) + (escape_seq(a.drop_first()) + escape_seq(b)) =~= (escape_char(
            a[0],
        ) + escape_seq(a.drop_first())) + escape_seq(b));
    }
}

/// An escaped value holds no newline.
pub proof fn lemma_escape_clean(s: Seq<char>)
    ensures
        forall|i: int| 0 <= i < escape_seq(s).len() ==> (#[trigger] escape_seq(s)[i]) != '\n',
    decreases s.len(),
{
    if s.len() > 0 {
        lemma_escape_clean(s.drop_first());
        assert forall|i: int|
            0 <= i < escape_seq(s).len() implies (#[trigger] escape_seq(s)[i]) != '\n' by {
            let e = escape_char(s[0]);
            if i >= e.len() {
                assert(escape_seq(s)[i] == escape_seq(s.drop_first())[i - e.len()]);
            } else {
                assert(escape_seq(s)[i] == e[i]);
            }
        }
    }
}

/// Unescaping undoes escaping.
pub proof fn lemma_unescape_escape(s: Seq<char>)
    ensures
        unescape_seq(escape_seq(s)) == Some(s),
    decreases s.len(),
{
    if s.len() == 0 {
    } else {
        lemma_unescape_escape(s.drop_first());
        let e = escape_char(s[0]);
        let rest = escape_seq(s.drop_first());
        let whole = escape_seq(s);
        assert(whole == e + rest);
        if s[0] == '"' || s[0] == '\\' || s[0] == '\n' {
            assert(whole[0] == '\\');
            assert(whole.len() == 2 + rest.len());
            assert(whole[1] == e[1]);
            assert(unescape_char(whole[1]) == Some(s[0]));
            assert(whole.skip(2) =~= rest);
            assert(unescape_seq(whole) == Some(seq![s[0]] + s.drop_first()));
            assert(seq![s[0]] + s.drop_first() =~= s);
        } else {
            assert(whole[0] == s[0]);
            assert(whole[0] != '\\' && whole[0] != '"' && whole[0] != '\n');
            assert(whole.drop_first() =~= rest);
            assert(unescape_seq(whole) == Some(seq![s[0]] + s.drop_first()));
            assert(seq![s[0]] + s.drop_first() =~= s);
        }
    }
}

/// Characters before the first newline.
pub open spec fn line_len(s: Seq<char>) -> nat
    decreases s.len(),
{
    if s.len() == 0 {
        0
    } else if s[0] == '\n' {
        0
    } else {
        1 + line_len(s.drop_first())
    }
}

/// The lines of a text: each newline ends a line, and a last fragment
/// without one is a line of its own.
pub open spec fn split_lines(s: Seq<char>) -> Seq<Seq<char>>
    decreases s.len(),
{
    if s.len() == 0 {
        Seq::empty()
    } else {
        let n = line_len(s) as int;
        if n >= s.len() {
            seq![s]
        } else {
            seq![s.take(n)] + split_lines(s.skip(n + 1))
        }
    }
}

/// The text of a list of lines, each ended by a newline.
pub open spec fn unlines(ls: Seq<Seq<char>>) -> Seq<char>
    decreases ls.len(),
{
    if ls.len() == 0 {
        Seq::empty()
    } else {
        ls[0] + seq!['\n'] + unlines(ls.drop_first())
    }
}

/// A sequence whose first newline stands at `p` has line length `p`.
pub proof fn lemma_line_len_determined(s: Seq<char>, p: int)
    requires
        0 <= p <= s.len(),
        forall|j: int| 0 <= j < p ==> s[j] != '\n',
        p < s.len() ==> s[p] == '\n',
    ensures
        line_len(s) == p,
    decreases p,
{
    if p == 0 {
    } else {
        assert(s[0] != '\n');
        assert(forall|j: int| 0 <= j < p - 1 ==> #[trigger] s.drop_first()[j] == s[j + 1]);
        lemma_line_len_determined(s.drop_first(), p - 1);
    }
}

/// Joining distributes over concatenation of line lists.
pub proof fn lemma_unlines_cat(a: Seq<Seq<char>>, b: Seq<Seq<char>>)
    ensures
        unlines(a + b) == unlines(a) + unlines(b),
    decreases a.len(),
{
    if a.len() == 0 {
        assert(a + b =~= b);
        assert(unlines(a) + unlines(b) =~= unlines(b));
    } else {
        assert((a + b).drop_first() =~= a.drop_first() + b);
        lemma_unlines_cat(a.drop_first(), b);
        assert((a + b)[0] == a[0]);
        assert(unlines(a + b) == a[0] + seq!['\n'] + (unlines(a.drop_first()) + unlines(b)));
        assert(a[0] + seq!['\n'] + (unlines(a.drop_first()) + unlines(b)) =~= (a[0] + seq!['\n']
            + unlines(a.drop_first())) + unlines(b));
    }
}

/// Splitting undoes joining when no line holds a newline.
pub proof fn lemma_split_unlines(ls: Seq<Seq<char>>)
    requires
        forall|i: int, j: int|
            0 <= i < ls.len() && 0 <= j < ls[i].len() ==> (#[trigger] ls[i][j]) != '\n',
    ensures
        split_lines(unlines(ls)) == ls,
    decreases ls.len(),
{
    if ls.len() == 0 {
    } else {
        let u = unlines(ls);
        let head = ls[0];
        let rest = unlines(ls.drop_first());
        assert(u == head + seq!['\n'] + rest);
        assert(u.len() == head.len() + 1 + rest.len());
        assert(forall|j: int| 0 <= j < head.len() ==> u[j] == head[j]);
        assert(u[head.len() as int] == '\n');
        lemma_line_len_determined(u, head.len() as int);
        assert(u.take(head.len() as int) =~= head);
        assert(u.skip(head.len() as int + 1) =~= rest);
        assert(forall|i: int, j: int|
            0 <= i < ls.drop_first().len() && 0 <= j < ls.drop_first()[i].len() ==> (
            #[trigger] ls.drop_first()[i][j]) == ls[i + 1][j]);
        lemma_split_unlines(ls.drop_first());
        assert(split_lines(u) == seq![head] + ls.drop_first());
        assert(seq![head] + ls.drop_first() =~= ls);
    }
}

/// What opens a header line.
pub open spec fn hdr_pre() -> Seq<char> {
    seq!['[', 'm', 'a', 'p', '.', '"']
}

/// What closes a header line.
pub open spec fn hdr_suf() -> Seq<char> {
    seq!['"', ']']
}

/// What stands between a field name and its opening quote.
pub open spec fn mid_eq() -> Seq<char> {
    seq![' ', '=', ' ', '"']
}

pub open spec fn name_url() -> Seq<char> {
    seq!['u', 'r', 'l']
}

pub open spec fn name_full() -> Seq<char> {
    seq!['f', 'u', 'l', 'l']
}

pub open spec fn name_rep() -> Seq<char> {
    seq!['r', 'e', 'p']
}

pub open spec fn name_play() -> Seq<char> {
    seq!['p', 'l', 'a', 'y']
}

pub open spec fn name_search() -> Seq<char> {
    seq!['s', 'e', 'a', 'r', 'c', 'h']
}

pub open spec fn name_loc() -> Seq<char> {
    seq!['l', 'o', 'c']
}

/// The header line of an entry: its key, escaped, in brackets.
pub open spec fn header_line(k: Seq<char>) -> Seq<char> {
    hdr_pre() + escape_seq(k) + hdr_suf()
}

/// A field line: the name, an equals sign, the value quoted and escaped.
pub open spec fn field_line(name: Seq<char>, v: Seq<char>) -> Seq<char> {
    name + mid_eq() + escape_seq(v) + seq!['"']
}

/// The field line of an optional field, or no line.
pub open spec fn maybe_line(name: Seq<char>, v: Option<Seq<char>>) -> Seq<Seq<char>> {
    match v {
        Some(x) => seq![field_line(name, x)],
        None => Seq::empty(),
    }
}

/// The lines one entry writes: header, url, then the optional fields in
/// a fixed order.
pub open spec fn entry_lines(k: Seq<char>, d: DocV) -> Seq<Seq<char>> {
    seq![header_line(k), field_line(name_url(), d.url)] + maybe_line(name_full(), d.full)
        + maybe_line(name_rep(), d.rep) + maybe_line(name_play(), d.play) + maybe_line(
        name_search(),
        d.search,
    )
}

/// The lines of a whole catalog, entry by entry.
pub open spec fn lines_of(entries: EntriesV) -> Seq<Seq<char>>
    decreases entries.len(),
{
    if entries.len() == 0 {
        Seq::empty()
    } else {
        entry_lines(entries[0].0, entries[0].1) + lines_of(entries.drop_first())
    }
}

/// The serialized catalog.
pub open spec fn emit_text(entries: EntriesV) -> Seq<char> {
    unlines(lines_of(entries))
}

/// No line an entry writes holds a newline.
pub proof fn lemma_entry_lines_clean(k: Seq<char>, d: DocV)
    ensures
        forall|i: int, j: int|
            0 <= i < entry_lines(k, d).len() && 0 <= j < entry_lines(k, d)[i].len() ==> (
            #[trigger] entry_lines(k, d)[i][j]) != '\n',
{
    lemma_escape_clean(k);
    lemma_escape_clean(d.url);
    if d.full is Some {
        lemma_escape_clean(d.full->Some_0);
    }
    if d.rep is Some {
        lemma_escape_clean(d.rep->Some_0);
    }
    if d.play is Some {
        lemma_escape_clean(d.play->Some_0);
    }
    if d.search is Some {
        lemma_escape_clean(d.search->Some_0);
    }
}

/// No line a catalog writes holds a newline.
pub proof fn lemma_lines_clean(entries: EntriesV)
    ensures
        forall|i: int, j: int|
            0 <= i < lines_of(entries).len() && 0 <= j < lines_of(entries)[i].len() ==> (
            #[trigger] lines_of(entries)[i][j]) != '\n',
    decreases entries.len(),
{
    if entries.len() > 0 {
        lemma_entry_lines_clean(entries[0].0, entries[0].1);
        lemma_lines_clean(entries.drop_first());
        let el = entry_lines(entries[0].0, entries[0].1);
        let tail = lines_of(entries.drop_first());
        assert forall|i: int, j: int|
            0 <= i < lines_of(entries).len() && 0 <= j < lines_of(entries)[i].len() implies (
        #[trigger] lines_of(entries)[i][j]) != '\n' by {
            if i < el.len() {
                assert(lines_of(entries)[i] == el[i]);
            } else {
                assert(lines_of(entries)[i] == tail[i - el.len()]);
            }
        }
    }
}

/// Lines distribute over entry-list concatenation.
pub proof fn lemma_lines_of_cat(a: EntriesV, b: EntriesV)
    ensures
        lines_of(a + b) == lines_of(a) + lines_of(b),
    decreases a.len(),
{
    if a.len() == 0 {
        assert(a + b =~= b);
        assert(lines_of(a) + lines_of(b) =~= lines_of(b));
    } else {
        assert((a + b).drop_first() =~= a.drop_first() + b);
        lemma_lines_of_cat(a.drop_first(), b);
        assert((a + b)[0] == a[0]);
        assert(lines_of(a + b) == entry_lines(a[0].0, a[0].1) + (lines_of(a.drop_first())
            + lines_of(b)));
        assert(entry_lines(a[0].0, a[0].1) + (lines_of(a.drop_first()) + lines_of(b)) =~= (
        entry_lines(a[0].0, a[0].1) + lines_of(a.drop_first())) + lines_of(b));
    }
}


/// A descriptor while its section is being read: every field still open.
#[verifier::ext_equal]
pub ghost struct PDoc {
    pub url: Option<Seq<char>>,
    pub full: Option<Seq<char>>,
    pub rep: Option<Seq<char>>,
    pub play: Option<Seq<char>>,
    pub search: Option<Seq<char>>,
}

pub open spec fn empty_pdoc() -> PDoc {
    PDoc { url: None, full: None, rep: None, play: None, search: None }
}

/// The read state a fully written descriptor leaves behind.
pub open spec fn pdoc_of(d: DocV) -> PDoc {
    PDoc { url: Some(d.url), full: d.full, rep: d.rep, play: d.play, search: d.search }
}

/// Closing a section: the url is required.
pub open spec fn close_doc(p: PDoc) -> Option<DocV> {
    match p.url {
        None => None,
        Some(u) => Some(DocV { full: p.full, url: u, rep: p.rep, play: p.play, search: p.search }),
    }
}

/// A line that opens an entry: bracketed, quoted, a well-escaped
/// non-empty key between the quotes.
pub open spec fn is_header_line(l: Seq<char>) -> bool {
    &&& l.len() >= 8
    &&& l.take(6) == hdr_pre()
    &&& l.skip(l.len() - 2) == hdr_suf()
    &&& unescape_seq(l.subrange(6, l.len() - 2)) is Some
    &&& unescape_seq(l.subrange(6, l.len() - 2))->Some_0.len() > 0
}

pub open spec fn header_key(l: Seq<char>) -> Seq<char> {
    unescape_seq(l.subrange(6, l.len() - 2))->Some_0
}

/// A line that sets the field `name`: the name, ` = `, then a quoted
/// well-escaped value.
pub open spec fn is_field_line(l: Seq<char>, name: Seq<char>) -> bool {
    let n = name.len() as int;
    &&& l.len() >= n + 5
    &&& l.take(n) == name
    &&& l.subrange(n, n + 4) == mid_eq()
    &&& l[l.len() - 1] == '"'
    &&& unescape_seq(l.subrange(n + 4, l.len() - 1)) is Some
}

pub open spec fn field_value(l: Seq<char>, name: Seq<char>) -> Seq<char> {
    unescape_seq(l.subrange(name.len() as int + 4, l.len() - 1))->Some_0
}

/// Closing the open section into the accumulator: the url must have been
/// set and the key must be new; the entry enters at its ordered place.
pub open spec fn close_entry(acc: EntriesV, k: Seq<char>, p: PDoc) -> Option<EntriesV> {
    match close_doc(p) {
        None => None,
        Some(d) => if lookup(acc, k) is Some {
            None
        } else {
            Some(insert_sorted(acc, k, d))
        },
    }
}

pub open spec fn close_opt(acc: EntriesV, cur: Option<(Seq<char>, PDoc)>) -> Option<EntriesV> {
    match cur {
        None => Some(acc),
        Some((k, p)) => close_entry(acc, k, p),
    }
}

/// The parse, line by line: blank lines pass, a header closes the open
/// section and opens a new one, a field line fills an open slot of the
/// open section, a `loc` line may stand once before everything, and any
/// other line is malformed.
pub open spec fn run_lines(
    ls: Seq<Seq<char>>,
    acc: EntriesV,
    cur: Option<(Seq<char>, PDoc)>,
    loc: Option<Seq<char>>,
) -> Option<(EntriesV, Option<Seq<char>>)>
    decreases ls.len(),
{
    if ls.len() == 0 {
        match close_opt(acc, cur) {
            None => None,
            Some(a) => Some((a, loc)),
        }
    } else {
        let l = ls[0];
        let rest = ls.drop_first();
        if l.len() == 0 {
            run_lines(rest, acc, cur, loc)
        } else if is_header_line(l) {
            match close_opt(acc, cur) {
                None => None,
                Some(a) => run_lines(rest, a, Some((header_key(l), empty_pdoc())), loc),
            }
        } else if is_field_line(l, name_url()) {
            match cur {
                Some((k, p)) => if p.url is None {
                    run_lines(
                        rest,
                        acc,
                        Some((k, PDoc { url: Some(field_value(l, name_url())), ..p })),
                        loc,
                    )
                } else {
                    None
                },
                None => None,
            }
        } else if is_field_line(l, name_full()) {
            match cur {
                Some((k, p)) => if p.full is None {
                    run_lines(
                        rest,
                        acc,
                        Some((k, PDoc { full: Some(field_value(l, name_full())), ..p })),
                        loc,
                    )
                } else {
                    None
                },
                None => None,
            }
        } else if is_field_line(l, name_rep()) {
            match cur {
                Some((k, p)) => if p.rep is None {
                    run_lines(
                        rest,
                        acc,
                        Some((k, PDoc { rep: Some(field_value(l, name_rep())), ..p })),
                        loc,
                    )
                } else {
                    None
                },
                None => None,
            }
        } else if is_field_line(l, name_play()) {
            match cur {
                Some((k, p)) => if p.play is None {
                    run_lines(
                        rest,
                        acc,
                        Some((k, PDoc { play: Some(field_value(l, name_play())), ..p })),
                        loc,
                    )
                } else {
                    None
                },
                None => None,
            }
        } else if is_field_line(l, name_search()) {
            match cur {
                Some((k, p)) => if p.search is None {
                    run_lines(
                        rest,
                        acc,
                        Some((k, PDoc { search: Some(field_value(l, name_search())), ..p })),
                        loc,
                    )
                } else {
                    None
                },
                None => None,
            }
        } else if is_field_line(l, name_loc()) {
            if cur is None && acc.len() == 0 && loc is None {
                run_lines(rest, acc, cur, Some(field_value(l, name_loc())))
            } else {
                None
            }
        } else {
            None
        }
    }
}

/// What a whole text parses to, if anything: the entries in ascending key
/// order, and the optional load-time location note.
pub open spec fn parse_ok(text: Seq<char>) -> Option<(EntriesV, Option<Seq<char>>)> {
    run_lines(split_lines(text), Seq::empty(), None, None)
}

/// A written header line reads back as one, with its key.
pub proof fn lemma_header_reads_back(k: Seq<char>)
    requires
        k.len() > 0,
    ensures
        is_header_line(header_line(k)),
        header_key(header_line(k)) == k,
        header_line(k).len() > 0,
{
    let l = header_line(k);
    lemma_unescape_escape(k);
    assert(l.take(6) =~= hdr_pre());
    assert(l.skip(l.len() - 2) =~= hdr_suf());
    assert(l.subrange(6, l.len() - 2) =~= escape_seq(k));
}

/// A written field line reads back as one, with its value.
pub proof fn lemma_field_reads_back(name: Seq<char>, v: Seq<char>)
    requires
        name.len() > 0,
    ensures
        is_field_line(field_line(name, v), name),
        field_value(field_line(name, v), name) == v,
        field_line(name, v).len() > 0,
{
    let l = field_line(name, v);
    let n = name.len() as int;
    lemma_unescape_escape(v);
    assert(l.take(n) =~= name);
    assert(l.subrange(n, n + 4) =~= mid_eq());
    assert(l[l.len() - 1] == '"');
    assert(l.subrange(n + 4, l.len() - 1) =~= escape_seq(v));
}

/// A field line opens with its name, never with a bracket.
pub proof fn lemma_field_not_header(name: Seq<char>, v: Seq<char>)
    requires
        name.len() > 0,
        name[0] != '[',
    ensures
        !is_header_line(field_line(name, v)),
{
    let l = field_line(name, v);
    assert(l[0] == name[0]);
    if is_header_line(l) {
        assert(l.take(6)[0] == l[0]);
        assert(hdr_pre()[0] == '[');
    }
}

/// Field lines of names with different first characters never mix.
pub proof fn lemma_field_not_other(name: Seq<char>, v: Seq<char>, other: Seq<char>)
    requires
        name.len() > 0,
        other.len() > 0,
        name[0] != other[0],
    ensures
        !is_field_line(field_line(name, v), other),
{
    let l = field_line(name, v);
    assert(l[0] == name[0]);
    if is_field_line(l, other) {
        assert(l.take(other.len() as int)[0] == l[0]);
    }
}

/// When the next line opens a new entry, or nothing follows, the open
/// section may be closed first.
pub proof fn lemma_defer_close(
    ls: Seq<Seq<char>>,
    acc: EntriesV,
    cur: Option<(Seq<char>, PDoc)>,
    loc: Option<Seq<char>>,
    a: EntriesV,
)
    requires
        close_opt(acc, cur) == Some(a),
        ls.len() == 0 || (ls[0].len() > 0 && is_header_line(ls[0])),
    ensures
        run_lines(ls, acc, cur, loc) == run_lines(ls, a, None, loc),
{
}


/// One entry's lines, read with an empty open section in front of `tail`,
/// leave the section fully filled and `tail` still to read.
#[verifier::rlimit(80)]
#[verifier::spinoff_prover]
pub proof fn lemma_run_entry(
    k: Seq<char>,
    d: DocV,
    tail: Seq<Seq<char>>,
    acc: EntriesV,
    loc: Option<Seq<char>>,
)
    requires
        k.len() > 0,
    ensures
        run_lines(entry_lines(k, d) + tail, acc, None, loc) == run_lines(
            tail,
            acc,
            Some((k, pdoc_of(d))),
            loc,
        ),
{
    let h = header_line(k);
    let lu = field_line(name_url(), d.url);
    let lf = maybe_line(name_full(), d.full);
    let lr = maybe_line(name_rep(), d.rep);
    let lp = maybe_line(name_play(), d.play);
    let lsch = maybe_line(name_search(), d.search);
    let ls0 = entry_lines(k, d) + tail;

    // the header line
    lemma_header_reads_back(k);
    assert(ls0[0] == h);
    let ls1 = seq![lu] + lf + lr + lp + lsch + tail;
    assert(ls0.drop_first() =~= ls1);
    let st0 = empty_pdoc();
    assert(run_lines(ls0, acc, None, loc) == run_lines(ls1, acc, Some((k, st0)), loc));

    // the url line
    lemma_field_reads_back(name_url(), d.url);
    lemma_field_not_header(name_url(), d.url);
    assert(ls1[0] == lu);
    let ls2 = lf + lr + lp + lsch + tail;
    assert(ls1.drop_first() =~= ls2);
    let st1 = PDoc { url: Some(d.url), ..st0 };
    assert(run_lines(ls1, acc, Some((k, st0)), loc) == run_lines(ls2, acc, Some((k, st1)), loc));

    // the full-name line, if any
    let ls3 = lr + lp + lsch + tail;
    let st2 = PDoc { full: d.full, ..st1 };
    if d.full is Some {
        let v = d.full->Some_0;
        let l = field_line(name_full(), v);
        lemma_field_reads_back(name_full(), v);
        lemma_field_not_header(name_full(), v);
        lemma_field_not_other(name_full(), v, name_url());
        assert(ls2[0] == l);
        assert(ls2.drop_first() =~= ls3);
        assert(run_lines(ls2, acc, Some((k, st1)), loc) == run_lines(ls3, acc, Some((k, st2)), loc));
    } else {
        assert(ls2 =~= ls3);
        assert(st2 =~= st1);
    }

    // the repository line, if any
    let ls4 = lp + lsch + tail;
    let st3 = PDoc { rep: d.rep, ..st2 };
    if d.rep is Some {
        let v = d.rep->Some_0;
        let l = field_line(name_rep(), v);
        lemma_field_reads_back(name_rep(), v);
        lemma_field_not_header(name_rep(), v);
        lemma_field_not_other(name_rep(), v, name_url());
        lemma_field_not_other(name_rep(), v, name_full());
        assert(ls3[0] == l);
        assert(ls3.drop_first() =~= ls4);
        assert(run_lines(ls3, acc, Some((k, st2)), loc) == run_lines(ls4, acc, Some((k, st3)), loc));
    } else {
        assert(ls3 =~= ls4);
        assert(st3 =~= st2);
    }

    // the playground line, if any
    let ls5 = lsch + tail;
    let st4 = PDoc { play: d.play, ..st3 };
    if d.play is Some {
        let v = d.play->Some_0;
        let l = field_line(name_play(), v);
        lemma_field_reads_back(name_play(), v);
        lemma_field_not_header(name_play(), v);
        lemma_field_not_other(name_play(), v, name_url());
        lemma_field_not_other(name_play(), v, name_full());
        lemma_field_not_other(name_play(), v, name_rep());
        assert(ls4[0] == l);
        assert(ls4.drop_first() =~= ls5);
        assert(run_lines(ls4, acc, Some((k, st3)), loc) == run_lines(ls5, acc, Some((k, st4)), loc));
    } else {
        assert(ls4 =~= ls5);
        assert(st4 =~= st3);
    }

    // the search-template line, if any
    let st5 = PDoc { search: d.search, ..st4 };
    if d.search is Some {
        let v = d.search->Some_0;
        let l = field_line(name_search(), v);
        lemma_field_reads_back(name_search(), v);
        lemma_field_not_header(name_search(), v);
        lemma_field_not_other(name_search(), v, name_url());
        lemma_field_not_other(name_search(), v, name_full());
        lemma_field_not_other(name_search(), v, name_rep());
        lemma_field_not_other(name_search(), v, name_play());
        assert(ls5[0] == l);
        assert(ls5.drop_first() =~= tail);
        assert(run_lines(ls5, acc, Some((k, st4)), loc) == run_lines(tail, acc, Some((k, st5)), loc));
    } else {
        assert(ls5 =~= tail);
        assert(st5 =~= st4);
    }

    assert(st5 =~= pdoc_of(d));
}

/// Reading the lines of sorted entries whose keys all exceed the keys
/// already accumulated appends those entries, in order.
pub proof fn lemma_run_all(entries: EntriesV, acc: EntriesV, loc: Option<Seq<char>>)
    requires
        sorted(entries),
        forall|i: int| 0 <= i < entries.len() ==> (#[trigger] entries[i].0).len() > 0,
        sorted(acc),
        forall|i: int, j: int|
            0 <= i < acc.len() && 0 <= j < entries.len() ==> lex_lt(
                (#[trigger] acc[i].0),
                (#[trigger] entries[j].0),
            ),
    ensures
        run_lines(lines_of(entries), acc, None, loc) == Some((acc + entries, loc)),
    decreases entries.len(),
{
    if entries.len() == 0 {
        assert(acc + entries =~= acc);
    } else {
        let k0 = entries[0].0;
        let d0 = entries[0].1;
        let rest = entries.drop_first();
        assert(forall|i: int| 0 <= i < rest.len() ==> #[trigger] rest[i] == entries[i + 1]);
        assert(lines_of(entries) == entry_lines(k0, d0) + lines_of(rest));
        lemma_run_entry(k0, d0, lines_of(rest), acc, loc);

        // closing the section appends the entry
        let p = pdoc_of(d0);
        assert(close_doc(p) is Some);
        assert(close_doc(p)->Some_0 =~= d0);
        crate::catalog::lemma_lookup_some_iff_key(acc, k0);
        assert forall|i: int| 0 <= i < acc.len() implies (#[trigger] acc[i].0) != k0 by {
            crate::strutil::lemma_lex_trichotomy(acc[i].0, k0);
        }
        assert(lookup(acc, k0) is None);
        lemma_insert_sorted_append(acc, k0, d0);
        let acc2 = acc.push((k0, d0));
        assert(close_opt(acc, Some((k0, p))) == Some(acc2));

        if rest.len() == 0 {
            assert(lines_of(rest) =~= Seq::<Seq<char>>::empty());
            lemma_defer_close(lines_of(rest), acc, Some((k0, p)), loc, acc2);
            assert(run_lines(lines_of(rest), acc2, None, loc) == Some((acc2, loc)));
            assert(acc + entries =~= acc2);
        } else {
            let k1 = rest[0].0;
            assert(lines_of(rest) == entry_lines(k1, rest[0].1) + lines_of(rest.drop_first()));
            lemma_header_reads_back(k1);
            assert(lines_of(rest)[0] == header_line(k1));
            lemma_defer_close(lines_of(rest), acc, Some((k0, p)), loc, acc2);
            assert forall|i: int, j: int|
                0 <= i < acc2.len() && 0 <= j < rest.len() implies lex_lt(
                (#[trigger] acc2[i].0),
                (#[trigger] rest[j].0),
            ) by {
                assert(rest[j] == entries[j + 1]);
                if i < acc.len() {
                    assert(acc2[i] == acc[i]);
                } else {
                    assert(acc2[i] == (k0, d0));
                }
            }
            assert(sorted(acc2)) by {
                assert forall|i: int, j: int| 0 <= i < j < acc2.len() implies lex_lt(
                    (#[trigger] acc2[i].0),
                    (#[trigger] acc2[j].0),
                ) by {
                    if j < acc.len() {
                        assert(acc2[i] == acc[i] && acc2[j] == acc[j]);
                    } else {
                        assert(acc2[j] == (k0, d0));
                        if i < acc.len() {
                            assert(acc2[i] == acc[i]);
                        }
                    }
                }
            }
            lemma_run_all(rest, acc2, loc);
            assert(acc + entries =~= acc2 + rest);
        }
    }
}

/// The round trip: the text a sorted catalog writes parses back to
/// exactly that catalog, with no location note.
pub proof fn lemma_parse_round_trip(entries: EntriesV)
    requires
        sorted(entries),
        forall|i: int| 0 <= i < entries.len() ==> (#[trigger] entries[i].0).len() > 0,
    ensures
        parse_ok(emit_text(entries)) == Some((entries, None::<Seq<char>>)),
{
    lemma_lines_clean(entries);
    lemma_split_unlines(lines_of(entries));
    lemma_run_all(entries, Seq::empty(), None);
    assert(Seq::<(Seq<char>, DocV)>::empty() + entries =~= entries);
}


/// The views of a list of string slices.
pub open spec fn line_views(v: Seq<&str>) -> Seq<Seq<char>> {
    Seq::new(v.len(), |i: int| v[i]@)
}

/// Writes a value as it stands inside quotes.
fn escape(s: &str) -> (r: String)
    ensures
        r@ == escape_seq(s@),
{
    let n = s.unicode_len();
    let mut out = String::new();
    let mut i: usize = 0;
    proof {
        assert(s@.take(0) =~= Seq::<char>::empty());
    }
    while i < n
        invariant
            n == s@.len(),
            0 <= i <= n,
            out@ == escape_seq(s@.take(i as int)),
        decreases n - i,
    {
        let ghost c = s@[i as int];
        let cc = s.get_char(i);
        if cc == '"' {
            out.append("\\\"");
            proof {
                reveal_strlit("\\\"");
                assert("\\\""@ =~= escape_char(c));
            }
        } else if cc == '\\' {
            out.append("\\\\");
            proof {
                reveal_strlit("\\\\");
                assert("\\\\"@ =~= escape_char(c));
            }
        } else if cc == '\n' {
            out.append("\\n");
            proof {
                reveal_strlit("\\n");
                assert("\\n"@ =~= escape_char(c));
            }
        } else {
            let piece = s.substring_char(i, i + 1);
            out.append(piece);
            proof {
                assert(piece@ =~= escape_char(c));
            }
        }
        proof {
            assert(s@.take(i as int + 1) =~= s@.take(i as int) + seq![c]);
            lemma_escape_cat(s@.take(i as int), seq![c]);
            assert(seq![c].drop_first() =~= Seq::<char>::empty());
            assert(seq![c].len() == 1 && seq![c][0] == c);
            assert(escape_seq(seq![c]) == escape_char(c) + escape_seq(seq![c].drop_first()));
            assert(escape_seq(Seq::<char>::empty()) == Seq::<char>::empty());
            assert(escape_char(c) + Seq::<char>::empty() =~= escape_char(c));
            assert(escape_seq(seq![c]) == escape_char(c));
            assert(out@ == escape_seq(s@.take(i as int + 1)));
        }
        i = i + 1;
    }
    proof {
        assert(s@.take(n as int) =~= s@);
    }
    out
}

/// Reads a quoted body back, or reports it malformed.
fn unescape(s: &str) -> (r: Option<String>)
    ensures
        match r {
            Some(t) => unescape_seq(s@) == Some(t@),
            None => unescape_seq(s@) is None,
        },
{
    let n = s.unicode_len();
    let mut out = String::new();
    let mut i: usize = 0;
    proof {
        assert(s@.skip(0) =~= s@);
    }
    while i < n
        invariant
            n == s@.len(),
            0 <= i <= n,
            unescape_seq(s@) == match unescape_seq(s@.skip(i as int)) {
                None => None::<Seq<char>>,
                Some(t) => Some(out@ + t),
            },
        decreases n - i,
    {
        let ghost tail = s@.skip(i as int);
        proof {
            assert(tail[0] == s@[i as int]);
        }
        let cc = s.get_char(i);
        if cc == '\\' {
            if i + 1 >= n {
                proof {
                    assert(tail.len() == 1);
                }
                return None;
            }
            proof {
                assert(tail[1] == s@[i as int + 1]);
            }
            let ghost before = out@;
            let c2 = s.get_char(i + 1);
            if c2 == '"' {
                out.append("\"");
                proof {
                    reveal_strlit("\"");
                    assert("\""@ =~= seq!['"']);
                }
            } else if c2 == '\\' {
                out.append("\\");
                proof {
                    reveal_strlit("\\");
                    assert("\\"@ =~= seq!['\\']);
                }
            } else if c2 == 'n' {
                out.append("\n");
                proof {
                    reveal_strlit("\n");
                    assert("\n"@ =~= seq!['\n']);
                }
            } else {
                proof {
                    assert(unescape_char(tail[1]) is None);
                }
                return None;
            }
            proof {
                let e = unescape_char(tail[1])->Some_0;
                assert(out@ == before + seq![e]);
                assert(tail.skip(2) =~= s@.skip(i as int + 2));
                assert forall|t: Seq<char>|
                    unescape_seq(s@.skip(i as int + 2)) == Some(t) implies before + (seq![e] + t)
                    == out@ + t by {
                    assert(before + (seq![e] + t) =~= out@ + t);
                }
            }
            i = i + 2;
        } else if cc == '"' || cc == '\n' {
            return None;
        } else {
            let ghost before = out@;
            let piece = s.substring_char(i, i + 1);
            out.append(piece);
            proof {
                assert(out@ == before + seq![tail[0]]);
                assert(tail.drop_first() =~= s@.skip(i as int + 1));
                assert forall|t: Seq<char>|
                    unescape_seq(s@.skip(i as int + 1)) == Some(t) implies before + (seq![tail[0]]
                    + t) == out@ + t by {
                    assert(before + (seq![tail[0]] + t) =~= out@ + t);
                }
            }
            i = i + 1;
        }
    }
    proof {
        assert(s@.skip(n as int) =~= Seq::<char>::empty());
    }
    Some(out)
}

/// The lines of a text, as slices of it.
fn split_lines_exec<'a>(s: &'a str) -> (r: Vec<&'a str>)
    ensures
        line_views(r@) == split_lines(s@),
{
    let n = s.unicode_len();
    let mut r: Vec<&str> = Vec::new();
    let mut i: usize = 0;
    proof {
        assert(s@.skip(0) =~= s@);
        assert(line_views(r@) + split_lines(s@) =~= split_lines(s@));
    }
    while i < n
        invariant
            n == s@.len(),
            0 <= i <= n,
            split_lines(s@) == line_views(r@) + split_lines(s@.skip(i as int)),
        decreases n - i,
    {
        let mut j: usize = i;
        loop
            invariant
                n == s@.len(),
                i <= j <= n,
                forall|m: int| i <= m < j ==> s@[m] != '\n',
            ensures
                i <= j <= n,
                forall|m: int| i <= m < j ==> s@[m] != '\n',
                j < n ==> s@[j as int] == '\n',
            decreases n - j,
        {
            if j >= n {
                break;
            }
            if s.get_char(j) == '\n' {
                break;
            }
            j = j + 1;
        }
        let ghost tail = s@.skip(i as int);
        proof {
            assert(forall|m: int| 0 <= m < tail.len() ==> #[trigger] tail[m] == s@[i + m]);
            lemma_line_len_determined(tail, j - i);
        }
        let line = s.substring_char(i, j);
        let ghost before = r@;
        r.push(line);
        proof {
            assert(line_views(r@) =~= line_views(before) + seq![line@]);
        }
        if j < n {
            proof {
                assert(tail.take(j - i) =~= line@);
                assert(tail.skip(j - i + 1) =~= s@.skip(j as int + 1));
                assert(split_lines(tail) == seq![line@] + split_lines(s@.skip(j as int + 1)));
                assert(line_views(before) + (seq![line@] + split_lines(s@.skip(j as int + 1)))
                    =~= line_views(r@) + split_lines(s@.skip(j as int + 1)));
            }
            i = j + 1;
        } else {
            proof {
                assert(line_len(tail) == tail.len());
                assert(split_lines(tail) == seq![tail]);
                assert(tail =~= line@);
                assert(line_views(before) + seq![line@] =~= line_views(r@) + split_lines(s@.skip(
                    n as int,
                )));
                assert(s@.skip(n as int) =~= Seq::<char>::empty());
            }
            i = n;
        }
    }
    proof {
        assert(s@.skip(n as int) =~= Seq::<char>::empty());
        assert(line_views(r@) + Seq::<Seq<char>>::empty() =~= line_views(r@));
    }
    r
}

/// The text one optional field contributes: its line and newline, or
/// nothing.
pub open spec fn opt_text(name: Seq<char>, v: Option<Seq<char>>) -> Seq<char> {
    match v {
        Some(x) => field_line(name, x) + seq!['\n'],
        None => Seq::empty(),
    }
}

/// The text of one entry, written out as a concatenation.
pub proof fn lemma_entry_text(k: Seq<char>, d: DocV)
    ensures
        unlines(entry_lines(k, d)) == header_line(k) + seq!['\n'] + field_line(
            name_url(),
            d.url,
        ) + seq!['\n'] + opt_text(name_full(), d.full) + opt_text(name_rep(), d.rep) + opt_text(
            name_play(),
            d.play,
        ) + opt_text(name_search(), d.search),
{
    let h = header_line(k);
    let lu = field_line(name_url(), d.url);
    let lf = maybe_line(name_full(), d.full);
    let lr = maybe_line(name_rep(), d.rep);
    let lp = maybe_line(name_play(), d.play);
    let lsch = maybe_line(name_search(), d.search);
    lemma_unlines_cat(seq![h, lu] + lf + lr + lp, lsch);
    lemma_unlines_cat(seq![h, lu] + lf + lr, lp);
    lemma_unlines_cat(seq![h, lu] + lf, lr);
    lemma_unlines_cat(seq![h, lu], lf);
    assert(seq![h, lu].drop_first() =~= seq![lu]);
    assert(seq![lu].drop_first() =~= Seq::<Seq<char>>::empty());
    assert(unlines(Seq::<Seq<char>>::empty()) == Seq::<char>::empty());
    assert(unlines(seq![lu]) == lu + seq!['\n'] + unlines(seq![lu].drop_first()));
    assert(unlines(seq![h, lu]) == h + seq!['\n'] + unlines(seq![h, lu].drop_first()));
    assert(unlines(seq![h, lu]) == h + seq!['\n'] + (lu + seq!['\n'] + Seq::<char>::empty()));
    lemma_unlines_maybe(name_full(), d.full);
    lemma_unlines_maybe(name_rep(), d.rep);
    lemma_unlines_maybe(name_play(), d.play);
    lemma_unlines_maybe(name_search(), d.search);
    assert(unlines(entry_lines(k, d)) =~= h + seq!['\n'] + lu + seq!['\n'] + opt_text(
        name_full(),
        d.full,
    ) + opt_text(name_rep(), d.rep) + opt_text(name_play(), d.play) + opt_text(
        name_search(),
        d.search,
    ));
}

/// An optional field's line list joins to its text.
proof fn lemma_unlines_maybe(name: Seq<char>, v: Option<Seq<char>>)
    ensures
        unlines(maybe_line(name, v)) == opt_text(name, v),
{
    match v {
        Some(x) => {
            let l = field_line(name, x);
            assert(seq![l].drop_first() =~= Seq::<Seq<char>>::empty());
            assert(unlines(seq![l]) == l + seq!['\n'] + unlines(Seq::<Seq<char>>::empty()));
            assert(l + seq!['\n'] + Seq::<char>::empty() =~= l + seq!['\n']);
        },
        None => {},
    }
}

/// Writes one field line: the given opening (name, equals sign and the
/// opening quote), the escaped value, the closing quote and a newline.
fn append_field_piece(out: &mut String, opening: &str, v: &str)
    ensures
        final(out)@ == old(out)@ + opening@ + escape_seq(v@) + seq!['"', '\n'],
{
    out.append(opening);
    let ev = escape(v);
    out.append(ev.as_str());
    out.append("\"\n");
    proof {
        reveal_strlit("\"\n");
        assert("\"\n"@ =~= seq!['"', '\n']);
        assert(old(out)@ + opening@ + escape_seq(v@) + seq!['"', '\n'] =~= final(out)@);
    }
}

/// Writes one entry: its header line, then its field lines.
#[verifier::rlimit(80)]
#[verifier::spinoff_prover]
fn append_entry(out: &mut String, name: &str, doc: &Doc)
    ensures
        final(out)@ == old(out)@ + unlines(entry_lines(name@, doc@)),
{
    proof {
        reveal_strlit("[map.\"");
        reveal_strlit("\"]\n");
        reveal_strlit("url = \"");
        reveal_strlit("full = \"");
        reveal_strlit("rep = \"");
        reveal_strlit("play = \"");
        reveal_strlit("search = \"");
        assert("[map.\""@ =~= hdr_pre());
        assert("\"]\n"@ =~= hdr_suf() + seq!['\n']);
        assert("url = \""@ =~= name_url() + mid_eq());
        assert("full = \""@ =~= name_full() + mid_eq());
        assert("rep = \""@ =~= name_rep() + mid_eq());
        assert("play = \""@ =~= name_play() + mid_eq());
        assert("search = \""@ =~= name_search() + mid_eq());
        lemma_entry_text(name@, doc@);
    }
    out.append("[map.\"");
    let ek = escape(name);
    out.append(ek.as_str());
    out.append("\"]\n");
    let ghost after_header = out@;
    proof {
        assert(after_header =~= old(out)@ + (header_line(name@) + seq!['\n']));
    }
    append_field_piece(out, "url = \"", doc.url.as_str());
    let ghost after_url = out@;
    proof {
        assert(after_url =~= old(out)@ + (header_line(name@) + seq!['\n']) + (field_line(
            name_url(),
            doc@.url,
        ) + seq!['\n']));
    }
    match &doc.full {
        Some(v) => {
            append_field_piece(out, "full = \"", v.as_str());
            proof {
                assert(out@ =~= after_url + opt_text(name_full(), doc@.full));
            }
        },
        None => {
            proof {
                assert(out@ =~= after_url + opt_text(name_full(), doc@.full));
            }
        },
    }
    let ghost after_full = out@;
    match &doc.rep {
        Some(v) => {
            append_field_piece(out, "rep = \"", v.as_str());
            proof {
                assert(out@ =~= after_full + opt_text(name_rep(), doc@.rep));
            }
        },
        None => {
            proof {
                assert(out@ =~= after_full + opt_text(name_rep(), doc@.rep));
            }
        },
    }
    let ghost after_rep = out@;
    match &doc.play {
        Some(v) => {
            append_field_piece(out, "play = \"", v.as_str());
            proof {
                assert(out@ =~= after_rep + opt_text(name_play(), doc@.play));
            }
        },
        None => {
            proof {
                assert(out@ =~= after_rep + opt_text(name_play(), doc@.play));
            }
        },
    }
    let ghost after_play = out@;
    match &doc.search {
        Some(v) => {
            append_field_piece(out, "search = \"", v.as_str());
            proof {
                assert(out@ =~= after_play + opt_text(name_search(), doc@.search));
            }
        },
        None => {
            proof {
                assert(out@ =~= after_play + opt_text(name_search(), doc@.search));
            }
        },
    }
    proof {
        assert(out@ =~= old(out)@ + unlines(entry_lines(name@, doc@)));
    }
}

impl Config {
    /// The catalog's full textual form, entry by entry in key order.
    pub fn to_string(&self) -> (r: String)
        ensures
            r@ == emit_text(self.entries()),
    {
        let n = self.map.len();
        let mut out = String::new();
        let mut i: usize = 0;
        proof {
            assert(self.entries().take(0) =~= Seq::<(Seq<char>, DocV)>::empty());
        }
        while i < n
            invariant
                n == self.map@.len(),
                0 <= i <= n,
                out@ == emit_text(self.entries().take(i as int)),
            decreases n - i,
        {
            let ghost e = self.entries()[i as int];
            proof {
                assert(self.entries().take(i as int + 1) =~= self.entries().take(i as int)
                    + seq![e]);
                lemma_lines_of_cat(self.entries().take(i as int), seq![e]);
                lemma_unlines_cat(
                    lines_of(self.entries().take(i as int)),
                    lines_of(seq![e]),
                );
                assert(seq![e].drop_first() =~= Seq::<(Seq<char>, DocV)>::empty());
                assert(lines_of(seq![e]) == entry_lines(e.0, e.1) + lines_of(
                    Seq::<(Seq<char>, DocV)>::empty(),
                ));
                assert(entry_lines(e.0, e.1) + Seq::<Seq<char>>::empty() =~= entry_lines(
                    e.0,
                    e.1,
                ));
            }
            append_entry(&mut out, self.map[i].0.as_str(), &self.map[i].1);
            i = i + 1;
        }
        proof {
            assert(self.entries().take(n as int) =~= self.entries());
        }
        out
    }
}

/// The view of an optional owned string.
pub open spec fn opt_view(o: Option<String>) -> Option<Seq<char>> {
    match o {
        Some(s) => Some(s@),
        None => None,
    }
}

/// A section being read: its key, and every field still optional.
struct Partial {
    key: String,
    url: Option<String>,
    full: Option<String>,
    rep: Option<String>,
    play: Option<String>,
    search: Option<String>,
}

/// The read state a partial section stands for.
spec fn pdoc_view(p: Partial) -> PDoc {
    PDoc {
        url: opt_view(p.url),
        full: opt_view(p.full),
        rep: opt_view(p.rep),
        play: opt_view(p.play),
        search: opt_view(p.search),
    }
}

/// The open section, as the parse specification sees it.
spec fn curv(c: Option<Partial>) -> Option<(Seq<char>, PDoc)> {
    match c {
        None => None,
        Some(p) => Some((p.key@, pdoc_view(p))),
    }
}

/// Reads one field line of the given name, if the line is one.
fn parse_field(line: &str, name: &str) -> (r: Option<String>)
    ensures
        match r {
            Some(v) => is_field_line(line@, name@) && v@ == field_value(line@, name@),
            None => !is_field_line(line@, name@),
        },
{
    let ln = line.unicode_len();
    let nn = name.unicode_len();
    if ln < 5 || nn > ln - 5 {
        return None;
    }
    let pre = line.substring_char(0, nn);
    if !str_eq(pre, name) {
        proof {
            assert(line@.take(nn as int) =~= pre@);
        }
        return None;
    }
    let mid = line.substring_char(nn, nn + 4);
    proof {
        reveal_strlit(" = \"");
        assert(" = \""@ =~= mid_eq());
    }
    if !str_eq(mid, " = \"") {
        proof {
            assert(line@.subrange(nn as int, nn as int + 4) =~= mid@);
        }
        return None;
    }
    if line.get_char(ln - 1) != '"' {
        return None;
    }
    let body = line.substring_char(nn + 4, ln - 1);
    let r = unescape(body);
    proof {
        assert(line@.take(nn as int) =~= pre@);
        assert(line@.subrange(nn as int, nn as int + 4) =~= mid@);
        assert(line@.subrange(nn as int + 4, line@.len() - 1) =~= body@);
    }
    match r {
        Some(v) => Some(v),
        None => None,
    }
}

/// Reads a header line, if the line is one, yielding its key.
fn parse_header(line: &str) -> (r: Option<String>)
    ensures
        match r {
            Some(k) => is_header_line(line@) && k@ == header_key(line@) && k@.len() > 0,
            None => !is_header_line(line@),
        },
{
    let ln = line.unicode_len();
    if ln < 8 {
        return None;
    }
    proof {
        reveal_strlit("[map.\"");
        reveal_strlit("\"]");
        assert("[map.\""@ =~= hdr_pre());
        assert("\"]"@ =~= hdr_suf());
    }
    let pre = line.substring_char(0, 6);
    if !str_eq(pre, "[map.\"") {
        proof {
            assert(line@.take(6) =~= pre@);
        }
        return None;
    }
    let suf = line.substring_char(ln - 2, ln);
    if !str_eq(suf, "\"]") {
        proof {
            assert(line@.skip(line@.len() - 2) =~= suf@);
        }
        return None;
    }
    let body = line.substring_char(6, ln - 2);
    let r = unescape(body);
    proof {
        assert(line@.take(6) =~= pre@);
        assert(line@.skip(line@.len() - 2) =~= suf@);
        assert(line@.subrange(6, line@.len() - 2) =~= body@);
    }
    match r {
        Some(k) => {
            if k.as_str().unicode_len() == 0 {
                None
            } else {
                Some(k)
            }
        },
        None => None,
    }
}

/// Closes the open section, if any, into the catalog: the url must have
/// been set and the key must be new.
fn close_into(cfg: &mut Config, cur: Option<Partial>) -> (ok: bool)
    requires
        old(cfg).wf(),
        curv(cur) matches Some(kp) ==> kp.0.len() > 0,
    ensures
        match close_opt(old(cfg).entries(), curv(cur)) {
            Some(a) => ok && final(cfg).wf() && final(cfg).entries() == a && final(cfg).loc == old(
                cfg,
            ).loc,
            None => !ok && *final(cfg) == *old(cfg),
        },
{
    match cur {
        None => true,
        Some(p) => {
            let ghost pv = pdoc_view(p);
            let Partial { key, url, full, rep, play, search } = p;
            match url {
                None => false,
                Some(u) => {
                    let dup = match cfg.lookup_exact(key.as_str()) {
                        Some(_) => true,
                        None => false,
                    };
                    if dup {
                        false
                    } else {
                        let doc = Doc { full, url: u, rep, play, search };
                        proof {
                            assert(doc@ =~= close_doc(pv)->Some_0);
                        }
                        cfg.insert_or_replace(key, doc);
                        true
                    }
                },
            }
        },
    }
}

/// Parses a catalog's textual form: the entries end up in ascending key
/// order, and a `loc` note before the first entry is kept.  Exactly the
/// texts the parse specification accepts are accepted; anything else is a
/// `Parse` error.
#[verifier::rlimit(90)]
#[verifier::spinoff_prover]
pub fn parse_config(text: &str) -> (r: Result<Config, DocError>)
    ensures
        match r {
            Ok(c) => {
                &&& c.wf()
                &&& parse_ok(text@) matches Some(pr) && c.entries() == pr.0 && opt_view(c.loc)
                    == pr.1
            },
            Err(e) => parse_ok(text@) is None && e.kind == DocErrorKind::Parse,
        },
{
    let lines = split_lines_exec(text);
    let ghost ls = split_lines(text@);
    let n = lines.len();
    let mut cfg = Config::new_empty();
    let mut cur: Option<Partial> = None;
    let mut locv: Option<String> = None;
    let mut i: usize = 0;
    proof {
        reveal_strlit("url");
        reveal_strlit("full");
        reveal_strlit("rep");
        reveal_strlit("play");
        reveal_strlit("search");
        reveal_strlit("loc");
        assert("url"@ =~= name_url());
        assert("full"@ =~= name_full());
        assert("rep"@ =~= name_rep());
        assert("play"@ =~= name_play());
        assert("search"@ =~= name_search());
        assert("loc"@ =~= name_loc());
        assert(ls.skip(0) =~= ls);
        assert(cfg.entries() =~= Seq::<(Seq<char>, DocV)>::empty());
    }
    while i < n
        invariant
            n == lines@.len(),
            ls == split_lines(text@),
            line_views(lines@) == ls,
            0 <= i <= n,
            cfg.wf(),
            cfg.loc is None,
            curv(cur) matches Some(kp) ==> kp.0.len() > 0,
            run_lines(ls, Seq::empty(), None, None) == run_lines(
                ls.skip(i as int),
                cfg.entries(),
                curv(cur),
                opt_view(locv),
            ),
            "url"@ == name_url(),
            "full"@ == name_full(),
            "rep"@ == name_rep(),
            "play"@ == name_play(),
            "search"@ == name_search(),
            "loc"@ == name_loc(),
        decreases n - i,
    {
        proof {
            assert(ls.skip(i as int)[0] == ls[i as int]);
            assert(ls[i as int] == lines@[i as int]@);
            assert(ls.skip(i as int).drop_first() =~= ls.skip(i as int + 1));
        }
        let line = lines[i];
        let ghost l = line@;
        if line.unicode_len() == 0 {
        } else if let Some(k) = parse_header(line) {
            let prev = cur;
            let ghost prevv = curv(prev);
            if !close_into(&mut cfg, prev) {
                return Err(DocError::new(DocErrorKind::Parse, "config text is malformed"));
            }
            cur = Some(
                Partial { key: k, url: None, full: None, rep: None, play: None, search: None },
            );
            proof {
                assert(curv(cur)->Some_0.1 =~= empty_pdoc());
            }
        } else if let Some(v) = parse_field(line, "url") {
            let prev = cur;
            let ghost prevv = curv(prev);
            match prev {
                Some(p) => {
                    if p.url.is_some() {
                        return Err(
                            DocError::new(DocErrorKind::Parse, "config text is malformed"),
                        );
                    }
                    let st2 = Partial { url: Some(v), ..p };
                    proof {
                        assert(pdoc_view(st2) =~= PDoc {
                            url: Some(field_value(l, name_url())),
                            ..prevv->Some_0.1
                        });
                    }
                    cur = Some(st2);
                },
                None => {
                    return Err(DocError::new(DocErrorKind::Parse, "config text is malformed"));
                },
            }
        } else if let Some(v) = parse_field(line, "full") {
            let prev = cur;
            let ghost prevv = curv(prev);
            match prev {
                Some(p) => {
                    if p.full.is_some() {
                        return Err(
                            DocError::new(DocErrorKind::Parse, "config text is malformed"),
                        );
                    }
                    let st2 = Partial { full: Some(v), ..p };
                    proof {
                        assert(pdoc_view(st2) =~= PDoc {
                            full: Some(field_value(l, name_full())),
                            ..prevv->Some_0.1
                        });
                    }
                    cur = Some(st2);
                },
                None => {
                    return Err(DocError::new(DocErrorKind::Parse, "config text is malformed"));
                },
            }
        } else if let Some(v) = parse_field(line, "rep") {
            let prev = cur;
            let ghost prevv = curv(prev);
            match prev {
                Some(p) => {
                    if p.rep.is_some() {
                        return Err(
                            DocError::new(DocErrorKind::Parse, "config text is malformed"),
                        );
                    }
                    let st2 = Partial { rep: Some(v), ..p };
                    proof {
                        assert(pdoc_view(st2) =~= PDoc {
                            rep: Some(field_value(l, name_rep())),
                            ..prevv->Some_0.1
                        });
                    }
                    cur = Some(st2);
                },
                None => {
                    return Err(DocError::new(DocErrorKind::Parse, "config text is malformed"));
                },
            }
        } else if let Some(v) = parse_field(line, "play") {
            let prev = cur;
            let ghost prevv = curv(prev);
            match prev {
                Some(p) => {
                    if p.play.is_some() {
                        return Err(
                            DocError::new(DocErrorKind::Parse, "config text is malformed"),
                        );
                    }
                    let st2 = Partial { play: Some(v), ..p };
                    proof {
                        assert(pdoc_view(st2) =~= PDoc {
                            play: Some(field_value(l, name_play())),
                            ..prevv->Some_0.1
                        });
                    }
                    cur = Some(st2);
                },
                None => {
                    return Err(DocError::new(DocErrorKind::Parse, "config text is malformed"));
                },
            }
        } else if let Some(v) = parse_field(line, "search") {
            let prev = cur;
            let ghost prevv = curv(prev);
            match prev {
                Some(p) => {
                    if p.search.is_some() {
                        return Err(
                            DocError::new(DocErrorKind::Parse, "config text is malformed"),
                        );
                    }
                    let st2 = Partial { search: Some(v), ..p };
                    proof {
                        assert(pdoc_view(st2) =~= PDoc {
                            search: Some(field_value(l, name_search())),
                            ..prevv->Some_0.1
                        });
                    }
                    cur = Some(st2);
                },
                None => {
                    return Err(DocError::new(DocErrorKind::Parse, "config text is malformed"));
                },
            }
        } else if let Some(v) = parse_field(line, "loc") {
            let no_cur = cur.is_none();
            if no_cur && cfg.map.len() == 0 && locv.is_none() {
                proof {
                    assert(cfg.entries().len() == 0);
                }
                locv = Some(v);
            } else {
                return Err(DocError::new(DocErrorKind::Parse, "config text is malformed"));
            }
        } else {
            return Err(DocError::new(DocErrorKind::Parse, "config text is malformed"));
        }
        i = i + 1;
    }
    proof {
        assert(ls.skip(n as int) =~= Seq::<Seq<char>>::empty());
    }
    let prev = cur;
    if !close_into(&mut cfg, prev) {
        return Err(DocError::new(DocErrorKind::Parse, "config text is malformed"));
    }
    cfg.loc = locv;
    Ok(cfg)
}

} // verus!
