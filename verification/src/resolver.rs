//! Name resolution: exact key match first, then alias match, and when
//! neither holds, a suggestion list drawn from the display labels.

use vstd::prelude::*;

use crate::catalog::{alias_lookup, entries_of, lookup, Config, EntriesV};
use crate::entry::{printed_label, Doc, DocV};
use crate::strutil::contains_seq;

verus! {

/// Whether the entry belongs in the suggestion list for `name`: its display
/// label holds the first character of `name`, and an empty `name` suggests
/// every entry.
pub open spec fn suggested(e: (Seq<char>, DocV), name: Seq<char>) -> bool {
    name.len() == 0 || contains_seq(printed_label(e.0, e.1.full), name.subrange(0, 1))
}

/// The entries suggested for `name`, in catalog order.
pub open spec fn suggestions(s: EntriesV, name: Seq<char>) -> EntriesV
    decreases s.len(),
{
    if s.len() == 0 {
        Seq::empty()
    } else if suggested(s[0], name) {
        seq![s[0]] + suggestions(s.drop_first(), name)
    } else {
        suggestions(s.drop_first(), name)
    }
}

/// The outcome of resolving a name against a catalog.
pub enum Resolution {
    /// The name is a key; its entry.
    Found(String, Doc),
    /// The name is no key but is some entry's full name; the first such
    /// entry, with its key.
    FoundByAlias(String, Doc),
    /// Neither; the suggested entries, possibly none.
    Suggestions(Vec<(String, Doc)>),
}

/// The lookup chain: `Found` exactly when the name is a key,
/// else `FoundByAlias` exactly when some entry's full name equals the
/// name, else `Suggestions`.
pub fn resolve(catalog: &Config, name: &str) -> (r: Resolution)
    ensures
        lookup(catalog.entries(), name@) is Some ==> (r matches Resolution::Found(k, d) && k@
            == name@ && Some(d@) == lookup(catalog.entries(), name@)),
        lookup(catalog.entries(), name@) is None && alias_lookup(catalog.entries(), name@)
            is Some ==> (r matches Resolution::FoundByAlias(k, d) && Some((k@, d@))
            == alias_lookup(catalog.entries(), name@)),
        lookup(catalog.entries(), name@) is None && alias_lookup(catalog.entries(), name@)
            is None ==> (r matches Resolution::Suggestions(list) && entries_of(list@)
            == suggestions(catalog.entries(), name@)),
{
    match catalog.lookup_exact(name) {
        Some(d) => {
            return Resolution::Found(String::from_str(name), d.clone());
        },
        None => {},
    }
    match catalog.lookup_by_alias(name) {
        Some(p) => {
            return Resolution::FoundByAlias(p.0.clone(), p.1.clone());
        },
        None => {},
    }
    let n = catalog.map.len();
    let mut list: Vec<(String, Doc)> = Vec::new();
    let mut i: usize = 0;
    proof {
        assert(catalog.entries().skip(0) =~= catalog.entries());
    }
    while i < n
        invariant
            n == catalog.map@.len(),
            0 <= i <= n,
            suggestions(catalog.entries(), name@) == entries_of(list@) + suggestions(
                catalog.entries().skip(i as int),
                name@,
            ),
        decreases n - i,
    {
        proof {
            assert(catalog.entries().skip(i as int)[0] == catalog.entries()[i as int]);
            assert(catalog.entries().skip(i as int).drop_first() =~= catalog.entries().skip(
                i as int + 1,
            ));
        }
        let key = &catalog.map[i].0;
        let doc = &catalog.map[i].1;
        let keep = if name.unicode_len() == 0 {
            true
        } else {
            let first = name.substring_char(0, 1);
            doc.contains(key.as_str(), first)
        };
        if keep {
            let ghost before = list@;
            list.push((key.clone(), doc.clone()));
            proof {
                assert(entries_of(list@) =~= entries_of(before) + seq![
                    (catalog.entries()[i as int]),
                ]);
            }
        }
        i = i + 1;
    }
    proof {
        assert(catalog.entries().skip(n as int) =~= Seq::<(Seq<char>, DocV)>::empty());
        assert(entries_of(list@) + Seq::<(Seq<char>, DocV)>::empty() =~= entries_of(list@));
    }
    Resolution::Suggestions(list)
}

/// The characters trimming strips.
pub open spec fn is_space(c: char) -> bool {
    c == ' ' || c == '\t' || c == '\r' || c == '\n'
}

/// A sequence without its leading spaces.
pub open spec fn trim_start_seq(s: Seq<char>) -> Seq<char>
    decreases s.len(),
{
    if s.len() > 0 && is_space(s[0]) {
        trim_start_seq(s.drop_first())
    } else {
        s
    }
}

/// A sequence without its trailing spaces.
pub open spec fn trim_end_seq(s: Seq<char>) -> Seq<char>
    decreases s.len(),
{
    if s.len() > 0 && is_space(s[s.len() - 1]) {
        trim_end_seq(s.drop_last())
    } else {
        s
    }
}

/// A sequence without its surrounding spaces.
pub open spec fn trim_seq(s: Seq<char>) -> Seq<char> {
    trim_end_seq(trim_start_seq(s))
}

/// The first `{}` slot of a template replaced by `arg`; a template
/// without a slot stands unchanged.
pub open spec fn subst_first(t: Seq<char>, arg: Seq<char>) -> Seq<char>
    decreases t.len(),
{
    if t.len() < 2 {
        t
    } else if t[0] == '{' && t[1] == '}' {
        arg + t.skip(2)
    } else {
        seq![t[0]] + subst_first(t.drop_first(), arg)
    }
}

/// The fallback search template: a generic web search engine.
pub open spec fn generic_search_template() -> Seq<char> {
    "https://www.google.com/search?q={}"@
}

proof fn lemma_trim_start_at(s: Seq<char>, a: int)
    requires
        0 <= a <= s.len(),
        forall|j: int| 0 <= j < a ==> is_space(s[j]),
        a < s.len() ==> !is_space(s[a]),
    ensures
        trim_start_seq(s) == s.skip(a),
    decreases a,
{
    if a == 0 {
        assert(s.skip(0) =~= s);
    } else {
        assert(forall|j: int|
            0 <= j < s.drop_first().len() ==> #[trigger] s.drop_first()[j] == s[j + 1]);
        lemma_trim_start_at(s.drop_first(), a - 1);
        assert(s.drop_first().skip(a - 1) =~= s.skip(a));
    }
}

proof fn lemma_trim_end_at(s: Seq<char>, b: int)
    requires
        0 <= b <= s.len(),
        forall|j: int| b <= j < s.len() ==> is_space(s[j]),
        b > 0 ==> !is_space(s[b - 1]),
    ensures
        trim_end_seq(s) == s.take(b),
    decreases s.len(),
{
    if b == s.len() {
        if s.len() > 0 && is_space(s[s.len() - 1]) {
            assert(false);
        }
        assert(s.take(b) =~= s);
    } else {
        assert(is_space(s[s.len() - 1]));
        assert(forall|j: int|
            0 <= j < s.drop_last().len() ==> #[trigger] s.drop_last()[j] == s[j]);
        lemma_trim_end_at(s.drop_last(), b);
        assert(s.drop_last().take(b) =~= s.take(b));
    }
}

fn is_space_exec(c: char) -> (r: bool)
    ensures
        r == is_space(c),
{
    c == ' ' || c == '\t' || c == '\r' || c == '\n'
}

/// The slice without its surrounding whitespace.
pub fn trim_slice<'a>(s: &'a str) -> (r: &'a str)
    ensures
        r@ == trim_seq(s@),
{
    let n = s.unicode_len();
    let mut a: usize = 0;
    loop
        invariant
            n == s@.len(),
            0 <= a <= n,
            forall|j: int| 0 <= j < a ==> is_space(s@[j]),
        ensures
            0 <= a <= n,
            forall|j: int| 0 <= j < a ==> is_space(s@[j]),
            a < n ==> !is_space(s@[a as int]),
        decreases n - a,
    {
        if a >= n {
            break;
        }
        if !is_space_exec(s.get_char(a)) {
            break;
        }
        a = a + 1;
    }
    let mut b: usize = n;
    loop
        invariant
            n == s@.len(),
            a <= b <= n,
            forall|j: int| 0 <= j < a ==> is_space(s@[j]),
            a < n ==> !is_space(s@[a as int]),
            forall|j: int| b <= j < n ==> is_space(s@[j]),
        ensures
            a <= b <= n,
            forall|j: int| b <= j < n ==> is_space(s@[j]),
            b > a ==> !is_space(s@[b - 1]),
            b == a || b > a,
        decreases b,
    {
        if b <= a {
            break;
        }
        if !is_space_exec(s.get_char(b - 1)) {
            break;
        }
        b = b - 1;
    }
    proof {
        lemma_trim_start_at(s@, a as int);
        let t = s@.skip(a as int);
        assert(forall|j: int| 0 <= j < t.len() ==> #[trigger] t[j] == s@[j + a]);
        if b == a {
            lemma_trim_end_at(t, 0);
        } else {
            lemma_trim_end_at(t, b - a);
        }
        assert(t.take(b - a) =~= s@.subrange(a as int, b as int));
    }
    s.substring_char(a, b)
}

/// Replaces the first `{}` slot of the template with `arg`.
pub fn subst_template(t: &str, arg: &str) -> (r: String)
    ensures
        r@ == subst_first(t@, arg@),
{
    let n = t.unicode_len();
    let mut out = String::new();
    let mut i: usize = 0;
    proof {
        assert(t@.skip(0) =~= t@);
    }
    while i < n
        invariant
            n == t@.len(),
            0 <= i <= n,
            subst_first(t@, arg@) == out@ + subst_first(t@.skip(i as int), arg@),
        decreases n - i,
    {
        let ghost tail = t@.skip(i as int);
        proof {
            assert(tail[0] == t@[i as int]);
            assert(tail.drop_first() =~= t@.skip(i as int + 1));
        }
        let c = t.get_char(i);
        if c == '{' && i + 1 < n && t.get_char(i + 1) == '}' {
            proof {
                assert(tail[1] == t@[i as int + 1]);
                assert(tail.skip(2) =~= t@.skip(i as int + 2));
            }
            out.append(arg);
            let rest = t.substring_char(i + 2, n);
            out.append(rest);
            proof {
                assert(out@ =~= subst_first(t@, arg@));
            }
            return out;
        }
        let ghost before = out@;
        let piece = t.substring_char(i, i + 1);
        out.append(piece);
        proof {
            if tail.len() >= 2 {
                assert(subst_first(tail, arg@) == seq![tail[0]] + subst_first(
                    tail.drop_first(),
                    arg@,
                ));
            } else {
                assert(tail.len() == 1);
                assert(t@.skip(i as int + 1) =~= Seq::<char>::empty());
                assert(subst_first(tail, arg@) == tail);
                assert(tail =~= seq![tail[0]]);
                assert(subst_first(Seq::<char>::empty(), arg@) == Seq::<char>::empty());
            }
            assert(before + (seq![tail[0]] + subst_first(t@.skip(i as int + 1), arg@)) =~= out@
                + subst_first(t@.skip(i as int + 1), arg@));
        }
        i = i + 1;
    }
    proof {
        assert(t@.skip(n as int) =~= Seq::<char>::empty());
        assert(out@ + Seq::<char>::empty() =~= out@);
    }
    out
}

/// The search url: the entry's own template when it has one, else the
/// generic engine; the searched text is the free content alone under an
/// entry template, else the name and then the content, trimmed either
/// way.
pub fn build_search_url(template: Option<&String>, name: &str, content: Option<&String>) -> (r:
    String)
    ensures
        ({
            let st = match template {
                Some(t) => t@,
                None => generic_search_template(),
            };
            let base = match template {
                Some(t) => Seq::<char>::empty(),
                None => name@ + " "@,
            };
            let sc = match content {
                Some(c) => base + c@,
                None => base,
            };
            r@ == subst_first(st, trim_seq(sc))
        }),
{
    let mut sc = String::new();
    if template.is_none() {
        sc.append(name);
        sc.append(" ");
    }
    proof {
        if template is None {
            assert(sc@ =~= name@ + " "@);
        } else {
            assert(sc@ =~= Seq::<char>::empty());
        }
    }
    match content {
        Some(c) => sc.append(c.as_str()),
        None => {},
    }
    let trimmed = trim_slice(sc.as_str());
    match template {
        Some(t) => subst_template(t.as_str(), trimmed),
        None => subst_template("https://www.google.com/search?q={}", trimmed),
    }
}

} // verus!
