//! The catalog: a mapping from short names to descriptors, kept as a list
//! of entries in strictly ascending key order.  Lookup, alias lookup,
//! ordered iteration, insertion and right-biased merge live here.

use vstd::prelude::*;

use crate::entry::{Doc, DocV};
use crate::strutil::{lemma_lex_trans, lemma_lex_trichotomy, lex_lt, str_eq, str_lt};

verus! {

/// The mathematical image of a catalog: its entries in order.
pub type EntriesV = Seq<(Seq<char>, DocV)>;

/// The views of a list of owned entries.
pub open spec fn entries_of(s: Seq<(String, Doc)>) -> EntriesV {
    s.map_values(|p: (String, Doc)| (p.0@, p.1@))
}

/// Keys strictly ascend, so every key occurs once.
pub open spec fn sorted(s: EntriesV) -> bool {
    forall|i: int, j: int|
        0 <= i < j < s.len() ==> lex_lt(#[trigger] s[i].0, #[trigger] s[j].0)
}

/// First-match key lookup over an entry list.
pub open spec fn lookup(s: EntriesV, k: Seq<char>) -> Option<DocV>
    decreases s.len(),
{
    if s.len() == 0 {
        None
    } else if s[0].0 == k {
        Some(s[0].1)
    } else {
        lookup(s.drop_first(), k)
    }
}

/// The first entry, in order, whose full name equals `name`.
pub open spec fn alias_lookup(s: EntriesV, name: Seq<char>) -> Option<(Seq<char>, DocV)>
    decreases s.len(),
{
    if s.len() == 0 {
        None
    } else if s[0].1.full == Some(name) {
        Some(s[0])
    } else {
        alias_lookup(s.drop_first(), name)
    }
}

/// Insertion into a sorted entry list: an existing entry for the key is
/// replaced wholesale, otherwise the entry enters at its ordered place.
pub open spec fn insert_sorted(s: EntriesV, k: Seq<char>, v: DocV) -> EntriesV
    decreases s.len(),
{
    if s.len() == 0 {
        seq![(k, v)]
    } else if lex_lt(k, s[0].0) {
        seq![(k, v)] + s
    } else if s[0].0 == k {
        seq![(k, v)] + s.drop_first()
    } else {
        seq![s[0]] + insert_sorted(s.drop_first(), k, v)
    }
}

/// Right-biased merge: every entry of `b` is inserted into `a` in order.
pub open spec fn merge_entries(a: EntriesV, b: EntriesV) -> EntriesV
    decreases b.len(),
{
    if b.len() == 0 {
        a
    } else {
        merge_entries(insert_sorted(a, b[0].0, b[0].1), b.drop_first())
    }
}

/// A key below every key of `s` is absent from `s`.
proof fn lemma_lookup_none_when_lt_all(s: EntriesV, k: Seq<char>)
    requires
        forall|i: int| 0 <= i < s.len() ==> lex_lt(k, #[trigger] s[i].0),
    ensures
        lookup(s, k) is None,
    decreases s.len(),
{
    if s.len() > 0 {
        lemma_lex_trichotomy(k, s[0].0);
        assert(forall|i: int|
            0 <= i < s.drop_first().len() ==> #[trigger] s.drop_first()[i] == s[i + 1]);
        lemma_lookup_none_when_lt_all(s.drop_first(), k);
    }
}

/// A key is found exactly when some entry holds it.
pub proof fn lemma_lookup_some_iff_key(s: EntriesV, k: Seq<char>)
    ensures
        lookup(s, k) is Some <==> exists|i: int| 0 <= i < s.len() && (#[trigger] s[i].0) == k,
    decreases s.len(),
{
    if s.len() > 0 {
        lemma_lookup_some_iff_key(s.drop_first(), k);
        if s[0].0 == k {
        } else {
            assert(forall|i: int|
                0 <= i < s.drop_first().len() ==> #[trigger] s.drop_first()[i] == s[i + 1]);
            if lookup(s, k) is Some {
                let i = choose|i: int|
                    0 <= i < s.drop_first().len() && (#[trigger] s.drop_first()[i].0) == k;
                assert(s[i + 1].0 == k);
            }
            if exists|i: int| 0 <= i < s.len() && (#[trigger] s[i].0) == k {
                let i = choose|i: int| 0 <= i < s.len() && (#[trigger] s[i].0) == k;
                assert(s.drop_first()[i - 1].0 == k);
            }
        }
    }
}

/// What insertion does to lookups: the inserted key maps to the new value
/// and every other key keeps its binding.  The inserted list is sorted
/// again, and each of its keys is the new key or an old one.
pub proof fn lemma_insert_sorted(s: EntriesV, k: Seq<char>, v: DocV)
    requires
        sorted(s),
    ensures
        sorted(insert_sorted(s, k, v)),
        lookup(insert_sorted(s, k, v), k) == Some(v),
        forall|q: Seq<char>| q != k ==> lookup(insert_sorted(s, k, v), q) == lookup(s, q),
        forall|i: int|
            0 <= i < insert_sorted(s, k, v).len() ==> ((#[trigger] insert_sorted(s, k, v)[i].0)
                == k || exists|j: int| 0 <= j < s.len() && (#[trigger] s[j].0) == insert_sorted(
                s,
                k,
                v,
            )[i].0),
    decreases s.len(),
{
    let r = insert_sorted(s, k, v);
    if s.len() == 0 {
        assert(r == seq![(k, v)]);
        assert(r.drop_first() =~= Seq::<(Seq<char>, DocV)>::empty());
        assert forall|q: Seq<char>| q != k implies lookup(r, q) == lookup(s, q) by {
            assert(lookup(r, q) == lookup(r.drop_first(), q));
        }
    } else if lex_lt(k, s[0].0) {
        assert(r == seq![(k, v)] + s);
        lemma_lex_trichotomy(k, s[0].0);
        assert(r.drop_first() =~= s);
        assert forall|i: int, j: int| 0 <= i < j < r.len() implies lex_lt(
            #[trigger] r[i].0,
            #[trigger] r[j].0,
        ) by {
            if i == 0 {
                if j > 1 {
                    lemma_lex_trans(k, s[0].0, s[j - 1].0);
                }
            } else {
                assert(r[i] == s[i - 1] && r[j] == s[j - 1]);
            }
        }
    } else if s[0].0 == k {
        assert(r == seq![(k, v)] + s.drop_first());
        assert(r.drop_first() =~= s.drop_first());
        assert forall|i: int, j: int| 0 <= i < j < r.len() implies lex_lt(
            #[trigger] r[i].0,
            #[trigger] r[j].0,
        ) by {
            if i == 0 {
                assert(r[j] == s.drop_first()[j - 1]);
                assert(s.drop_first()[j - 1] == s[j]);
            } else {
                assert(r[i] == s[i] && r[j] == s[j]);
            }
        }
        assert forall|q: Seq<char>| q != k implies lookup(r, q) == lookup(s, q) by {
            assert(lookup(r, q) == lookup(r.drop_first(), q));
            assert(lookup(s, q) == lookup(s.drop_first(), q));
        }
        assert forall|i: int|
            0 <= i < r.len() implies ((#[trigger] r[i].0) == k || exists|j: int|
            0 <= j < s.len() && (#[trigger] s[j].0) == r[i].0) by {
            if i > 0 {
                assert(s[i].0 == r[i].0);
            }
        }
    } else {
        lemma_lex_trichotomy(k, s[0].0);
        assert(lex_lt(s[0].0, k));
        assert(forall|i: int|
            0 <= i < s.drop_first().len() ==> #[trigger] s.drop_first()[i] == s[i + 1]);
        assert(sorted(s.drop_first()));
        lemma_insert_sorted(s.drop_first(), k, v);
        let t = insert_sorted(s.drop_first(), k, v);
        assert(r == seq![s[0]] + t);
        assert(r.drop_first() =~= t);
        assert(r[0] == s[0]);
        // every key of the tail-insert exceeds the head key
        assert forall|i: int| 0 <= i < t.len() implies lex_lt(s[0].0, #[trigger] t[i].0) by {
            if t[i].0 == k {
            } else {
                let j = choose|j: int|
                    0 <= j < s.drop_first().len() && (#[trigger] s.drop_first()[j].0) == t[i].0;
                assert(s[j + 1].0 == t[i].0);
            }
        }
        assert forall|i: int, j: int| 0 <= i < j < r.len() implies lex_lt(
            #[trigger] r[i].0,
            #[trigger] r[j].0,
        ) by {
            if i == 0 {
                assert(r[j] == t[j - 1]);
            } else {
                assert(r[i] == t[i - 1] && r[j] == t[j - 1]);
            }
        }
        assert(lookup(r, k) == lookup(t, k));
        assert forall|q: Seq<char>| q != k implies lookup(r, q) == lookup(s, q) by {
            if q == s[0].0 {
            } else {
                assert(lookup(r, q) == lookup(t, q));
                assert(lookup(s, q) == lookup(s.drop_first(), q));
            }
        }
        assert forall|i: int|
            0 <= i < r.len() implies ((#[trigger] r[i].0) == k || exists|j: int|
            0 <= j < s.len() && (#[trigger] s[j].0) == r[i].0) by {
            if i == 0 {
                assert(s[0].0 == r[0].0);
            } else {
                assert(r[i] == t[i - 1]);
                if t[i - 1].0 != k {
                    let j = choose|j: int|
                        0 <= j < s.drop_first().len() && (#[trigger] s.drop_first()[j].0) == t[i
                            - 1].0;
                    assert(s[j + 1].0 == r[i].0);
                }
            }
        }
    }
}

/// Inserting a key above every present key appends the entry at the end.
pub proof fn lemma_insert_sorted_append(s: EntriesV, k: Seq<char>, v: DocV)
    requires
        forall|i: int| 0 <= i < s.len() ==> lex_lt(#[trigger] s[i].0, k),
    ensures
        insert_sorted(s, k, v) == s.push((k, v)),
    decreases s.len(),
{
    if s.len() == 0 {
        assert(insert_sorted(s, k, v) =~= s.push((k, v)));
    } else {
        lemma_lex_trichotomy(k, s[0].0);
        assert(forall|i: int|
            0 <= i < s.drop_first().len() ==> #[trigger] s.drop_first()[i] == s[i + 1]);
        lemma_insert_sorted_append(s.drop_first(), k, v);
        assert(insert_sorted(s, k, v) =~= s.push((k, v)));
    }
}

/// What merge does to lookups: a key bound in `b` gets `b`'s binding,
/// any other key keeps its binding from `a`.  The result is sorted.
pub proof fn lemma_merge_entries(a: EntriesV, b: EntriesV)
    requires
        sorted(a),
        sorted(b),
    ensures
        sorted(merge_entries(a, b)),
        forall|k: Seq<char>|
            #[trigger] lookup(merge_entries(a, b), k) == if lookup(b, k) is Some {
                lookup(b, k)
            } else {
                lookup(a, k)
            },
    decreases b.len(),
{
    if b.len() == 0 {
        assert(forall|k: Seq<char>| #[trigger] lookup(b, k) is None);
    } else {
        let a1 = insert_sorted(a, b[0].0, b[0].1);
        lemma_insert_sorted(a, b[0].0, b[0].1);
        assert(forall|i: int|
            0 <= i < b.drop_first().len() ==> #[trigger] b.drop_first()[i] == b[i + 1]);
        assert(sorted(b.drop_first()));
        lemma_merge_entries(a1, b.drop_first());
        assert forall|k: Seq<char>|
            #[trigger] lookup(merge_entries(a, b), k) == if lookup(b, k) is Some {
                lookup(b, k)
            } else {
                lookup(a, k)
            } by {
            assert(merge_entries(a, b) == merge_entries(a1, b.drop_first()));
            if k == b[0].0 {
                assert forall|i: int|
                    0 <= i < b.drop_first().len() implies lex_lt(
                    k,
                    #[trigger] b.drop_first()[i].0,
                ) by {
                    assert(b.drop_first()[i] == b[i + 1]);
                }
                lemma_lookup_none_when_lt_all(b.drop_first(), k);
                assert(lookup(b, k) == Some(b[0].1));
                assert(lookup(a1, k) == Some(b[0].1));
            } else {
                assert(lookup(b, k) == lookup(b.drop_first(), k));
                assert(lookup(a1, k) == lookup(a, k));
            }
        }
    }
}

/// Two sorted entry lists that answer every lookup alike are equal.
pub proof fn lemma_sorted_lookup_ext(a: EntriesV, b: EntriesV)
    requires
        sorted(a),
        sorted(b),
        forall|k: Seq<char>| #[trigger] lookup(a, k) == lookup(b, k),
    ensures
        a == b,
    decreases a.len(),
{
    if a.len() == 0 && b.len() == 0 {
        assert(a =~= b);
    } else if a.len() == 0 {
        assert(lookup(b, b[0].0) == Some(b[0].1));
        assert(lookup(a, b[0].0) is None);
    } else if b.len() == 0 {
        assert(lookup(a, a[0].0) == Some(a[0].1));
        assert(lookup(b, a[0].0) is None);
    } else {
        let ka = a[0].0;
        let kb = b[0].0;
        assert(lookup(a, ka) == Some(a[0].1));
        assert(lookup(b, kb) == Some(b[0].1));
        // each head key is the least key of its list, so the heads agree
        if ka != kb {
            lemma_lex_trichotomy(ka, kb);
            if lex_lt(ka, kb) {
                // ka is bound in b, yet every key of b is kb or larger
                lemma_lookup_some_iff_key(b, ka);
                let i = choose|i: int| 0 <= i < b.len() && (#[trigger] b[i].0) == ka;
                assert(i > 0);
                assert(lex_lt(kb, b[i].0));
                lemma_lex_trichotomy(kb, ka);
            } else {
                lemma_lookup_some_iff_key(a, kb);
                let i = choose|i: int| 0 <= i < a.len() && (#[trigger] a[i].0) == kb;
                assert(i > 0);
                assert(lex_lt(ka, a[i].0));
                lemma_lex_trichotomy(ka, kb);
            }
        }
        assert(ka == kb);
        assert(a[0] == b[0]);
        assert(forall|i: int|
            0 <= i < a.drop_first().len() ==> #[trigger] a.drop_first()[i] == a[i + 1]);
        assert(forall|i: int|
            0 <= i < b.drop_first().len() ==> #[trigger] b.drop_first()[i] == b[i + 1]);
        assert(sorted(a.drop_first()));
        assert(sorted(b.drop_first()));
        assert forall|k: Seq<char>|
            #[trigger] lookup(a.drop_first(), k) == lookup(b.drop_first(), k) by {
            if k == ka {
                assert forall|i: int|
                    0 <= i < a.drop_first().len() implies lex_lt(
                    k,
                    #[trigger] a.drop_first()[i].0,
                ) by {
                    assert(a.drop_first()[i] == a[i + 1]);
                }
                lemma_lookup_none_when_lt_all(a.drop_first(), k);
                assert forall|i: int|
                    0 <= i < b.drop_first().len() implies lex_lt(
                    k,
                    #[trigger] b.drop_first()[i].0,
                ) by {
                    assert(b.drop_first()[i] == b[i + 1]);
                }
                lemma_lookup_none_when_lt_all(b.drop_first(), k);
            } else {
                assert(lookup(a, k) == lookup(a.drop_first(), k));
                assert(lookup(b, k) == lookup(b.drop_first(), k));
            }
        }
        lemma_sorted_lookup_ext(a.drop_first(), b.drop_first());
        assert forall|i: int| 0 <= i < a.len() implies a[i] == b[i] by {
            if i > 0 {
                assert(a.drop_first()[i - 1] == b.drop_first()[i - 1]);
            }
        }
        assert(a =~= b);
    }
}

/// The catalog itself: an optional backing location and the entries in
/// strictly ascending key order.
#[derive(Debug)]
pub struct Config {
    /// Where the catalog was loaded from, if anywhere.
    pub loc: Option<String>,
    /// The entries, each a short name with its descriptor.
    pub map: Vec<(String, Doc)>,
}

impl Config {
    /// The mathematical image of the entries.
    pub open spec fn entries(&self) -> EntriesV {
        entries_of(self.map@)
    }

    /// Well-formed: keys strictly ascend, and no key is empty.
    pub open spec fn wf(&self) -> bool {
        &&& sorted(self.entries())
        &&& forall|i: int|
            0 <= i < self.entries().len() ==> (#[trigger] self.entries()[i].0).len() > 0
    }

    /// The catalog with no entries and no backing location.
    pub fn new_empty() -> (r: Config)
        ensures
            r.wf(),
            r.entries() =~= Seq::<(Seq<char>, DocV)>::empty(),
            r.loc is None,
    {
        let r = Config { loc: None, map: Vec::new() };
        proof {
            assert(r.entries() =~= Seq::<(Seq<char>, DocV)>::empty());
        }
        r
    }

    /// Direct key lookup.
    pub fn lookup_exact<'a>(&'a self, name: &str) -> (r: Option<&'a Doc>)
        ensures
            match r {
                Some(d) => lookup(self.entries(), name@) == Some(d@),
                None => lookup(self.entries(), name@) is None,
            },
    {
        let n = self.map.len();
        let mut i: usize = 0;
        proof {
            assert(self.entries().skip(0) =~= self.entries());
        }
        while i < n
            invariant
                n == self.map@.len(),
                0 <= i <= n,
                lookup(self.entries(), name@) == lookup(self.entries().skip(i as int), name@),
            decreases n - i,
        {
            proof {
                assert(self.entries().skip(i as int)[0] == self.entries()[i as int]);
                assert(self.entries().skip(i as int).drop_first() =~= self.entries().skip(
                    i as int + 1,
                ));
            }
            if str_eq(self.map[i].0.as_str(), name) {
                return Some(&self.map[i].1);
            }
            i = i + 1;
        }
        proof {
            assert(self.entries().skip(n as int) =~= Seq::<(Seq<char>, DocV)>::empty());
        }
        None
    }

    /// Alias lookup: the first entry, in order, whose full name equals
    /// `name` exactly, with its key.
    pub fn lookup_by_alias<'a>(&'a self, name: &str) -> (r: Option<(&'a String, &'a Doc)>)
        ensures
            match r {
                Some(p) => alias_lookup(self.entries(), name@) == Some((p.0@, p.1@)),
                None => alias_lookup(self.entries(), name@) is None,
            },
    {
        let n = self.map.len();
        let mut i: usize = 0;
        proof {
            assert(self.entries().skip(0) =~= self.entries());
        }
        while i < n
            invariant
                n == self.map@.len(),
                0 <= i <= n,
                alias_lookup(self.entries(), name@) == alias_lookup(
                    self.entries().skip(i as int),
                    name@,
                ),
            decreases n - i,
        {
            proof {
                assert(self.entries().skip(i as int)[0] == self.entries()[i as int]);
                assert(self.entries().skip(i as int).drop_first() =~= self.entries().skip(
                    i as int + 1,
                ));
            }
            let matched = match &self.map[i].1.full {
                Some(f) => str_eq(f.as_str(), name),
                None => false,
            };
            if matched {
                return Some((&self.map[i].0, &self.map[i].1));
            }
            i = i + 1;
        }
        proof {
            assert(self.entries().skip(n as int) =~= Seq::<(Seq<char>, DocV)>::empty());
        }
        None
    }

    /// The combined lookup: the exact match if any, else the first
    /// alias match, else nothing.
    pub fn find<'a>(&'a self, name: &str) -> (r: Option<&'a Doc>)
        ensures
            match lookup(self.entries(), name@) {
                Some(d) => r is Some && d == r->Some_0@,
                None => match alias_lookup(self.entries(), name@) {
                    Some(p) => r is Some && p.1 == r->Some_0@,
                    None => r is None,
                },
            },
    {
        match self.lookup_exact(name) {
            Some(d) => Some(d),
            None => match self.lookup_by_alias(name) {
                Some(p) => Some(p.1),
                None => None,
            },
        }
    }

    /// The entries in ascending key order, as owned copies.
    pub fn walk_config(&self) -> (r: Vec<(String, Doc)>)
        ensures
            entries_of(r@) =~= self.entries(),
    {
        let n = self.map.len();
        let mut r: Vec<(String, Doc)> = Vec::new();
        let mut i: usize = 0;
        while i < n
            invariant
                n == self.map@.len(),
                0 <= i <= n,
                r@.len() == i,
                forall|j: int|
                    0 <= j < i ==> (#[trigger] r@[j].0@, r@[j].1@) == (self.map@[j].0@,
                    self.map@[j].1@),
            decreases n - i,
        {
            let name = self.map[i].0.clone();
            let doc = self.map[i].1.clone();
            r.push((name, doc));
            i = i + 1;
        }
        proof {
            assert forall|j: int| 0 <= j < n implies #[trigger] entries_of(r@)[j]
                == self.entries()[j] by {
            }
        }
        r
    }

    /// Replaces the entry for `name` or inserts it at its ordered place.
    pub fn insert_or_replace(&mut self, name: String, doc: Doc)
        requires
            old(self).wf(),
            name@.len() > 0,
        ensures
            final(self).wf(),
            final(self).entries() == insert_sorted(old(self).entries(), name@, doc@),
            final(self).loc == old(self).loc,
            lookup(final(self).entries(), name@) == Some(doc@),
            forall|q: Seq<char>|
                q != name@ ==> #[trigger] lookup(final(self).entries(), q) == lookup(
                    old(self).entries(),
                    q,
                ),
    {
        proof {
            lemma_insert_sorted(self.entries(), name@, doc@);
        }
        let ghost orig = self.entries();
        let n = self.map.len();
        let mut i: usize = 0;
        // find the first position whose key is not below `name`
        loop
            invariant
                n == self.map@.len(),
                self.entries() == orig,
                0 <= i <= n,
                forall|j: int| 0 <= j < i ==> lex_lt((#[trigger] self.map@[j].0)@, name@),
            ensures
                0 <= i <= n,
                forall|j: int| 0 <= j < i ==> lex_lt((#[trigger] self.map@[j].0)@, name@),
                i < n ==> !lex_lt(self.map@[i as int].0@, name@),
                self.entries() == orig,
                n == self.map@.len(),
            decreases n - i,
        {
            if i >= n {
                break;
            }
            if !str_lt(self.map[i].0.as_str(), name.as_str()) {
                break;
            }
            i = i + 1;
        }
        if i < n {
            let same = str_eq(self.map[i].0.as_str(), name.as_str());
            proof {
                lemma_lex_trichotomy(self.map@[i as int].0@, name@);
                lemma_unfold_insert(orig, name@, doc@, i as int, same);
            }
            if same {
                self.map.remove(i);
                self.map.insert(i, (name, doc));
                proof {
                    assert(self.entries() =~= insert_sorted(orig, name@, doc@));
                }
            } else {
                self.map.insert(i, (name, doc));
                proof {
                    assert(self.entries() =~= insert_sorted(orig, name@, doc@));
                }
            }
        } else {
            proof {
                lemma_insert_sorted_append(orig, name@, doc@);
            }
            self.map.push((name, doc));
            proof {
                assert(self.entries() =~= insert_sorted(orig, name@, doc@));
            }
        }
        proof {
            assert forall|i: int|
                0 <= i < self.entries().len() implies (#[trigger] self.entries()[i].0).len()
                > 0 by {
                if self.entries()[i].0 != name@ {
                    let j = choose|j: int|
                        0 <= j < orig.len() && (#[trigger] orig[j].0) == self.entries()[i].0;
                }
            }
        }
    }

    /// The merge of `self` (local) with `remote`: remote entries win on a
    /// shared key, local-only entries stay, remote-only entries enter.
    /// The result keeps the local backing location.
    pub fn merge(&self, remote: &Config) -> (r: Config)
        requires
            self.wf(),
            remote.wf(),
        ensures
            r.wf(),
            r.entries() == merge_entries(self.entries(), remote.entries()),
            r.loc == self.loc,
            forall|k: Seq<char>|
                #[trigger] lookup(r.entries(), k) == if lookup(remote.entries(), k) is Some {
                    lookup(remote.entries(), k)
                } else {
                    lookup(self.entries(), k)
                },
    {
        proof {
            lemma_merge_entries(self.entries(), remote.entries());
        }
        let mut out = Config { loc: clone_opt_str(&self.loc), map: clone_entries(&self.map) };
        let n = remote.map.len();
        let mut i: usize = 0;
        proof {
            assert(remote.entries().skip(0) =~= remote.entries());
        }
        while i < n
            invariant
                n == remote.map@.len(),
                0 <= i <= n,
                out.wf(),
                out.loc == self.loc,
                remote.wf(),
                merge_entries(self.entries(), remote.entries()) == merge_entries(
                    out.entries(),
                    remote.entries().skip(i as int),
                ),
            decreases n - i,
        {
            proof {
                assert(remote.entries().skip(i as int)[0] == remote.entries()[i as int]);
                assert(remote.entries().skip(i as int).drop_first() =~= remote.entries().skip(
                    i as int + 1,
                ));
            }
            let name = remote.map[i].0.clone();
            let doc = remote.map[i].1.clone();
            proof {
                assert(remote.entries()[i as int].0.len() > 0);
            }
            out.insert_or_replace(name, doc);
            i = i + 1;
        }
        proof {
            assert(remote.entries().skip(n as int) =~= Seq::<(Seq<char>, DocV)>::empty());
        }
        out
    }
}

/// One unfolding step of `insert_sorted` at the split position the
/// executable insertion found.
proof fn lemma_unfold_insert(s: EntriesV, k: Seq<char>, v: DocV, i: int, same: bool)
    requires
        sorted(s),
        0 <= i < s.len(),
        forall|j: int| 0 <= j < i ==> lex_lt((#[trigger] s[j].0), k),
        same ==> s[i].0 == k,
        !same ==> !lex_lt(s[i].0, k) && s[i].0 != k,
    ensures
        same ==> insert_sorted(s, k, v) == s.update(i, (k, v)),
        !same ==> insert_sorted(s, k, v) == s.take(i) + seq![(k, v)] + s.skip(i),
    decreases i,
{
    if i == 0 {
        lemma_lex_trichotomy(k, s[0].0);
        if same {
            assert(insert_sorted(s, k, v) == seq![(k, v)] + s.drop_first());
            assert(seq![(k, v)] + s.drop_first() =~= s.update(0, (k, v)));
        } else {
            lemma_lex_trichotomy(k, s[0].0);
            assert(lex_lt(k, s[0].0));
            assert(insert_sorted(s, k, v) == seq![(k, v)] + s);
            assert(s.take(0) + seq![(k, v)] + s.skip(0) =~= seq![(k, v)] + s);
        }
    } else {
        lemma_lex_trichotomy(k, s[0].0);
        assert(lex_lt(s[0].0, k));
        assert(forall|j: int|
            0 <= j < s.drop_first().len() ==> #[trigger] s.drop_first()[j] == s[j + 1]);
        assert(sorted(s.drop_first()));
        lemma_unfold_insert(s.drop_first(), k, v, i - 1, same);
        assert(insert_sorted(s, k, v) == seq![s[0]] + insert_sorted(s.drop_first(), k, v));
        if same {
            assert(seq![s[0]] + s.drop_first().update(i - 1, (k, v)) =~= s.update(i, (k, v)));
        } else {
            assert(seq![s[0]] + (s.drop_first().take(i - 1) + seq![(k, v)] + s.drop_first().skip(
                i - 1,
            )) =~= s.take(i) + seq![(k, v)] + s.skip(i));
        }
    }
}

fn clone_opt_str(o: &Option<String>) -> (r: Option<String>)
    ensures
        r == *o,
{
    match o {
        Some(s) => Some(s.clone()),
        None => None,
    }
}

fn clone_entries(v: &Vec<(String, Doc)>) -> (r: Vec<(String, Doc)>)
    ensures
        entries_of(r@) =~= entries_of(v@),
        r@.len() == v@.len(),
{
    let n = v.len();
    let mut r: Vec<(String, Doc)> = Vec::new();
    let mut i: usize = 0;
    while i < n
        invariant
            n == v@.len(),
            0 <= i <= n,
            r@.len() == i,
            forall|j: int| 0 <= j < i ==> (#[trigger] r@[j].0@, r@[j].1@) == (v@[j].0@, v@[j].1@),
        decreases n - i,
    {
        let name = v[i].0.clone();
        let doc = v[i].1.clone();
        r.push((name, doc));
        i = i + 1;
    }
    proof {
        assert forall|j: int| 0 <= j < n implies #[trigger] entries_of(r@)[j] == entries_of(
            v@,
        )[j] by {
        }
    }
    r
}


/// An inserted entry is found again unchanged: insertion followed by
/// exact lookup returns exactly the stored descriptor.
pub proof fn lemma_insert_then_lookup(s: EntriesV, k: Seq<char>, v: DocV)
    requires
        sorted(s),
    ensures
        lookup(insert_sorted(s, k, v), k) == Some(v),
{
    lemma_insert_sorted(s, k, v);
}

/// Merging a catalog with itself changes nothing.
pub proof fn lemma_merge_idempotent(s: EntriesV)
    requires
        sorted(s),
    ensures
        merge_entries(s, s) == s,
{
    lemma_merge_entries(s, s);
    lemma_sorted_lookup_ext(merge_entries(s, s), s);
}

/// On a key the remote side binds, merge answers with the remote
/// descriptor, whole: no field-level blending.
pub proof fn lemma_merge_right_bias(a: EntriesV, b: EntriesV, k: Seq<char>)
    requires
        sorted(a),
        sorted(b),
        lookup(b, k) is Some,
    ensures
        lookup(merge_entries(a, b), k) == lookup(b, k),
{
    lemma_merge_entries(a, b);
}

/// On a key only the local side binds, merge keeps the local
/// descriptor.
pub proof fn lemma_merge_left_preserving(a: EntriesV, b: EntriesV, k: Seq<char>)
    requires
        sorted(a),
        sorted(b),
        lookup(b, k) is None,
    ensures
        lookup(merge_entries(a, b), k) == lookup(a, k),
{
    lemma_merge_entries(a, b);
}

/// Alias lookup is an exact, character-for-character match: a hit's full
/// name equals the queried name, and a miss means no entry's full name
/// equals it.
pub proof fn lemma_alias_exact(s: EntriesV, name: Seq<char>)
    ensures
        alias_lookup(s, name) matches Some(p) ==> p.1.full == Some(name),
        alias_lookup(s, name) is None ==> forall|i: int|
            0 <= i < s.len() ==> (#[trigger] s[i].1.full) != Some(name),
    decreases s.len(),
{
    if s.len() > 0 {
        lemma_alias_exact(s.drop_first(), name);
        assert(forall|i: int|
            0 <= i < s.drop_first().len() ==> #[trigger] s.drop_first()[i] == s[i + 1]);
        if alias_lookup(s, name) is None {
            assert forall|i: int|
                0 <= i < s.len() implies (#[trigger] s[i].1.full) != Some(name) by {
                if i > 0 {
                    assert(s.drop_first()[i - 1].1.full != Some(name));
                }
            }
        }
    }
}


impl Config {
    /// The rendering of the entry for `name`, if the catalog holds one.
    pub fn view(&self, name: &str, detail: bool) -> (r: Option<String>)
        ensures
            match lookup(self.entries(), name@) {
                Some(d) => r matches Some(t) && t@ == crate::entry::rendered(name@, d, detail),
                None => r is None,
            },
    {
        match self.lookup_exact(name) {
            Some(d) => Some(d.render(name, detail)),
            None => None,
        }
    }
}


impl Clone for Config {
    /// An exact copy: same location, same entries.
    fn clone(&self) -> (r: Self)
        ensures
            r.loc == self.loc,
            r.entries() == self.entries(),
    {
        Config { loc: clone_opt_str(&self.loc), map: clone_entries(&self.map) }
    }
}

} // verus!
