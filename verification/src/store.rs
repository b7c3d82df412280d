//! Load/save policy: the default template a fresh config starts from,
//! the serialized form a catalog is saved as, and where the config file
//! lives when no explicit path is given.

use vstd::prelude::*;

use crate::catalog::{Config, EntriesV};
use crate::codec::{emit_text, lemma_parse_round_trip, parse_config, parse_ok};
use crate::entry::{Doc, DocV};
use crate::error::{DocError, DocErrorKind};

verus! {

/// The one example entry a brand-new config holds.
pub open spec fn default_entries() -> EntriesV {
    seq![
        (
            "rust"@,
            DocV {
                full: Some("The Rust Programming Language"@),
                url: "https://doc.rust-lang.org"@,
                rep: Some("https://github.com/rust-lang/rust"@),
                play: Some("https://play.rust-lang.org"@),
                search: None,
            },
        ),
    ]
}

/// The catalog a brand-new config starts from: one example entry.
pub fn default_config() -> (r: Config)
    ensures
        r.wf(),
        r.entries() == default_entries(),
        r.loc is None,
{
    let mut c = Config::new_empty();
    proof {
        reveal_strlit("rust");
    }
    c.insert_or_replace(
        String::from_str("rust"),
        Doc {
            full: Some(String::from_str("The Rust Programming Language")),
            url: String::from_str("https://doc.rust-lang.org"),
            rep: Some(String::from_str("https://github.com/rust-lang/rust")),
            play: Some(String::from_str("https://play.rust-lang.org")),
            search: None,
        },
    );
    proof {
        assert(c.entries() =~= default_entries());
    }
    c
}

impl Config {
    /// The text `save` writes: the catalog's form, or, for an empty
    /// catalog, the default template, so the file is never empty or
    /// unreadable.  Either way the text parses back: to these entries for
    /// a non-empty catalog, to the template for an empty one.
    pub fn save_text(&self) -> (r: String)
        requires
            self.wf(),
        ensures
            self.entries().len() > 0 ==> r@ == emit_text(self.entries()) && parse_ok(r@) == Some(
                (self.entries(), None::<Seq<char>>),
            ),
            self.entries().len() == 0 ==> r@ == emit_text(default_entries()) && parse_ok(r@)
                == Some((default_entries(), None::<Seq<char>>)),
    {
        if self.map.len() == 0 {
            let d = default_config();
            let r = d.to_string();
            proof {
                lemma_parse_round_trip(default_entries());
            }
            r
        } else {
            let r = self.to_string();
            proof {
                lemma_parse_round_trip(self.entries());
            }
            r
        }
    }
}

/// Where the config file lives when no explicit path is given: the
/// hidden file in the home directory; without a home directory, an
/// error of kind `NotFound`.
pub fn default_path(home: Option<&str>) -> (r: Result<String, DocError>)
    ensures
        match r {
            Ok(p) => home matches Some(h) && p@ == h@ + "/.doc.toml"@,
            Err(e) => home is None && e.kind == DocErrorKind::NotFound,
        },
{
    match home {
        Some(h) => {
            let mut p = String::new();
            p.append(h);
            p.append("/.doc.toml");
            Ok(p)
        },
        None => Err(DocError::new(DocErrorKind::NotFound, "cannot find the home directory")),
    }
}

/// Reads a catalog from the text of the file at `path`: the parsed
/// entries, with the path recorded as the backing location.
pub fn load_text(text: &str, path: &str) -> (r: Result<Config, DocError>)
    ensures
        match r {
            Ok(c) => {
                &&& c.wf()
                &&& parse_ok(text@) matches Some(pr) && c.entries() == pr.0
                &&& c.loc matches Some(p) && p@ == path@
            },
            Err(e) => parse_ok(text@) is None && e.kind == DocErrorKind::Parse,
        },
{
    match parse_config(text) {
        Ok(c) => {
            let mut c = c;
            c.loc = Some(String::from_str(path));
            Ok(c)
        },
        Err(e) => Err(e),
    }
}


/// What initialization writes, given what exists: with both a local and a
/// remote catalog, a requested merge wins over a requested overwrite; an
/// overwrite without a merge replaces the local catalog with the remote
/// one wholesale; with nothing requested, or no remote catalog, the local
/// catalog stands; and with no local catalog the remote one, or an empty
/// catalog, starts the file.
pub fn plan_init(
    local: Option<&Config>,
    remote: Option<&Config>,
    force: bool,
    merge: bool,
) -> (r: Config)
    requires
        local matches Some(l) ==> l.wf(),
        remote matches Some(m) ==> m.wf(),
    ensures
        r.wf(),
        ({
            match (local, remote) {
                (Some(l), Some(m)) => {
                    if merge {
                        r.entries() == crate::catalog::merge_entries(l.entries(), m.entries())
                            && r.loc == l.loc
                    } else if force {
                        r.entries() == m.entries() && r.loc == m.loc
                    } else {
                        r.entries() == l.entries() && r.loc == l.loc
                    }
                },
                (Some(l), None) => r.entries() == l.entries() && r.loc == l.loc,
                (None, Some(m)) => r.entries() == m.entries() && r.loc == m.loc,
                (None, None) => r.entries() =~= Seq::<(Seq<char>, DocV)>::empty(),
            }
        }),
{
    match (local, remote) {
        (Some(l), Some(m)) => {
            if merge {
                l.merge(m)
            } else if force {
                m.clone()
            } else {
                l.clone()
            }
        },
        (Some(l), None) => l.clone(),
        (None, Some(m)) => m.clone(),
        (None, None) => Config::new_empty(),
    }
}

} // verus!
