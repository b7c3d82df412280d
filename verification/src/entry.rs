//! The descriptor of one documentation entry: its canonical url and the
//! optional full name, repository url, playground url and search template.

use vstd::prelude::*;

use crate::strutil::{contains_seq, str_contains};

verus! {

/// One catalog entry: where a named document lives.
#[derive(Debug, PartialEq, Eq)]
pub struct Doc {
    /// Optional human-readable full name, also a secondary lookup key.
    pub full: Option<String>,
    /// Required canonical destination.
    pub url: String,
    /// Optional source-repository destination.
    pub rep: Option<String>,
    /// Optional interactive-playground destination.
    pub play: Option<String>,
    /// Optional search template with one `{}` slot.
    pub search: Option<String>,
}

/// Mathematical image of a `Doc`: every field as a character sequence.
#[verifier::ext_equal]
pub ghost struct DocV {
    pub full: Option<Seq<char>>,
    pub url: Seq<char>,
    pub rep: Option<Seq<char>>,
    pub play: Option<Seq<char>>,
    pub search: Option<Seq<char>>,
}

impl View for Doc {
    type V = DocV;

    open spec fn view(&self) -> DocV {
        DocV {
            full: match self.full {
                Some(s) => Some(s@),
                None => None,
            },
            url: self.url@,
            rep: match self.rep {
                Some(s) => Some(s@),
                None => None,
            },
            play: match self.play {
                Some(s) => Some(s@),
                None => None,
            },
            search: match self.search {
                Some(s) => Some(s@),
                None => None,
            },
        }
    }
}

/// The display label of an entry: the short name alone, or
/// `name(full name)` when a full name is present.
pub open spec fn printed_label(name: Seq<char>, full: Option<Seq<char>>) -> Seq<char> {
    match full {
        Some(f) => name + seq!['('] + f + seq![')'],
        None => name,
    }
}

/// Which destination an open request selects: the repository when asked for
/// and present, else the playground when asked for and present, else the
/// canonical url.
pub open spec fn target_of(d: DocV, rep: bool, play: bool) -> Seq<char> {
    if rep && d.rep is Some {
        d.rep->Some_0
    } else if play && d.play is Some {
        d.play->Some_0
    } else {
        d.url
    }
}

/// Flags of an open request: prefer the repository or the playground.
pub struct OpenOption {
    pub rep: bool,
    pub play: bool,
}

fn clone_opt_string(o: &Option<String>) -> (r: Option<String>)
    ensures
        r == *o,
{
    match o {
        Some(s) => Some(s.clone()),
        None => None,
    }
}

impl Clone for Doc {
    /// An exact copy, field by field.
    fn clone(&self) -> (r: Self)
        ensures
            r == *self,
    {
        Doc {
            full: clone_opt_string(&self.full),
            url: self.url.clone(),
            rep: clone_opt_string(&self.rep),
            play: clone_opt_string(&self.play),
            search: clone_opt_string(&self.search),
        }
    }
}

impl Doc {
    /// The display label of this entry under the short name `name`.
    pub fn get_printed_name(&self, name: &str) -> (r: String)
        ensures
            r@ == printed_label(name@, self@.full),
    {
        let mut s = String::new();
        s.append(name);
        match &self.full {
            Some(f) => {
                s.append("(");
                s.append(f.as_str());
                s.append(")");
                proof {
                    reveal_strlit("(");
                    reveal_strlit(")");
                    assert("("@ =~= seq!['(']);
                    assert(")"@ =~= seq![')']);
                }
            },
            None => {},
        }
        s
    }

    /// Whether the display label holds `pat` as a substring.
    pub fn contains(&self, name: &str, pat: &str) -> (r: bool)
        ensures
            r == contains_seq(printed_label(name@, self@.full), pat@),
    {
        let label = self.get_printed_name(name);
        str_contains(label.as_str(), pat)
    }

    /// The destination a request with `option` opens.
    pub fn target_url<'a>(&'a self, option: &OpenOption) -> (r: &'a String)
        ensures
            r@ == target_of(self@, option.rep, option.play),
    {
        if option.rep {
            if let Some(u) = &self.rep {
                return u;
            }
        }
        if option.play {
            if let Some(u) = &self.play {
                return u;
            }
        }
        &self.url
    }
}


/// An optional field as displayed: its value, or a dash marker.
pub open spec fn or_dash(o: Option<Seq<char>>) -> Seq<char> {
    match o {
        Some(x) => x,
        None => "--"@,
    }
}

/// The plain rendering of an entry: the label and the canonical url, and
/// in detail every destination, absent ones as `--`.
pub open spec fn rendered(name: Seq<char>, d: DocV, detail: bool) -> Seq<char> {
    if detail {
        printed_label(name, d.full) + " url: "@ + d.url + " rep: "@ + or_dash(d.rep) + " play: "@
            + or_dash(d.play) + " search: "@ + or_dash(d.search)
    } else {
        printed_label(name, d.full) + ": "@ + d.url
    }
}

fn append_or_dash(out: &mut String, o: &Option<String>)
    ensures
        final(out)@ == old(out)@ + or_dash(match *o {
            Some(s) => Some(s@),
            None => None,
        }),
{
    match o {
        Some(s) => out.append(s.as_str()),
        None => out.append("--"),
    }
}

impl Doc {
    /// The plain text `view` shows for this entry under `name`.
    pub fn render(&self, name: &str, detail: bool) -> (r: String)
        ensures
            r@ == rendered(name@, self@, detail),
    {
        let label = self.get_printed_name(name);
        let mut out = String::new();
        out.append(label.as_str());
        if detail {
            out.append(" url: ");
            out.append(self.url.as_str());
            out.append(" rep: ");
            append_or_dash(&mut out, &self.rep);
            out.append(" play: ");
            append_or_dash(&mut out, &self.play);
            out.append(" search: ");
            append_or_dash(&mut out, &self.search);
            proof {
                assert(out@ =~= rendered(name@, self@, detail));
            }
        } else {
            out.append(": ");
            out.append(self.url.as_str());
            proof {
                assert(out@ =~= rendered(name@, self@, detail));
            }
        }
        out
    }
}

} // verus!
