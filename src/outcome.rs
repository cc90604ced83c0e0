use vstd::prelude::*;
use vstd::string::*;

use crate::item::{ConfigItem, ItemView};
use crate::text::is_prefix;

verus! {

/// What to do with one request.
#[derive(Clone, Debug, PartialEq, Eq)]
pub enum DispatchOutcome {
    FileServe { local_path: String, index_file: String, allow_listing: bool },
    Forward { target_url: String },
    NoMatch,
}

pub enum OutcomeView {
    FileServe { local_path: Seq<char>, index_file: Seq<char>, allow_listing: bool },
    Forward { target_url: Seq<char> },
    NoMatch,
}

impl View for DispatchOutcome {
    type V = OutcomeView;

    open spec fn view(&self) -> OutcomeView {
        match self {
            DispatchOutcome::FileServe { local_path, index_file, allow_listing } => OutcomeView::FileServe {
                local_path: local_path@,
                index_file: index_file@,
                allow_listing: *allow_listing,
            },
            DispatchOutcome::Forward { target_url } => OutcomeView::Forward { target_url: target_url@ },
            DispatchOutcome::NoMatch => OutcomeView::NoMatch,
        }
    }
}

pub open spec fn default_index() -> Seq<char> {
    seq!['i', 'n', 'd', 'e', 'x', '.', 'h', 't', 'm', 'l']
}

/// The directory settings of a directory item mounted at `prefix`: the local
/// path defaults to the prefix, the index file to `index.html`, and listing is on.
pub open spec fn file_serve_view(
    prefix: Seq<char>,
    path: Option<Seq<char>>,
    index: Option<Seq<char>>,
    dir: Option<bool>,
) -> OutcomeView {
    OutcomeView::FileServe {
        local_path: match path {
            Some(p) => p,
            None => prefix,
        },
        index_file: match index {
            Some(i) => i,
            None => default_index(),
        },
        allow_listing: match dir {
            Some(b) => b,
            None => true,
        },
    }
}

/// The URL a request is forwarded to: the origin, then what follows the
/// matched prefix in the request path, then `?` and the query where there is one.
pub open spec fn forward_url(target_base: Seq<char>, prefix_len: nat, path: Seq<char>, query: Seq<char>) -> Seq<char> {
    target_base + path.skip(prefix_len as int) + if query.len() > 0 {
        seq!['?'] + query
    } else {
        Seq::empty()
    }
}

/// The outcome of a request on `path` with `query` that matched `prefix`.
pub open spec fn outcome_of(prefix: Seq<char>, item: ItemView, path: Seq<char>, query: Seq<char>) -> OutcomeView {
    match item {
        ItemView::Directory { path: p, index, dir } => file_serve_view(prefix, p, index, dir),
        ItemView::Proxy { proxy_to } => OutcomeView::Forward {
            target_url: forward_url(proxy_to, prefix.len(), path, query),
        },
    }
}

/// The file serving settings of a directory item mounted at `prefix`.
pub fn file_serve_for(prefix: &String, path: &Option<String>, index: &Option<String>, dir: &Option<bool>) -> (r: DispatchOutcome)
    ensures
        r@ == file_serve_view(prefix@, crate::item::opt_view(*path), crate::item::opt_view(*index), *dir),
{
    let local_path = match path {
        Some(p) => p.clone(),
        None => prefix.clone(),
    };
    let index_file = match index {
        Some(i) => i.clone(),
        None => {
            proof {
                reveal_strlit("index.html");
                assert("index.html"@ =~= default_index());
            }
            String::from_str("index.html")
        },
    };
    let allow_listing = match dir {
        Some(b) => *b,
        None => true,
    };
    DispatchOutcome::FileServe { local_path, index_file, allow_listing }
}

/// The URL a request on `path` with `query` is forwarded to by a proxy item
/// mounted at `prefix`.
pub fn forward_target(target_base: &String, prefix: &str, path: &str, query: &str) -> (r: String)
    requires
        is_prefix(prefix@, path@),
    ensures
        r@ == forward_url(target_base@, prefix@.len(), path@, query@),
{
    let from = prefix.unicode_len();
    let to = path.unicode_len();
    let suffix = path.substring_char(from, to);
    assert(suffix@ =~= path@.skip(from as int));
    let mut url = target_base.clone();
    url.append(suffix);
    if !query.is_empty() {
        proof {
            reveal_strlit("?");
            assert("?"@ =~= seq!['?']);
        }
        url.append("?");
        url.append(query);
        assert(url@ =~= forward_url(target_base@, prefix@.len(), path@, query@));
    } else {
        assert(url@ =~= forward_url(target_base@, prefix@.len(), path@, query@));
    }
    url
}

impl ConfigItem {
    /// The outcome of a request on `path` with `query` that this item, mounted
    /// at `prefix`, matched.
    pub fn outcome(&self, prefix: &String, path: &str, query: &str) -> (r: DispatchOutcome)
        requires
            is_prefix(prefix@, path@),
        ensures
            r@ == outcome_of(prefix@, self@, path@, query@),
    {
        match self {
            ConfigItem::Directory { path: p, index, dir } => file_serve_for(prefix, p, index, dir),
            ConfigItem::Proxy { proxy_to } => DispatchOutcome::Forward {
                target_url: forward_target(proxy_to, prefix.as_str(), path, query),
            },
        }
    }
}

} // verus!
