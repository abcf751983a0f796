//! Top-level request resolution: classify the host, try the subdomain key,
//! then the first path segment, then decide between the index page and
//! not-found. Strictly ordered — a resolvable subdomain always wins over a
//! path match, and a failed subdomain match falls through to the path.

use crate::host::HostClass;
use crate::host::HostClassV;
use crate::host::classify_host;
use crate::host::classify_spec;
use crate::host::strip_port;
use crate::host::strip_port_spec;
use crate::strutil::head_before;
use crate::strutil::split_acc;
use crate::strutil::split_on;
use crate::strutil::str_eq;
use crate::table::EntryV;
use crate::table::RedirectTable;
use crate::table::TableV;
use crate::table::lookup_spec;
use vstd::prelude::*;
use vstd::string::*;

verus! {

/// The outcome of resolving one request.
#[derive(Debug, Clone, PartialEq, Eq)]
pub enum Outcome {
    /// Redirect permanently to this target URL.
    Redirect(String),
    /// Serve the generated index page.
    ShowIndex,
    /// No redirect matches.
    NotFound,
}

/// The mathematical value of an `Outcome`.
pub enum OutcomeV {
    Redirect(Seq<char>),
    ShowIndex,
    NotFound,
}

impl View for Outcome {
    type V = OutcomeV;

    open spec fn view(&self) -> OutcomeV {
        match self {
            Outcome::Redirect(target) => OutcomeV::Redirect(target@),
            Outcome::ShowIndex => OutcomeV::ShowIndex,
            Outcome::NotFound => OutcomeV::NotFound,
        }
    }
}

/// The candidate key taken from a request path: one leading `/` is
/// stripped, and the key is what stands before the next `/` (all of the
/// rest if none). An empty path yields an empty key.
pub open spec fn path_key_spec(path: Seq<char>) -> Seq<char> {
    let q = if path.len() > 0 && path[0] == '/' {
        path.skip(1)
    } else {
        path
    };
    head_before(q, '/')
}

/// Whether the path is empty or the bare root `/`.
pub open spec fn is_root_path(path: Seq<char>) -> bool {
    path.len() == 0 || path == seq!['/']
}

/// The index-or-not-found tail of resolution: the index page is owed
/// exactly on a host classified as bare that equals the base domain (after
/// port stripping) with an empty or root path.
pub open spec fn resolve_index_spec(
    host: Seq<char>,
    path: Seq<char>,
    base_domain: Seq<char>,
) -> OutcomeV {
    if classify_spec(host, base_domain) is IsBareDomain && strip_port_spec(host) == base_domain
        && is_root_path(path) {
        OutcomeV::ShowIndex
    } else {
        OutcomeV::NotFound
    }
}

/// Resolution once no subdomain redirect applies: a nonempty first path
/// segment that resolves redirects to its entry's target; otherwise the
/// index page or not-found, as `resolve_index_spec` says.
pub open spec fn resolve_fallback_spec(
    host: Seq<char>,
    path: Seq<char>,
    base_domain: Seq<char>,
    t: TableV,
) -> OutcomeV {
    let pk = path_key_spec(path);
    match lookup_spec(t, pk) {
        Option::Some(e) => if pk.len() > 0 {
            OutcomeV::Redirect(e.target_url)
        } else {
            resolve_index_spec(host, path, base_domain)
        },
        Option::None => resolve_index_spec(host, path, base_domain),
    }
}

/// What `resolve` returns, strictly ordered: a resolvable subdomain wins;
/// an unresolvable one falls through to the path rather than failing.
pub open spec fn resolve_spec(
    host: Seq<char>,
    path: Seq<char>,
    base_domain: Seq<char>,
    t: TableV,
) -> OutcomeV {
    match classify_spec(host, base_domain) {
        HostClassV::HasSubdomain(name) => match lookup_spec(t, name) {
            Option::Some(e) => OutcomeV::Redirect(e.target_url),
            Option::None => resolve_fallback_spec(host, path, base_domain, t),
        },
        _ => resolve_fallback_spec(host, path, base_domain, t),
    }
}

/// The root path carries no key: for an empty path or a bare `/`, the
/// extracted path key is empty.
pub proof fn lemma_root_path_no_key(path: Seq<char>)
    requires
        is_root_path(path),
    ensures
        path_key_spec(path).len() == 0,
{
    assert(split_acc(Seq::<char>::empty(), '/', 0, Seq::<char>::empty()) == seq![
        Seq::<char>::empty(),
    ]);
    if path.len() > 0 {
        assert(path[0] == '/');
        assert(path.skip(1) =~= Seq::<char>::empty());
    }
}

/// Law: a resolvable subdomain always redirects to its entry's target,
/// whatever the request path carries — the subdomain strictly precedes any
/// path match.
pub proof fn lemma_subdomain_wins(
    host: Seq<char>,
    path: Seq<char>,
    base_domain: Seq<char>,
    t: TableV,
    name: Seq<char>,
    e: EntryV,
)
    requires
        classify_spec(host, base_domain) == HostClassV::HasSubdomain(name),
        lookup_spec(t, name) == Option::Some(e),
    ensures
        resolve_spec(host, path, base_domain, t) == OutcomeV::Redirect(e.target_url),
{
}

/// Law: a host without a resolvable subdomain falls through to the path —
/// a nonempty first path segment that resolves redirects to its entry.
pub proof fn lemma_path_fallthrough(
    host: Seq<char>,
    path: Seq<char>,
    base_domain: Seq<char>,
    t: TableV,
    e: EntryV,
)
    requires
        match classify_spec(host, base_domain) {
            HostClassV::HasSubdomain(name) => lookup_spec(t, name) is None,
            _ => true,
        },
        path_key_spec(path).len() > 0,
        lookup_spec(t, path_key_spec(path)) == Option::Some(e),
    ensures
        resolve_spec(host, path, base_domain, t) == OutcomeV::Redirect(e.target_url),
{
}

/// Law: on a host classified as bare that equals the base domain once the
/// port is stripped, an empty or root path always shows the index page —
/// the root path carries no key that could redirect instead.
pub proof fn lemma_bare_domain_index(
    host: Seq<char>,
    path: Seq<char>,
    base_domain: Seq<char>,
    t: TableV,
)
    requires
        classify_spec(host, base_domain) is IsBareDomain,
        strip_port_spec(host) == base_domain,
        is_root_path(path),
    ensures
        resolve_spec(host, path, base_domain, t) == OutcomeV::ShowIndex,
{
    lemma_root_path_no_key(path);
}

/// The candidate key taken from the request path.
pub fn path_key(path: &str) -> (r: String)
    ensures
        r@ == path_key_spec(path@),
{
    let n = path.unicode_len();
    let q: &str = if n > 0 && path.get_char(0) == '/' {
        let rest = path.substring_char(1, n);
        proof {
            assert(rest@ =~= path@.skip(1));
        }
        rest
    } else {
        path
    };
    let mut parts = split_on(q, '/');
    parts.swap_remove(0)
}

/// Whether the path is empty or the bare root `/`.
fn is_root(path: &str) -> (r: bool)
    ensures
        r == is_root_path(path@),
{
    let n = path.unicode_len();
    if n == 0 {
        true
    } else if n == 1 && path.get_char(0) == '/' {
        proof {
            assert(path@ =~= seq!['/']);
        }
        true
    } else {
        proof {
            if path@ == seq!['/'] {
                assert(path@.len() == 1 && path@[0] == '/');
            }
        }
        false
    }
}

/// Resolves one request: a resolvable subdomain redirects permanently; else
/// a resolvable nonempty first path segment redirects; else the exact bare
/// base domain at the root path shows the index; else nothing is found.
pub fn resolve(host: &str, path: &str, base_domain: &str, table: &RedirectTable) -> (r: Outcome)
    ensures
        r@ == resolve_spec(host@, path@, base_domain@, table@),
{
    let cls = classify_host(host, base_domain);
    if let HostClass::HasSubdomain(name) = &cls {
        if let Option::Some(e) = table.resolve_key(name.as_str()) {
            return Outcome::Redirect(e.target_url.clone());
        }
    }
    let pk = path_key(path);
    if pk.as_str().unicode_len() > 0 {
        if let Option::Some(e) = table.resolve_key(pk.as_str()) {
            return Outcome::Redirect(e.target_url.clone());
        }
    }
    let bare = match &cls {
        HostClass::IsBareDomain => true,
        _ => false,
    };
    let stripped = strip_port(host);
    if bare && str_eq(stripped.as_str(), base_domain) && is_root(path) {
        Outcome::ShowIndex
    } else {
        Outcome::NotFound
    }
}

} // verus!
