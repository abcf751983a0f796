//! Host classification: deciding whether a request's host is the bare base
//! domain or carries a meaningful subdomain. Ports are stripped first; hosts
//! without a dot, IPv4 literals and two-label domains are bare; only a third
//! or later label in front makes a genuine subdomain.

use crate::strutil::head_before;
use crate::strutil::split_char;
use crate::strutil::split_on;
use crate::strutil::str_views;
use crate::strutil::lemma_head_before_at;
use crate::strutil::lemma_head_before_no_sep;
use vstd::prelude::*;
use vstd::string::*;

verus! {

/// How a request's host relates to the base domain.
#[derive(Debug, Clone, PartialEq, Eq)]
pub enum HostClass {
    /// No meaningful subdomain: a dotless host, an IP literal, or a host of
    /// at most two labels.
    IsBareDomain,
    /// A host of three or more labels; the payload is the first label.
    HasSubdomain(String),
    /// Reserved for callers; the classification algorithm never produces it.
    Unrelated,
}

/// The mathematical value of a `HostClass`.
pub enum HostClassV {
    IsBareDomain,
    HasSubdomain(Seq<char>),
    Unrelated,
}

impl View for HostClass {
    type V = HostClassV;

    open spec fn view(&self) -> HostClassV {
        match self {
            HostClass::IsBareDomain => HostClassV::IsBareDomain,
            HostClass::HasSubdomain(name) => HostClassV::HasSubdomain(name@),
            HostClass::Unrelated => HostClassV::Unrelated,
        }
    }
}

/// Whether `c` is an ASCII decimal digit.
pub open spec fn is_digit(c: char) -> bool {
    48 <= c as u32 <= 57
}

/// The numeric value of an ASCII decimal digit.
pub open spec fn digit_val(c: char) -> int {
    c as u32 - 48
}

/// The decimal value of a digit sequence, most significant digit first.
pub open spec fn octet_val(s: Seq<char>) -> int
    decreases s.len(),
{
    if s.len() == 0 {
        0
    } else {
        octet_val(s.drop_last()) * 10 + digit_val(s.last())
    }
}

/// Whether `s` is a valid dotted-quad octet: one to three decimal digits
/// with value at most 255.
pub open spec fn valid_octet(s: Seq<char>) -> bool {
    &&& 1 <= s.len() <= 3
    &&& forall|k: int| 0 <= k < s.len() ==> is_digit(s[k])
    &&& octet_val(s) <= 255
}

/// Whether the dot-separated labels of a host form an IPv4 literal.
pub open spec fn is_ipv4_labels(labels: Seq<Seq<char>>) -> bool {
    &&& labels.len() == 4
    &&& forall|k: int| 0 <= k < 4 ==> valid_octet(labels[k])
}

/// The host with any `:port` suffix removed: the characters before the
/// first `:`.
pub open spec fn strip_port_spec(host: Seq<char>) -> Seq<char> {
    head_before(host, ':')
}

/// The classification of a host, after stripping any port: dotless hosts,
/// IPv4 literals and hosts of at most two labels are the bare domain; with
/// three or more labels the first label is the subdomain. The base domain
/// string plays no part here; callers that want an exact bare-domain match
/// compare the stripped host against it themselves.
pub open spec fn classify_spec(host: Seq<char>, base_domain: Seq<char>) -> HostClassV {
    let stripped = strip_port_spec(host);
    let labels = split_char(stripped, '.');
    if labels.len() == 1 {
        HostClassV::IsBareDomain
    } else if is_ipv4_labels(labels) {
        HostClassV::IsBareDomain
    } else if labels.len() <= 2 {
        HostClassV::IsBareDomain
    } else {
        HostClassV::HasSubdomain(labels[0])
    }
}

/// The host with any trailing `:port` removed.
pub fn strip_port(host: &str) -> (r: String)
    ensures
        r@ == strip_port_spec(host@),
{
    let mut parts = split_on(host, ':');
    parts.swap_remove(0)
}

/// Whether `s` is a valid dotted-quad octet.
fn octet_check(s: &String) -> (r: bool)
    ensures
        r == valid_octet(s@),
{
    let n = s.as_str().unicode_len();
    if n == 0 || n > 3 {
        return false;
    }
    let mut i: usize = 0;
    while i < n
        invariant
            n == s@.len(),
            i <= n,
            forall|k: int| 0 <= k < i ==> is_digit(s@[k]),
        decreases n - i,
    {
        let c = s.as_str().get_char(i);
        if (c as u32) < 48 || (c as u32) > 57 {
            return false;
        }
        i = i + 1;
    }
    let mut val: u32 = s.as_str().get_char(0) as u32 - 48;
    proof {
        assert(octet_val(Seq::<char>::empty()) == 0);
        assert(s@.take(1).drop_last() =~= Seq::<char>::empty());
        assert(s@.take(1).last() == s@[0]);
        assert(octet_val(s@.take(1)) == octet_val(s@.take(1).drop_last()) * 10 + digit_val(
            s@.take(1).last(),
        ));
        assert(val as int == octet_val(s@.take(1)));
    }
    if n >= 2 {
        val = val * 10 + (s.as_str().get_char(1) as u32 - 48);
        proof {
            assert(s@.take(2).drop_last() =~= s@.take(1));
            assert(s@.take(2).last() == s@[1]);
            assert(octet_val(s@.take(2)) == octet_val(s@.take(2).drop_last()) * 10 + digit_val(
                s@.take(2).last(),
            ));
            assert(val as int == octet_val(s@.take(2)));
        }
    }
    if n == 3 {
        val = val * 10 + (s.as_str().get_char(2) as u32 - 48);
        proof {
            assert(s@.take(3).drop_last() =~= s@.take(2));
            assert(s@.take(3).last() == s@[2]);
            assert(octet_val(s@.take(3)) == octet_val(s@.take(3).drop_last()) * 10 + digit_val(
                s@.take(3).last(),
            ));
            assert(val as int == octet_val(s@.take(3)));
        }
    }
    proof {
        assert(s@.take(n as int) =~= s@);
        assert(val as int == octet_val(s@));
    }
    val <= 255
}

/// Whether the pieces of a dot-split host form an IPv4 literal.
fn is_ipv4_parts(parts: &Vec<String>) -> (r: bool)
    ensures
        r == is_ipv4_labels(str_views(parts@)),
{
    if parts.len() != 4 {
        return false;
    }
    let mut k: usize = 0;
    while k < 4
        invariant
            parts@.len() == 4,
            k <= 4,
            forall|j: int| 0 <= j < k ==> valid_octet(str_views(parts@)[j]),
        decreases 4 - k,
    {
        if !octet_check(&parts[k]) {
            proof {
                assert(!valid_octet(str_views(parts@)[k as int]));
            }
            return false;
        }
        k = k + 1;
    }
    true
}

/// Classifies a host against the base domain, as `classify_spec` says.
#[allow(unused_variables)]
pub fn classify_host(host: &str, base_domain: &str) -> (r: HostClass)
    ensures
        r@ == classify_spec(host@, base_domain@),
{
    let stripped = strip_port(host);
    let mut labels = split_on(stripped.as_str(), '.');
    if labels.len() == 1 {
        HostClass::IsBareDomain
    } else if is_ipv4_parts(&labels) {
        HostClass::IsBareDomain
    } else if labels.len() <= 2 {
        HostClass::IsBareDomain
    } else {
        HostClass::HasSubdomain(labels.swap_remove(0))
    }
}

/// A trailing port never matters: for a host without `:`, appending `:` and
/// any characters after it classifies identically to the host alone.
pub proof fn lemma_port_irrelevant(host: Seq<char>, port: Seq<char>, base_domain: Seq<char>)
    requires
        !host.contains(':'),
    ensures
        classify_spec(host + seq![':'] + port, base_domain) == classify_spec(host, base_domain),
{
    let h2 = host + seq![':'] + port;
    assert(forall|k: int| 0 <= k < host.len() ==> host[k] != ':');
    assert(h2[host.len() as int] == ':');
    assert(forall|k: int| 0 <= k < host.len() ==> h2[k] == host[k]);
    lemma_head_before_at(h2, ':', host.len());
    assert(h2.subrange(0, host.len() as int) =~= host);
    lemma_head_before_no_sep(host, ':');
}

} // verus!
