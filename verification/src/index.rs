//! The index-page listing: every configured redirect exactly once, sorted by
//! key in lexicographic character order, ready for a renderer to display.

use crate::strutil::str_eq;
use crate::table::RedirectEntry;
use crate::table::RedirectTable;
use crate::table::lemma_pairs_map_key;
use crate::table::lemma_pairs_map_last;
use crate::table::pairs_map;
use crate::table::unique_keys;
use vstd::prelude::*;
use vstd::string::*;

verus! {

/// Lexicographic order on character sequences, compared from position `i`
/// on: a proper prefix comes first, otherwise the first differing character
/// decides.
pub open spec fn key_lt_from(a: Seq<char>, b: Seq<char>, i: nat) -> bool
    decreases a.len() - i when i <= a.len()
{
    if i >= b.len() {
        false
    } else if i >= a.len() {
        true
    } else if a[i as int] != b[i as int] {
        a[i as int] < b[i as int]
    } else {
        key_lt_from(a, b, (i + 1) as nat)
    }
}

/// Strict lexicographic order on keys.
pub open spec fn key_lt(a: Seq<char>, b: Seq<char>) -> bool {
    key_lt_from(a, b, 0)
}

/// Lexicographic order on keys, or equality.
pub open spec fn key_le(a: Seq<char>, b: Seq<char>) -> bool {
    key_lt(a, b) || a == b
}

proof fn lemma_key_total_from(a: Seq<char>, b: Seq<char>, i: nat)
    requires
        i <= a.len(),
        i <= b.len(),
        forall|k: int| 0 <= k < i ==> a[k] == b[k],
    ensures
        key_lt_from(a, b, i) || key_lt_from(b, a, i) || a == b,
    decreases a.len() - i,
{
    if i >= a.len() && i >= b.len() {
        assert(a =~= b);
    } else if i >= a.len() {
        assert(key_lt_from(a, b, i));
    } else if i >= b.len() {
        assert(key_lt_from(b, a, i));
    } else if a[i as int] == b[i as int] {
        lemma_key_total_from(a, b, (i + 1) as nat);
        assert(key_lt_from(a, b, i) == key_lt_from(a, b, (i + 1) as nat));
        assert(key_lt_from(b, a, i) == key_lt_from(b, a, (i + 1) as nat));
    } else if a[i as int] < b[i as int] {
        assert(key_lt_from(a, b, i));
    } else {
        assert(key_lt_from(b, a, i));
    }
}

/// Key order is total: two keys compare one way or the other, or are equal.
pub proof fn lemma_key_total(a: Seq<char>, b: Seq<char>)
    ensures
        key_lt(a, b) || key_lt(b, a) || a == b,
{
    lemma_key_total_from(a, b, 0);
}

proof fn lemma_key_lt_trans_from(a: Seq<char>, b: Seq<char>, c: Seq<char>, i: nat)
    requires
        i <= a.len(),
        i <= b.len(),
        i <= c.len(),
        key_lt_from(a, b, i),
        key_lt_from(b, c, i),
    ensures
        key_lt_from(a, c, i),
    decreases a.len() - i,
{
    if i >= a.len() {
    } else if a[i as int] == b[i as int] && b[i as int] == c[i as int] {
        lemma_key_lt_trans_from(a, b, c, (i + 1) as nat);
    }
}

/// Key order is transitive.
pub proof fn lemma_key_lt_trans(a: Seq<char>, b: Seq<char>, c: Seq<char>)
    requires
        key_lt(a, b),
        key_lt(b, c),
    ensures
        key_lt(a, c),
{
    lemma_key_lt_trans_from(a, b, c, 0);
}

/// Whether `a` precedes `b` in key order.
fn key_lt_exec(a: &str, b: &str) -> (r: bool)
    ensures
        r == key_lt(a@, b@),
{
    let na = a.unicode_len();
    let nb = b.unicode_len();
    let mut i: usize = 0;
    while i < na && i < nb
        invariant
            na == a@.len(),
            nb == b@.len(),
            i <= na,
            i <= nb,
            key_lt(a@, b@) == key_lt_from(a@, b@, i as nat),
        decreases na - i,
    {
        let ca = a.get_char(i);
        let cb = b.get_char(i);
        if ca != cb {
            return ca < cb;
        }
        i = i + 1;
    }
    i < nb
}

/// The key/entry pairs stand in key order.
pub open spec fn sorted_by_key(s: Seq<(String, RedirectEntry)>) -> bool {
    forall|i: int, j: int| 0 <= i < j < s.len() ==> key_le(s[i].0@, s[j].0@)
}

/// Every pair of `out` matches some pair of the first `i` of `pv`.
spec fn listed_in(
    out: Seq<(String, RedirectEntry)>,
    pv: Seq<(String, RedirectEntry)>,
    i: int,
) -> bool {
    forall|a: int| 0 <= a < out.len() ==> exists|b: int|
        0 <= b < i && #[trigger] out[a].0@ == pv[b].0@ && out[a].1@ == pv[b].1@
}

/// Every one of the first `i` pairs of `pv` is matched in `out`.
spec fn lists_all(
    out: Seq<(String, RedirectEntry)>,
    pv: Seq<(String, RedirectEntry)>,
    i: int,
) -> bool {
    forall|b: int| 0 <= b < i ==> exists|a: int|
        0 <= a < out.len() && out[a].0@ == #[trigger] pv[b].0@ && out[a].1@ == pv[b].1@
}

/// The next key of `pv` is absent from a listing of the keys before it.
proof fn lemma_fresh_key(out: Seq<(String, RedirectEntry)>, pv: Seq<(String, RedirectEntry)>, i: int)
    requires
        0 <= i < pv.len(),
        unique_keys(pv),
        listed_in(out, pv, i),
    ensures
        forall|k: int| 0 <= k < out.len() ==> out[k].0@ != pv[i].0@,
{
    assert forall|k: int| 0 <= k < out.len() implies out[k].0@ != pv[i].0@ by {
        let b = choose|b: int| 0 <= b < i && #[trigger] out[k].0@ == pv[b].0@ && out[k].1@
            == pv[b].1@;
        assert(pv[b].0@ != pv[i].0@);
    }
}

/// Inserting the `i`-th pair of `pv` anywhere into a listing of the first
/// `i` keeps it a listing, now of the first `i + 1`, with keys still unique.
#[verifier::rlimit(100)]
proof fn lemma_listing_step(
    pv: Seq<(String, RedirectEntry)>,
    out0: Seq<(String, RedirectEntry)>,
    out1: Seq<(String, RedirectEntry)>,
    p: (String, RedirectEntry),
    i: int,
    j: int,
)
    requires
        0 <= i < pv.len(),
        0 <= j <= out0.len(),
        out1 == out0.insert(j, p),
        p.0@ == pv[i].0@,
        p.1@ == pv[i].1@,
        listed_in(out0, pv, i),
        lists_all(out0, pv, i),
        unique_keys(out0),
        forall|k: int| 0 <= k < out0.len() ==> out0[k].0@ != p.0@,
    ensures
        listed_in(out1, pv, i + 1),
        lists_all(out1, pv, i + 1),
        unique_keys(out1),
{
    out0.insert_ensures(j, p);
    assert forall|a: int| 0 <= a < out1.len() implies exists|b: int|
        0 <= b < i + 1 && #[trigger] out1[a].0@ == pv[b].0@ && out1[a].1@ == pv[b].1@ by {
        if a < j {
            assert(out1[a] == out0[a]);
        } else if a == j {
            assert(out1[a] == p);
            assert(out1[a].0@ == pv[i].0@ && out1[a].1@ == pv[i].1@);
        } else {
            assert(out1[a] == out0[a - 1]);
        }
    }
    assert forall|b: int| 0 <= b < i + 1 implies exists|a: int|
        0 <= a < out1.len() && out1[a].0@ == #[trigger] pv[b].0@ && out1[a].1@ == pv[b].1@ by {
        if b < i {
            let a0 = choose|a0: int|
                0 <= a0 < out0.len() && out0[a0].0@ == pv[b].0@ && out0[a0].1@ == pv[b].1@;
            if a0 < j {
                assert(out1[a0] == out0[a0]);
            } else {
                assert(out1[a0 + 1] == out0[a0]);
            }
        } else {
            assert(out1[j] == p);
            assert(out1[j].0@ == pv[i].0@ && out1[j].1@ == pv[i].1@);
        }
    }
    assert forall|a: int, b: int| 0 <= a < b < out1.len() implies out1[a].0@ != out1[b].0@ by {
        if a < j {
            assert(out1[a] == out0[a]);
        } else if a == j {
            assert(out1[a] == p);
        } else {
            assert(out1[a] == out0[a - 1]);
        }
        if b < j {
            assert(out1[b] == out0[b]);
        } else if b == j {
            assert(out1[b] == p);
        } else {
            assert(out1[b] == out0[b - 1]);
        }
    }
}

/// A full listing matches the primary association map exactly.
proof fn lemma_listing_complete(out: Seq<(String, RedirectEntry)>, pv: Seq<(String, RedirectEntry)>)
    requires
        unique_keys(pv),
        listed_in(out, pv, pv.len() as int),
        lists_all(out, pv, pv.len() as int),
    ensures
        forall|k: int| 0 <= k < out.len() ==> {
            &&& #[trigger] pairs_map(pv).contains_key(out[k].0@)
            &&& out[k].1@ == pairs_map(pv)[out[k].0@]
        },
        forall|k: Seq<char>| #[trigger] pairs_map(pv).contains_key(k) ==> exists|j: int|
            0 <= j < out.len() && out[j].0@ == k,
{
    assert forall|k: int| 0 <= k < out.len() implies {
        &&& #[trigger] pairs_map(pv).contains_key(out[k].0@)
        &&& out[k].1@ == pairs_map(pv)[out[k].0@]
    } by {
        let b = choose|b: int|
            0 <= b < pv.len() && #[trigger] out[k].0@ == pv[b].0@ && out[k].1@ == pv[b].1@;
        assert(forall|j: int| b < j < pv.len() ==> pv[j].0@ != pv[b].0@);
        lemma_pairs_map_last(pv, b);
    }
    assert forall|k: Seq<char>| #[trigger] pairs_map(pv).contains_key(k) implies exists|j: int|
        0 <= j < out.len() && out[j].0@ == k by {
        lemma_pairs_map_key(pv, k);
        let b = choose|b: int| 0 <= b < pv.len() && pv[b].0@ == k;
        let a = choose|a: int|
            0 <= a < out.len() && out[a].0@ == pv[b].0@ && out[a].1@ == pv[b].1@;
        assert(out[a].0@ == k);
    }
}

/// The first position whose key is not below `key`; inserting there keeps
/// the vector sorted.
fn insert_pos(v: &Vec<(String, RedirectEntry)>, key: &str) -> (j: usize)
    ensures
        j <= v@.len(),
        forall|k: int| 0 <= k < j ==> key_lt(v@[k].0@, key@),
        j < v@.len() ==> !key_lt(v@[j as int].0@, key@),
{
    let n = v.len();
    let mut j: usize = 0;
    while j < n
        invariant
            n == v@.len(),
            j <= n,
            forall|k: int| 0 <= k < j ==> key_lt(v@[k].0@, key@),
        decreases n - j,
    {
        if !key_lt_exec(v[j].0.as_str(), key) {
            return j;
        }
        j = j + 1;
    }
    j
}

/// Inserts a pair whose key is not yet present, keeping the vector sorted.
fn sorted_insert(v: &mut Vec<(String, RedirectEntry)>, p: (String, RedirectEntry))
    requires
        sorted_by_key(old(v)@),
        forall|k: int| 0 <= k < old(v)@.len() ==> old(v)@[k].0@ != p.0@,
    ensures
        sorted_by_key(final(v)@),
        final(v)@.len() == old(v)@.len() + 1,
        exists|j: int| 0 <= j <= old(v)@.len() && final(v)@ == old(v)@.insert(j, p),
{
    let j = insert_pos(v, p.0.as_str());
    v.insert(j, p);
    proof {
        let s0 = old(v)@;
        let jj = j as int;
        s0.insert_ensures(jj, p);
        assert forall|a: int, b: int| 0 <= a < b < v@.len() implies key_le(
            v@[a].0@,
            v@[b].0@,
        ) by {
            if b < jj {
                assert(v@[a] == s0[a] && v@[b] == s0[b]);
            } else if b == jj {
                assert(v@[a] == s0[a] && v@[b] == p);
                assert(key_lt(s0[a].0@, p.0@));
            } else if a == jj {
                assert(v@[a] == p && v@[b] == s0[b - 1]);
                assert(!key_lt(s0[jj].0@, p.0@));
                lemma_key_total(p.0@, s0[jj].0@);
                assert(key_lt(p.0@, s0[jj].0@));
                if b - 1 > jj {
                    assert(key_le(s0[jj].0@, s0[b - 1].0@));
                    if key_lt(s0[jj].0@, s0[b - 1].0@) {
                        lemma_key_lt_trans(p.0@, s0[jj].0@, s0[b - 1].0@);
                    }
                }
            } else if a < jj {
                assert(v@[a] == s0[a] && v@[b] == s0[b - 1]);
                assert(key_le(s0[a].0@, s0[b - 1].0@));
            } else {
                assert(v@[a] == s0[a - 1] && v@[b] == s0[b - 1]);
                assert(key_le(s0[a - 1].0@, s0[b - 1].0@));
            }
        }
        assert(v@ == s0.insert(jj, p));
    }
}

/// The label of the bucket that gathers entries without a category.
pub open spec fn other_label() -> Seq<char> {
    "Other"@
}

/// The label under which an entry is grouped: its category, or `Other`.
pub open spec fn group_label(e: crate::table::EntryV) -> Seq<char> {
    match e.category {
        Option::Some(c) => c,
        Option::None => other_label(),
    }
}

/// Order on group labels: alphabetical, except that the `Other` bucket
/// comes after everything else.
pub open spec fn label_lt(a: Seq<char>, b: Seq<char>) -> bool {
    if a == other_label() {
        false
    } else if b == other_label() {
        true
    } else {
        key_lt(a, b)
    }
}

/// Label order is total.
pub proof fn lemma_label_total(a: Seq<char>, b: Seq<char>)
    ensures
        label_lt(a, b) || label_lt(b, a) || a == b,
{
    if a != other_label() && b != other_label() {
        lemma_key_total(a, b);
    }
}

/// Label order is transitive.
pub proof fn lemma_label_lt_trans(a: Seq<char>, b: Seq<char>, c: Seq<char>)
    requires
        label_lt(a, b),
        label_lt(b, c),
    ensures
        label_lt(a, c),
{
    if c != other_label() {
        lemma_key_lt_trans(a, b, c);
    }
}

/// The entry's group label.
fn group_label_of(e: &RedirectEntry) -> (r: String)
    ensures
        r@ == group_label(e@),
{
    match &e.category {
        Option::Some(c) => c.clone(),
        Option::None => "Other".to_owned(),
    }
}

/// Whether label `a` precedes label `b`.
fn label_lt_exec(a: &str, b: &str) -> (r: bool)
    ensures
        r == label_lt(a@, b@),
{
    if str_eq(a, "Other") {
        false
    } else if str_eq(b, "Other") {
        true
    } else {
        key_lt_exec(a, b)
    }
}

/// Group labels are strictly ordered (so unique, with `Other` last), every
/// group is nonempty, and each group's pairs are strictly sorted by key.
pub open spec fn groups_sorted(groups: Seq<(String, Vec<(String, RedirectEntry)>)>) -> bool {
    &&& forall|g1: int, g2: int|
        0 <= g1 < g2 < groups.len() ==> label_lt(groups[g1].0@, groups[g2].0@)
    &&& forall|g: int| 0 <= g < groups.len() ==> groups[g].1@.len() >= 1
    &&& forall|g: int, a: int, b: int|
        #![trigger groups[g].1@[a], groups[g].1@[b]]
        0 <= g < groups.len() && 0 <= a < b < groups[g].1@.len() ==> key_lt(
            groups[g].1@[a].0@,
            groups[g].1@[b].0@,
        )
}

/// Every pair in every group matches one of the first `i` pairs of `flat`,
/// and stands under that entry's group label.
pub open spec fn groups_from(
    groups: Seq<(String, Vec<(String, RedirectEntry)>)>,
    flat: Seq<(String, RedirectEntry)>,
    i: int,
) -> bool {
    forall|g: int, k: int|
        0 <= g < groups.len() && 0 <= k < groups[g].1@.len() ==> exists|b: int|
            0 <= b < i && #[trigger] groups[g].1@[k].0@ == flat[b].0@ && groups[g].1@[k].1@
                == flat[b].1@ && groups[g].0@ == group_label(flat[b].1@)
}

/// Each of the first `i` pairs of `flat` appears in some group.
pub open spec fn groups_cover(
    groups: Seq<(String, Vec<(String, RedirectEntry)>)>,
    flat: Seq<(String, RedirectEntry)>,
    i: int,
) -> bool {
    forall|b: int| 0 <= b < i ==> exists|g: int, k: int|
        0 <= g < groups.len() && 0 <= k < groups[g].1@.len() && groups[g].1@[k].0@
            == #[trigger] flat[b].0@ && groups[g].1@[k].1@ == flat[b].1@
}

/// Appending the `i`-th pair of `flat` to the group that carries its label
/// keeps the grouping sorted, sound and complete, now for `i + 1` pairs.
#[verifier::rlimit(100)]
proof fn lemma_group_append(
    groups0: Seq<(String, Vec<(String, RedirectEntry)>)>,
    groups1: Seq<(String, Vec<(String, RedirectEntry)>)>,
    flat: Seq<(String, RedirectEntry)>,
    i: int,
    j: int,
)
    requires
        0 <= i < flat.len(),
        0 <= j < groups0.len(),
        groups1.len() == groups0.len(),
        forall|k: int| 0 <= k < groups0.len() && k != j ==> groups1[k] == groups0[k],
        groups1[j].0@ == groups0[j].0@,
        groups1[j].1@.len() == groups0[j].1@.len() + 1,
        forall|k: int| 0 <= k < groups0[j].1@.len() ==> groups1[j].1@[k] == groups0[j].1@[k],
        groups1[j].1@.last().0@ == flat[i].0@,
        groups1[j].1@.last().1@ == flat[i].1@,
        groups0[j].0@ == group_label(flat[i].1@),
        sorted_by_key(flat),
        unique_keys(flat),
        groups_sorted(groups0),
        groups_from(groups0, flat, i),
        groups_cover(groups0, flat, i),
    ensures
        groups_sorted(groups1),
        groups_from(groups1, flat, i + 1),
        groups_cover(groups1, flat, i + 1),
{
    assert forall|g: int, k: int|
        0 <= g < groups1.len() && 0 <= k < groups1[g].1@.len() implies exists|b: int|
        0 <= b < i + 1 && #[trigger] groups1[g].1@[k].0@ == flat[b].0@ && groups1[g].1@[k].1@
            == flat[b].1@ && groups1[g].0@ == group_label(flat[b].1@) by {
        if g == j && k == groups0[j].1@.len() {
            assert(groups1[g].1@[k] == groups1[j].1@.last());
            assert(groups1[g].1@[k].0@ == flat[i].0@ && groups1[g].1@[k].1@ == flat[i].1@
                && groups1[g].0@ == group_label(flat[i].1@));
        } else {
            if g == j {
                assert(groups0[g].1@[k] == groups1[g].1@[k]);
            } else {
                assert(groups1[g] == groups0[g]);
                assert(groups0[g].1@[k] == groups1[g].1@[k]);
            }
            let b = choose|b: int|
                0 <= b < i && groups0[g].1@[k].0@ == flat[b].0@ && groups0[g].1@[k].1@
                    == flat[b].1@ && groups0[g].0@ == group_label(flat[b].1@);
            assert(groups1[g].1@[k].0@ == flat[b].0@ && groups1[g].1@[k].1@ == flat[b].1@
                && groups1[g].0@ == group_label(flat[b].1@));
        }
    }
    assert forall|b: int| 0 <= b < i + 1 implies exists|g: int, k: int|
        0 <= g < groups1.len() && 0 <= k < groups1[g].1@.len() && groups1[g].1@[k].0@
            == #[trigger] flat[b].0@ && groups1[g].1@[k].1@ == flat[b].1@ by {
        if b < i {
            let (g, k) = choose|g: int, k: int|
                0 <= g < groups0.len() && 0 <= k < groups0[g].1@.len() && groups0[g].1@[k].0@
                    == flat[b].0@ && groups0[g].1@[k].1@ == flat[b].1@;
            if g == j {
                assert(groups1[g].1@[k] == groups0[g].1@[k]);
            } else {
                assert(groups1[g] == groups0[g]);
            }
            assert(groups1[g].1@[k].0@ == flat[b].0@ && groups1[g].1@[k].1@ == flat[b].1@);
        } else {
            let k = groups0[j].1@.len() as int;
            assert(groups1[j].1@[k] == groups1[j].1@.last());
            assert(groups1[j].1@[k].0@ == flat[b].0@ && groups1[j].1@[k].1@ == flat[b].1@);
        }
    }
    assert forall|g1: int, g2: int| 0 <= g1 < g2 < groups1.len() implies label_lt(
        groups1[g1].0@,
        groups1[g2].0@,
    ) by {
        assert(groups1[g1].0@ == groups0[g1].0@ && groups1[g2].0@ == groups0[g2].0@);
    }
    assert forall|g: int, a: int, b: int|
        #![trigger groups1[g].1@[a], groups1[g].1@[b]]
        0 <= g < groups1.len() && 0 <= a < b < groups1[g].1@.len() implies key_lt(
        groups1[g].1@[a].0@,
        groups1[g].1@[b].0@,
    ) by {
        if g == j && b == groups0[j].1@.len() {
            assert(groups1[g].1@[a] == groups0[g].1@[a]);
            assert(groups1[g].1@[b] == groups1[j].1@.last());
            let b0 = choose|b0: int|
                0 <= b0 < i && groups0[g].1@[a].0@ == flat[b0].0@ && groups0[g].1@[a].1@
                    == flat[b0].1@ && groups0[g].0@ == group_label(flat[b0].1@);
            assert(key_le(flat[b0].0@, flat[i].0@));
            assert(flat[b0].0@ != flat[i].0@);
        } else if g == j {
            assert(groups1[g].1@[a] == groups0[g].1@[a] && groups1[g].1@[b] == groups0[g].1@[b]);
        } else {
            assert(groups1[g] == groups0[g]);
        }
    }
}

/// Opening a new group at its label's place keeps the group labels
/// strictly ordered and the groups' entries sorted.
proof fn lemma_group_insert_sorted(
    groups0: Seq<(String, Vec<(String, RedirectEntry)>)>,
    groups1: Seq<(String, Vec<(String, RedirectEntry)>)>,
    ng: (String, Vec<(String, RedirectEntry)>),
    j: int,
)
    requires
        0 <= j <= groups0.len(),
        groups1 == groups0.insert(j, ng),
        ng.1@.len() == 1,
        forall|k: int| 0 <= k < groups0.len() ==> groups0[k].0@ != ng.0@,
        forall|k: int| 0 <= k < j ==> label_lt(#[trigger] groups0[k].0@, ng.0@),
        j < groups0.len() ==> !label_lt(groups0[j].0@, ng.0@),
        groups_sorted(groups0),
    ensures
        groups_sorted(groups1),
{
    groups0.insert_ensures(j, ng);
    assert forall|g1: int, g2: int| 0 <= g1 < g2 < groups1.len() implies label_lt(
        groups1[g1].0@,
        groups1[g2].0@,
    ) by {
        if g2 < j {
            assert(groups1[g1] == groups0[g1] && groups1[g2] == groups0[g2]);
        } else if g2 == j {
            assert(groups1[g1] == groups0[g1] && groups1[g2] == ng);
        } else if g1 == j {
            assert(groups1[g1] == ng && groups1[g2] == groups0[g2 - 1]);
            assert(!label_lt(groups0[j].0@, ng.0@) && groups0[j].0@ != ng.0@);
            lemma_label_total(ng.0@, groups0[j].0@);
            assert(label_lt(ng.0@, groups0[j].0@));
            if g2 - 1 > j {
                assert(label_lt(groups0[j].0@, groups0[g2 - 1].0@));
                lemma_label_lt_trans(ng.0@, groups0[j].0@, groups0[g2 - 1].0@);
            }
        } else if g1 < j {
            assert(groups1[g1] == groups0[g1] && groups1[g2] == groups0[g2 - 1]);
        } else {
            assert(groups1[g1] == groups0[g1 - 1] && groups1[g2] == groups0[g2 - 1]);
        }
    }
    assert forall|g: int, a: int, b: int|
        #![trigger groups1[g].1@[a], groups1[g].1@[b]]
        0 <= g < groups1.len() && 0 <= a < b < groups1[g].1@.len() implies key_lt(
        groups1[g].1@[a].0@,
        groups1[g].1@[b].0@,
    ) by {
        if g < j {
            assert(groups1[g] == groups0[g]);
            assert(groups0[g].1@[a] == groups1[g].1@[a] && groups0[g].1@[b] == groups1[g].1@[b]);
        } else if g > j {
            assert(groups1[g] == groups0[g - 1]);
            assert(groups0[g - 1].1@[a] == groups1[g].1@[a] && groups0[g - 1].1@[b]
                == groups1[g].1@[b]);
        }
    }
}

/// Opening a new group for the `i`-th pair of `flat` keeps every grouped
/// pair one of the first `i + 1` pairs, under its entry's label.
proof fn lemma_group_insert_from(
    groups0: Seq<(String, Vec<(String, RedirectEntry)>)>,
    groups1: Seq<(String, Vec<(String, RedirectEntry)>)>,
    flat: Seq<(String, RedirectEntry)>,
    ng: (String, Vec<(String, RedirectEntry)>),
    i: int,
    j: int,
)
    requires
        0 <= i < flat.len(),
        0 <= j <= groups0.len(),
        groups1 == groups0.insert(j, ng),
        ng.0@ == group_label(flat[i].1@),
        ng.1@.len() == 1,
        ng.1@[0].0@ == flat[i].0@,
        ng.1@[0].1@ == flat[i].1@,
        groups_from(groups0, flat, i),
    ensures
        groups_from(groups1, flat, i + 1),
{
    groups0.insert_ensures(j, ng);
    assert forall|g: int, k: int|
        0 <= g < groups1.len() && 0 <= k < groups1[g].1@.len() implies exists|b: int|
        0 <= b < i + 1 && #[trigger] groups1[g].1@[k].0@ == flat[b].0@ && groups1[g].1@[k].1@
            == flat[b].1@ && groups1[g].0@ == group_label(flat[b].1@) by {
        if g < j {
            assert(groups1[g] == groups0[g]);
            assert(groups0[g].1@[k] == groups1[g].1@[k]);
            let b = choose|b: int|
                0 <= b < i && groups0[g].1@[k].0@ == flat[b].0@ && groups0[g].1@[k].1@
                    == flat[b].1@ && groups0[g].0@ == group_label(flat[b].1@);
            assert(groups1[g].1@[k].0@ == flat[b].0@ && groups1[g].1@[k].1@ == flat[b].1@
                && groups1[g].0@ == group_label(flat[b].1@));
        } else if g == j {
            assert(groups1[g] == ng);
            assert(groups1[g].1@[k].0@ == flat[i].0@ && groups1[g].1@[k].1@ == flat[i].1@
                && groups1[g].0@ == group_label(flat[i].1@));
        } else {
            assert(groups1[g] == groups0[g - 1]);
            assert(groups0[g - 1].1@[k] == groups1[g].1@[k]);
            let b = choose|b: int|
                0 <= b < i && groups0[g - 1].1@[k].0@ == flat[b].0@ && groups0[g - 1].1@[k].1@
                    == flat[b].1@ && groups0[g - 1].0@ == group_label(flat[b].1@);
            assert(groups1[g].1@[k].0@ == flat[b].0@ && groups1[g].1@[k].1@ == flat[b].1@
                && groups1[g].0@ == group_label(flat[b].1@));
        }
    }
}

/// Opening a new group for the `i`-th pair of `flat` keeps each of the
/// first `i + 1` pairs grouped somewhere.
proof fn lemma_group_insert_cover(
    groups0: Seq<(String, Vec<(String, RedirectEntry)>)>,
    groups1: Seq<(String, Vec<(String, RedirectEntry)>)>,
    flat: Seq<(String, RedirectEntry)>,
    ng: (String, Vec<(String, RedirectEntry)>),
    i: int,
    j: int,
)
    requires
        0 <= i < flat.len(),
        0 <= j <= groups0.len(),
        groups1 == groups0.insert(j, ng),
        ng.1@.len() == 1,
        ng.1@[0].0@ == flat[i].0@,
        ng.1@[0].1@ == flat[i].1@,
        groups_cover(groups0, flat, i),
    ensures
        groups_cover(groups1, flat, i + 1),
{
    groups0.insert_ensures(j, ng);
    assert forall|b: int| 0 <= b < i + 1 implies exists|g: int, k: int|
        0 <= g < groups1.len() && 0 <= k < groups1[g].1@.len() && groups1[g].1@[k].0@
            == #[trigger] flat[b].0@ && groups1[g].1@[k].1@ == flat[b].1@ by {
        if b < i {
            let (g, k) = choose|g: int, k: int|
                0 <= g < groups0.len() && 0 <= k < groups0[g].1@.len() && groups0[g].1@[k].0@
                    == flat[b].0@ && groups0[g].1@[k].1@ == flat[b].1@;
            if g < j {
                assert(groups1[g] == groups0[g]);
                assert(groups1[g].1@[k].0@ == flat[b].0@ && groups1[g].1@[k].1@ == flat[b].1@);
            } else {
                assert(groups1[g + 1] == groups0[g]);
                assert(groups1[g + 1].1@[k].0@ == flat[b].0@ && groups1[g + 1].1@[k].1@
                    == flat[b].1@);
            }
        } else {
            assert(groups1[j] == ng);
            assert(groups1[j].1@[0].0@ == flat[b].0@ && groups1[j].1@[0].1@ == flat[b].1@);
        }
    }
}

/// The first position whose label is not below `label`.
fn group_pos(v: &Vec<(String, Vec<(String, RedirectEntry)>)>, label: &str) -> (j: usize)
    ensures
        j <= v@.len(),
        forall|k: int| 0 <= k < j ==> label_lt(#[trigger] v@[k].0@, label@),
        j < v@.len() ==> !label_lt(v@[j as int].0@, label@),
{
    let n = v.len();
    let mut j: usize = 0;
    while j < n
        invariant
            n == v@.len(),
            j <= n,
            forall|k: int| 0 <= k < j ==> label_lt(#[trigger] v@[k].0@, label@),
        decreases n - j,
    {
        if !label_lt_exec(v[j].0.as_str(), label) {
            return j;
        }
        j = j + 1;
    }
    j
}

/// The group carrying `label`, if one exists.
fn find_group(v: &Vec<(String, Vec<(String, RedirectEntry)>)>, label: &str) -> (r: Option<usize>)
    ensures
        match r {
            Option::Some(g) => g < v@.len() && v@[g as int].0@ == label@,
            Option::None => forall|k: int| 0 <= k < v@.len() ==> v@[k].0@ != label@,
        },
{
    let n = v.len();
    let mut g: usize = 0;
    while g < n
        invariant
            n == v@.len(),
            g <= n,
            forall|k: int| 0 <= k < g ==> v@[k].0@ != label@,
        decreases n - g,
    {
        if str_eq(v[g].0.as_str(), label) {
            return Option::Some(g);
        }
        g = g + 1;
    }
    Option::None
}

/// The data the index-page renderer iterates: each configured redirect once,
/// as a key/entry pair, sorted by key.
pub struct IndexTemplate {
    pub redirects: Vec<(String, RedirectEntry)>,
}

impl IndexTemplate {
    /// Builds the listing from the table: exactly the primary entries,
    /// each key once, sorted by key.
    pub fn new(table: &RedirectTable) -> (r: IndexTemplate)
        requires
            table.wf(),
        ensures
            sorted_by_key(r.redirects@),
            unique_keys(r.redirects@),
            r.redirects@.len() == table.primary@.len(),
            forall|k: int| 0 <= k < r.redirects@.len() ==> {
                &&& #[trigger] table@.primary.contains_key(r.redirects@[k].0@)
                &&& r.redirects@[k].1@ == table@.primary[r.redirects@[k].0@]
            },
            forall|k: Seq<char>| #[trigger] table@.primary.contains_key(k) ==> exists|j: int|
                0 <= j < r.redirects@.len() && r.redirects@[j].0@ == k,
    {
        let n = table.primary.len();
        let mut out: Vec<(String, RedirectEntry)> = Vec::new();
        let mut i: usize = 0;
        while i < n
            invariant
                n == table.primary@.len(),
                i <= n,
                unique_keys(table.primary@),
                out@.len() == i,
                sorted_by_key(out@),
                listed_in(out@, table.primary@, i as int),
                lists_all(out@, table.primary@, i as int),
                unique_keys(out@),
            decreases n - i,
        {
            let p = (table.primary[i].0.clone(), table.primary[i].1.duplicate());
            proof {
                lemma_fresh_key(out@, table.primary@, i as int);
            }
            let ghost out0 = out@;
            sorted_insert(&mut out, p);
            proof {
                let jj = choose|j: int| 0 <= j <= out0.len() && out@ == out0.insert(j, p);
                lemma_listing_step(table.primary@, out0, out@, p, i as int, jj);
            }
            i = i + 1;
        }
        proof {
            lemma_listing_complete(out@, table.primary@);
            assert(table@.primary == pairs_map(table.primary@));
            assert forall|k: int| 0 <= k < out@.len() implies {
                &&& #[trigger] table@.primary.contains_key(out@[k].0@)
                &&& out@[k].1@ == table@.primary[out@[k].0@]
            } by {
                assert(pairs_map(table.primary@).contains_key(out@[k].0@));
                assert(out@[k].1@ == pairs_map(table.primary@)[out@[k].0@]);
            }
            assert forall|k: Seq<char>| #[trigger] table@.primary.contains_key(k) implies exists|
                j: int,
            | 0 <= j < out@.len() && out@[j].0@ == k by {
                assert(pairs_map(table.primary@).contains_key(k));
            }
        }
        IndexTemplate { redirects: out }
    }

    /// The listing grouped for rendering: one group per category label,
    /// labels alphabetically sorted with the `Other` bucket (entries
    /// without a category) last, each group's entries sorted by key;
    /// together the groups hold exactly the listing's pairs.
    pub fn grouped(&self) -> (groups: Vec<(String, Vec<(String, RedirectEntry)>)>)
        requires
            sorted_by_key(self.redirects@),
            unique_keys(self.redirects@),
        ensures
            groups_sorted(groups@),
            groups_from(groups@, self.redirects@, self.redirects@.len() as int),
            groups_cover(groups@, self.redirects@, self.redirects@.len() as int),
    {
        let n = self.redirects.len();
        let mut groups: Vec<(String, Vec<(String, RedirectEntry)>)> = Vec::new();
        let mut i: usize = 0;
        while i < n
            invariant
                n == self.redirects@.len(),
                i <= n,
                sorted_by_key(self.redirects@),
                unique_keys(self.redirects@),
                groups_sorted(groups@),
                groups_from(groups@, self.redirects@, i as int),
                groups_cover(groups@, self.redirects@, i as int),
            decreases n - i,
        {
            let p = (self.redirects[i].0.clone(), self.redirects[i].1.duplicate());
            let label = group_label_of(&p.1);
            match find_group(&groups, label.as_str()) {
                Option::Some(g) => {
                    let ghost groups0 = groups@;
                    let removed = groups.remove(g);
                    let ghost removed_label = removed.0@;
                    let (glabel, mut gvec) = removed;
                    let ghost gvec0 = gvec@;
                    gvec.push(p);
                    let ghost gvec1 = gvec@;
                    groups.insert(g, (glabel, gvec));
                    proof {
                        let mid = groups0.remove(g as int);
                        groups0.remove_ensures(g as int);
                        mid.insert_ensures(g as int, groups@[g as int]);
                        assert(groups@.len() == groups0.len());
                        assert forall|k: int|
                            0 <= k < groups0.len() && k != g implies groups@[k]
                            == groups0[k] by {
                            if k < g {
                                assert(groups@[k] == mid[k] && mid[k] == groups0[k]);
                            } else {
                                assert(groups@[k] == mid[k - 1] && mid[k - 1] == groups0[k]);
                            }
                        }
                        assert(groups@[g as int].0@ == removed_label);
                        assert(removed_label == groups0[g as int].0@);
                        assert(groups@[g as int].1@ == gvec1);
                        assert(gvec0 == groups0[g as int].1@);
                        lemma_group_append(
                            groups0,
                            groups@,
                            self.redirects@,
                            i as int,
                            g as int,
                        );
                    }
                },
                Option::None => {
                    let ghost groups0 = groups@;
                    let pos = group_pos(&groups, label.as_str());
                    let mut single: Vec<(String, RedirectEntry)> = Vec::new();
                    single.push(p);
                    groups.insert(pos, (label, single));
                    proof {
                        let ng = groups@[pos as int];
                        lemma_group_insert_sorted(groups0, groups@, ng, pos as int);
                        lemma_group_insert_from(
                            groups0,
                            groups@,
                            self.redirects@,
                            ng,
                            i as int,
                            pos as int,
                        );
                        lemma_group_insert_cover(
                            groups0,
                            groups@,
                            self.redirects@,
                            ng,
                            i as int,
                            pos as int,
                        );
                    }
                },
            }
            i = i + 1;
        }
        groups
    }
}

} // verus!
