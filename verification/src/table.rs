//! The redirect table: primary entries keyed by short name, plus the derived
//! alias-to-primary index, built once from configuration and read-only
//! afterwards. Resolution of a key is a two-level lookup: the primary map
//! first, then one alias indirection.

use crate::strutil::str_eq;
use crate::strutil::str_views;
use vstd::prelude::*;
use vstd::string::*;

verus! {

/// One configured redirect: the target URL, a description for the index
/// page, an optional grouping category, and alternate keys.
#[derive(Debug, Clone)]
pub struct RedirectEntry {
    pub target_url: String,
    pub description: String,
    pub category: Option<String>,
    pub aliases: Vec<String>,
}

/// The mathematical value of a `RedirectEntry`.
pub struct EntryV {
    pub target_url: Seq<char>,
    pub description: Seq<char>,
    pub category: Option<Seq<char>>,
    pub aliases: Seq<Seq<char>>,
}

impl View for RedirectEntry {
    type V = EntryV;

    open spec fn view(&self) -> EntryV {
        EntryV {
            target_url: self.target_url@,
            description: self.description@,
            category: match self.category {
                Option::Some(c) => Option::Some(c@),
                Option::None => Option::None,
            },
            aliases: str_views(self.aliases@),
        }
    }
}

/// A copy of a string vector holding the same strings.
fn clone_strings(v: &Vec<String>) -> (r: Vec<String>)
    ensures
        r@ == v@,
{
    let mut r: Vec<String> = Vec::new();
    let mut i: usize = 0;
    while i < v.len()
        invariant
            i <= v@.len(),
            r@ =~= v@.take(i as int),
        decreases v@.len() - i,
    {
        r.push(v[i].clone());
        proof {
            assert(r@ =~= v@.take(i as int + 1));
        }
        i = i + 1;
    }
    proof {
        assert(v@.take(v@.len() as int) =~= v@);
    }
    r
}

impl RedirectEntry {
    /// A copy of the entry with the same value.
    pub fn duplicate(&self) -> (r: Self)
        ensures
            r@ == self@,
    {
        RedirectEntry {
            target_url: self.target_url.clone(),
            description: self.description.clone(),
            category: match &self.category {
                Option::Some(c) => Option::Some(c.clone()),
                Option::None => Option::None,
            },
            aliases: clone_strings(&self.aliases),
        }
    }
}

/// The association map of a key/value sequence; a later pair with the same
/// key wins over an earlier one.
pub open spec fn pairs_map<V: View>(s: Seq<(String, V)>) -> Map<Seq<char>, V::V>
    decreases s.len(),
{
    if s.len() == 0 {
        Map::empty()
    } else {
        pairs_map(s.drop_last()).insert(s.last().0@, s.last().1@)
    }
}

/// No two pairs share a key.
pub open spec fn unique_keys<V>(s: Seq<(String, V)>) -> bool {
    forall|i: int, j: int| 0 <= i < j < s.len() ==> s[i].0@ != s[j].0@
}

/// The last pair with a given key decides the association map.
pub proof fn lemma_pairs_map_last<V: View>(s: Seq<(String, V)>, i: int)
    requires
        0 <= i < s.len(),
        forall|j: int| i < j < s.len() ==> s[j].0@ != s[i].0@,
    ensures
        pairs_map(s).contains_key(s[i].0@),
        pairs_map(s)[s[i].0@] == s[i].1@,
    decreases s.len(),
{
    if i == s.len() - 1 {
    } else {
        assert(s.drop_last()[i] == s[i]);
        assert(forall|j: int| i < j < s.drop_last().len() ==> s.drop_last()[j] == s[j]);
        lemma_pairs_map_last(s.drop_last(), i);
        assert(s.last() == s[s.len() - 1]);
    }
}

/// A key of the association map comes from some pair.
pub proof fn lemma_pairs_map_key<V: View>(s: Seq<(String, V)>, k: Seq<char>)
    requires
        pairs_map(s).contains_key(k),
    ensures
        exists|i: int| 0 <= i < s.len() && s[i].0@ == k,
    decreases s.len(),
{
    if s.len() == 0 {
    } else if s.last().0@ == k {
        assert(s[s.len() - 1].0@ == k);
    } else {
        lemma_pairs_map_key(s.drop_last(), k);
        let i = choose|i: int| 0 <= i < s.drop_last().len() && s.drop_last()[i].0@ == k;
        assert(s[i].0@ == k);
    }
}

/// Looks `key` up in an association vector; scanning from the end makes the
/// last matching pair win, as in the association map.
fn assoc_get<'a, V: View>(v: &'a Vec<(String, V)>, key: &str) -> (r: Option<&'a V>)
    ensures
        match r {
            Option::Some(e) => pairs_map(v@).contains_key(key@) && e@ == pairs_map(v@)[key@],
            Option::None => !pairs_map(v@).contains_key(key@),
        },
{
    let mut i: usize = v.len();
    while i > 0
        invariant
            i <= v@.len(),
            forall|j: int| i <= j < v@.len() ==> v@[j].0@ != key@,
        decreases i,
    {
        i = i - 1;
        if str_eq(v[i].0.as_str(), key) {
            proof {
                lemma_pairs_map_last(v@, i as int);
            }
            return Option::Some(&v[i].1);
        }
    }
    proof {
        if pairs_map(v@).contains_key(key@) {
            lemma_pairs_map_key(v@, key@);
        }
    }
    Option::None
}

/// All aliases of one entry written into an alias index, in order.
pub open spec fn insert_aliases(
    m: Map<Seq<char>, Seq<char>>,
    aliases: Seq<Seq<char>>,
    k: Seq<char>,
) -> Map<Seq<char>, Seq<char>>
    decreases aliases.len(),
{
    if aliases.len() == 0 {
        m
    } else {
        insert_aliases(m, aliases.drop_last(), k).insert(aliases.last(), k)
    }
}

/// The alias index derived from the entries, in order: every alias of every
/// entry maps to that entry's key; a later write wins.
pub open spec fn alias_map_of(s: Seq<(String, RedirectEntry)>) -> Map<Seq<char>, Seq<char>>
    decreases s.len(),
{
    if s.len() == 0 {
        Map::empty()
    } else {
        insert_aliases(alias_map_of(s.drop_last()), s.last().1@.aliases, s.last().0@)
    }
}

/// Membership and values of `insert_aliases`.
pub proof fn lemma_insert_aliases(m: Map<Seq<char>, Seq<char>>, al: Seq<Seq<char>>, k: Seq<char>)
    ensures
        forall|a: Seq<char>|
            #[trigger] insert_aliases(m, al, k).contains_key(a) <==> (m.contains_key(a)
                || al.contains(a)),
        forall|a: Seq<char>| al.contains(a) ==> #[trigger] insert_aliases(m, al, k)[a] == k,
        forall|a: Seq<char>|
            !al.contains(a) && m.contains_key(a) ==> #[trigger] insert_aliases(m, al, k)[a] == m[a],
    decreases al.len(),
{
    if al.len() == 0 {
    } else {
        let dl = al.drop_last();
        lemma_insert_aliases(m, dl, k);
        assert(forall|i: int| 0 <= i < dl.len() ==> dl[i] == al[i]);
        assert forall|a: Seq<char>| #[trigger] al.contains(a) implies dl.contains(a) || a
            == al.last() by {
            let i = choose|i: int| 0 <= i < al.len() && al[i] == a;
            if i < al.len() - 1 {
                assert(dl[i] == a);
            }
        }
        assert forall|a: Seq<char>| #[trigger] dl.contains(a) implies al.contains(a) by {
            let i = choose|i: int| 0 <= i < dl.len() && dl[i] == a;
            assert(al[i] == a);
        }
        assert(al[al.len() - 1] == al.last() && al.contains(al.last()));
        assert forall|a: Seq<char>| #[trigger] insert_aliases(m, al, k).contains_key(a) implies
            m.contains_key(a) || al.contains(a) by {
            if a != al.last() {
                assert(insert_aliases(m, dl, k).contains_key(a));
            }
        }
        assert forall|a: Seq<char>| #[trigger] m.contains_key(a) implies insert_aliases(
            m,
            al,
            k,
        ).contains_key(a) by {
            assert(insert_aliases(m, dl, k).contains_key(a));
        }
        assert forall|a: Seq<char>| #[trigger] al.contains(a) implies insert_aliases(
            m,
            al,
            k,
        ).contains_key(a) by {
            if a != al.last() {
                assert(dl.contains(a));
                assert(insert_aliases(m, dl, k).contains_key(a));
            }
        }
        assert forall|a: Seq<char>| al.contains(a) implies #[trigger] insert_aliases(m, al, k)[a]
            == k by {
            if a != al.last() {
                assert(dl.contains(a));
                assert(insert_aliases(m, dl, k).contains_key(a));
                assert(insert_aliases(m, dl, k)[a] == k);
            }
        }
        assert forall|a: Seq<char>| !al.contains(a) && m.contains_key(a) implies #[trigger]
        insert_aliases(m, al, k)[a] == m[a] by {
            assert(a != al.last());
            assert(!dl.contains(a));
            assert(insert_aliases(m, dl, k)[a] == m[a]);
            assert(insert_aliases(m, dl, k).contains_key(a));
        }
    }
}

/// With unique primary keys, every alias in the index points at a primary
/// entry that declares it.
pub proof fn lemma_alias_map_sound(s: Seq<(String, RedirectEntry)>)
    requires
        unique_keys(s),
    ensures
        forall|a: Seq<char>| #[trigger] alias_map_of(s).contains_key(a) ==> {
            &&& pairs_map(s).contains_key(alias_map_of(s)[a])
            &&& pairs_map(s)[alias_map_of(s)[a]].aliases.contains(a)
        },
    decreases s.len(),
{
    if s.len() > 0 {
        let d = s.drop_last();
        let last = s[s.len() - 1];
        assert(forall|i: int| 0 <= i < d.len() ==> d[i] == s[i]);
        lemma_alias_map_sound(d);
        lemma_insert_aliases(alias_map_of(d), last.1@.aliases, last.0@);
        assert forall|a: Seq<char>| #[trigger] alias_map_of(s).contains_key(a) implies {
            &&& pairs_map(s).contains_key(alias_map_of(s)[a])
            &&& pairs_map(s)[alias_map_of(s)[a]].aliases.contains(a)
        } by {
            if last.1@.aliases.contains(a) {
                assert(alias_map_of(s)[a] == last.0@);
            } else {
                let k2 = alias_map_of(d)[a];
                if k2 == last.0@ {
                    lemma_pairs_map_key(d, k2);
                    let i = choose|i: int| 0 <= i < d.len() && d[i].0@ == k2;
                    assert(s[i].0@ == s[s.len() - 1].0@);
                    assert(false);
                }
            }
        }
    }
}

/// Every alias declared by some entry is in the index.
pub proof fn lemma_alias_map_complete(s: Seq<(String, RedirectEntry)>)
    ensures
        forall|k: Seq<char>, a: Seq<char>|
            pairs_map(s).contains_key(k) && #[trigger] pairs_map(s)[k].aliases.contains(a)
                ==> alias_map_of(s).contains_key(a),
    decreases s.len(),
{
    if s.len() > 0 {
        let d = s.drop_last();
        let last = s[s.len() - 1];
        lemma_alias_map_complete(d);
        lemma_insert_aliases(alias_map_of(d), last.1@.aliases, last.0@);
        assert forall|k: Seq<char>, a: Seq<char>|
            pairs_map(s).contains_key(k) && #[trigger] pairs_map(s)[k].aliases.contains(a)
            implies alias_map_of(s).contains_key(a) by {
            if k == last.0@ {
                assert(pairs_map(s)[k] == last.1@);
            } else {
                assert(pairs_map(d).contains_key(k) && pairs_map(d)[k].aliases.contains(a));
            }
        }
    }
}

/// The table: primary entries and the derived alias index.
pub struct RedirectTable {
    pub primary: Vec<(String, RedirectEntry)>,
    pub alias_index: Vec<(String, String)>,
}

/// The mathematical value of a `RedirectTable`: the two association maps.
pub struct TableV {
    pub primary: Map<Seq<char>, EntryV>,
    pub alias_index: Map<Seq<char>, Seq<char>>,
}

impl View for RedirectTable {
    type V = TableV;

    open spec fn view(&self) -> TableV {
        TableV { primary: pairs_map(self.primary@), alias_index: pairs_map(self.alias_index@) }
    }
}

/// Consistency of an alias index with the entries' alias lists: every
/// indexed alias points at a primary entry that declares it, and every
/// declared alias is indexed.
pub open spec fn alias_consistent(t: TableV) -> bool {
    &&& forall|a: Seq<char>| #[trigger] t.alias_index.contains_key(a) ==> {
        &&& t.primary.contains_key(t.alias_index[a])
        &&& t.primary[t.alias_index[a]].aliases.contains(a)
    }
    &&& forall|k: Seq<char>, a: Seq<char>|
        t.primary.contains_key(k) && #[trigger] t.primary[k].aliases.contains(a)
            ==> t.alias_index.contains_key(a)
}

/// What `resolve_key` returns: the primary entry under `key` if there is
/// one — a direct match is never shadowed by an alias — otherwise the entry
/// reached through one alias indirection, otherwise nothing.
pub open spec fn lookup_spec(t: TableV, key: Seq<char>) -> Option<EntryV> {
    if t.primary.contains_key(key) {
        Option::Some(t.primary[key])
    } else if t.alias_index.contains_key(key) && t.primary.contains_key(t.alias_index[key]) {
        Option::Some(t.primary[t.alias_index[key]])
    } else {
        Option::None
    }
}

impl RedirectTable {
    /// Well-formedness: unique primary keys and a consistent alias index.
    /// `new` establishes it; nothing mutates the table afterwards.
    pub open spec fn wf(self) -> bool {
        &&& unique_keys(self.primary@)
        &&& alias_consistent(self@)
    }

    /// Builds the table from the configured entries: `primary` holds the
    /// pairs as given, and the alias index maps every declared alias to its
    /// entry's key, a later declaration winning over an earlier one.
    pub fn new(entries: Vec<(String, RedirectEntry)>) -> (t: RedirectTable)
        requires
            unique_keys(entries@),
        ensures
            t@.primary == pairs_map(entries@),
            t@.alias_index == alias_map_of(entries@),
            t.primary@ == entries@,
            t.wf(),
    {
        let mut alias_vec: Vec<(String, String)> = Vec::new();
        let n = entries.len();
        let mut i: usize = 0;
        proof {
            assert(entries@.take(0) =~= Seq::<(String, RedirectEntry)>::empty());
        }
        while i < n
            invariant
                n == entries@.len(),
                i <= n,
                pairs_map(alias_vec@) == alias_map_of(entries@.take(i as int)),
            decreases n - i,
        {
            let ghost aliases_v = str_views(entries@[i as int].1.aliases@);
            let ghost key_v = entries@[i as int].0@;
            let m = entries[i].1.aliases.len();
            let mut j: usize = 0;
            proof {
                assert(aliases_v.take(0) =~= Seq::<Seq<char>>::empty());
            }
            while j < m
                invariant
                    n == entries@.len(),
                    i < n,
                    j <= m,
                    m == entries@[i as int].1.aliases@.len(),
                    aliases_v == str_views(entries@[i as int].1.aliases@),
                    key_v == entries@[i as int].0@,
                    pairs_map(alias_vec@) == insert_aliases(
                        alias_map_of(entries@.take(i as int)),
                        aliases_v.take(j as int),
                        key_v,
                    ),
                decreases m - j,
            {
                let alias = entries[i].1.aliases[j].clone();
                let key = entries[i].0.clone();
                let ghost av0 = alias_vec@;
                alias_vec.push((alias, key));
                proof {
                    assert(alias_vec@.drop_last() =~= av0);
                    assert(alias_vec@.last() == (alias, key));
                    assert(aliases_v.take(j as int + 1).drop_last() =~= aliases_v.take(j as int));
                    assert(aliases_v.take(j as int + 1).last() == aliases_v[j as int]);
                }
                j = j + 1;
            }
            proof {
                assert(aliases_v.take(m as int) =~= aliases_v);
                assert(entries@.take(i as int + 1).drop_last() =~= entries@.take(i as int));
                assert(entries@.take(i as int + 1).last() == entries@[i as int]);
            }
            i = i + 1;
        }
        proof {
            assert(entries@.take(n as int) =~= entries@);
            lemma_alias_map_sound(entries@);
            lemma_alias_map_complete(entries@);
        }
        RedirectTable { primary: entries, alias_index: alias_vec }
    }

    /// Two-level key resolution: the primary entry under `key`, or else the
    /// entry its alias points at, or else nothing.
    pub fn resolve_key<'a>(&'a self, key: &str) -> (r: Option<&'a RedirectEntry>)
        ensures
            match r {
                Option::Some(e) => lookup_spec(self@, key@) == Option::Some(e@),
                Option::None => lookup_spec(self@, key@) is None,
            },
    {
        match assoc_get(&self.primary, key) {
            Option::Some(e) => Option::Some(e),
            Option::None => match assoc_get(&self.alias_index, key) {
                Option::Some(pk) => assoc_get(&self.primary, pk.as_str()),
                Option::None => Option::None,
            },
        }
    }
}

/// Law: direct lookup never fails — every configured primary key resolves
/// to its own entry.
pub proof fn lemma_primary_key_resolves(t: TableV, k: Seq<char>)
    requires
        t.primary.contains_key(k),
    ensures
        lookup_spec(t, k) == Option::Some(t.primary[k]),
{
}

/// Law: a key that is both a primary key and declared as someone else's
/// alias resolves to its own entry — a direct match is never shadowed.
pub proof fn lemma_direct_match_precedence(t: TableV, a: Seq<char>)
    requires
        t.primary.contains_key(a),
        t.alias_index.contains_key(a),
    ensures
        lookup_spec(t, a) == Option::Some(t.primary[a]),
{
}

/// Law: an alias resolves to the same entry as its primary key, provided it
/// collides with no primary key and no other entry's alias list.
pub proof fn lemma_alias_resolves(t: TableV, k: Seq<char>, a: Seq<char>)
    requires
        alias_consistent(t),
        t.primary.contains_key(k),
        t.primary[k].aliases.contains(a),
        !t.primary.contains_key(a),
        forall|k2: Seq<char>|
            #[trigger] t.primary.contains_key(k2) && k2 != k ==> !t.primary[k2].aliases.contains(a),
    ensures
        lookup_spec(t, a) == lookup_spec(t, k),
        lookup_spec(t, a) == Option::Some(t.primary[k]),
{
    assert(t.alias_index.contains_key(a));
    let k2 = t.alias_index[a];
    assert(t.primary.contains_key(k2) && t.primary[k2].aliases.contains(a));
    assert(k2 == k);
}

} // verus!
