//! Character-level string helpers: equality, splitting on a separator, and
//! the facts about splitting that host classification and key extraction use.

use vstd::prelude::*;
use vstd::string::*;

verus! {

/// The character sequences of a sequence of strings.
pub open spec fn str_views(s: Seq<String>) -> Seq<Seq<char>> {
    s.map_values(|x: String| x@)
}

/// The pieces of `s[i..]` split on the separator `c`, with `cur` the piece
/// accumulated so far.
pub open spec fn split_acc(s: Seq<char>, c: char, i: nat, cur: Seq<char>) -> Seq<Seq<char>>
    decreases s.len() - i when i <= s.len()
{
    if i >= s.len() {
        seq![cur]
    } else if s[i as int] == c {
        seq![cur] + split_acc(s, c, (i + 1) as nat, Seq::empty())
    } else {
        split_acc(s, c, (i + 1) as nat, cur.push(s[i as int]))
    }
}

/// The pieces of `s` split on the separator `c`: one piece if `c` does not
/// occur, one more piece for every occurrence.
pub open spec fn split_char(s: Seq<char>, c: char) -> Seq<Seq<char>> {
    split_acc(s, c, 0, Seq::empty())
}

/// The prefix of `s` before the first occurrence of `c`, or all of `s` if
/// `c` does not occur.
pub open spec fn head_before(s: Seq<char>, c: char) -> Seq<char> {
    split_char(s, c)[0]
}

/// If `c` does not occur in `s[i..]`, that whole suffix is the single piece.
pub proof fn lemma_split_acc_no_sep(s: Seq<char>, c: char, i: nat, cur: Seq<char>)
    requires
        i <= s.len(),
        forall|k: int| i <= k < s.len() ==> s[k] != c,
    ensures
        split_acc(s, c, i, cur) == seq![cur + s.skip(i as int)],
    decreases s.len() - i,
{
    if i >= s.len() {
        assert(cur + s.skip(i as int) =~= cur);
        assert(split_acc(s, c, i, cur) =~= seq![cur + s.skip(i as int)]);
    } else {
        lemma_split_acc_no_sep(s, c, (i + 1) as nat, cur.push(s[i as int]));
        assert(cur.push(s[i as int]) + s.skip(i as int + 1) =~= cur + s.skip(i as int));
    }
}

/// If the first occurrence of `c` at or after `i` is at `j`, the split of
/// `s[i..]` starts with the piece `cur + s[i..j]` and continues with the
/// split of `s[j+1..]`.
pub proof fn lemma_split_acc_first_sep(s: Seq<char>, c: char, i: nat, cur: Seq<char>, j: nat)
    requires
        i <= j < s.len(),
        s[j as int] == c,
        forall|k: int| i <= k < j ==> s[k] != c,
    ensures
        split_acc(s, c, i, cur) == seq![cur + s.subrange(i as int, j as int)] + split_acc(
            s,
            c,
            (j + 1) as nat,
            Seq::empty(),
        ),
    decreases j - i,
{
    if i == j {
        assert(cur + s.subrange(i as int, j as int) =~= cur);
        assert(seq![cur] + split_acc(s, c, (j + 1) as nat, Seq::empty()) =~= seq![
            cur + s.subrange(i as int, j as int),
        ] + split_acc(s, c, (j + 1) as nat, Seq::empty()));
    } else {
        lemma_split_acc_first_sep(s, c, (i + 1) as nat, cur.push(s[i as int]), j);
        assert(cur.push(s[i as int]) + s.subrange(i as int + 1, j as int) =~= cur + s.subrange(
            i as int,
            j as int,
        ));
    }
}

/// If `c` does not occur in `s`, the prefix before it is all of `s`.
pub proof fn lemma_head_before_no_sep(s: Seq<char>, c: char)
    requires
        !s.contains(c),
    ensures
        head_before(s, c) == s,
{
    assert(forall|k: int| 0 <= k < s.len() ==> s[k] != c);
    lemma_split_acc_no_sep(s, c, 0, Seq::empty());
    assert(Seq::<char>::empty() + s.skip(0) =~= s);
}

/// If the first occurrence of `c` in `s` is at `j`, the prefix before it is
/// `s[0..j]`.
pub proof fn lemma_head_before_at(s: Seq<char>, c: char, j: nat)
    requires
        j < s.len(),
        s[j as int] == c,
        forall|k: int| 0 <= k < j ==> s[k] != c,
    ensures
        head_before(s, c) == s.subrange(0, j as int),
{
    lemma_split_acc_first_sep(s, c, 0, Seq::empty(), j);
    assert(Seq::<char>::empty() + s.subrange(0, j as int) =~= s.subrange(0, j as int));
}

/// Whether two string slices hold the same characters.
pub fn str_eq(a: &str, b: &str) -> (r: bool)
    ensures
        r == (a@ == b@),
{
    let na = a.unicode_len();
    let nb = b.unicode_len();
    if na != nb {
        return false;
    }
    let mut i: usize = 0;
    while i < na
        invariant
            na == a@.len(),
            na == b@.len(),
            i <= na,
            forall|k: int| 0 <= k < i ==> a@[k] == b@[k],
        decreases na - i,
    {
        if a.get_char(i) != b.get_char(i) {
            return false;
        }
        i = i + 1;
    }
    proof {
        assert(a@ =~= b@);
    }
    true
}

/// Splits `s` on the separator `c`; the piece views are exactly `split_char`.
pub fn split_on(s: &str, c: char) -> (parts: Vec<String>)
    ensures
        str_views(parts@) == split_char(s@, c),
        parts@.len() >= 1,
{
    let n = s.unicode_len();
    let mut parts: Vec<String> = Vec::new();
    let mut start: usize = 0;
    let mut i: usize = 0;
    proof {
        assert(s@.subrange(0, 0) =~= Seq::<char>::empty());
        assert(str_views(parts@) + split_acc(s@, c, 0, Seq::empty()) =~= split_acc(
            s@,
            c,
            0,
            Seq::empty(),
        ));
    }
    while i < n
        invariant
            n == s@.len(),
            start <= i <= n,
            split_char(s@, c) == str_views(parts@) + split_acc(
                s@,
                c,
                i as nat,
                s@.subrange(start as int, i as int),
            ),
        decreases n - i,
    {
        let ghost cur = s@.subrange(start as int, i as int);
        if s.get_char(i) == c {
            proof {
                assert(split_acc(s@, c, i as nat, cur) == seq![cur] + split_acc(
                    s@,
                    c,
                    (i + 1) as nat,
                    Seq::empty(),
                ));
            }
            let piece = s.substring_char(start, i).to_owned();
            let ghost parts0 = parts@;
            parts.push(piece);
            proof {
                assert(str_views(parts@) =~= str_views(parts0) + seq![cur]);
                assert(str_views(parts0) + seq![cur] + split_acc(s@, c, (i + 1) as nat, Seq::empty())
                    =~= str_views(parts0) + (seq![cur] + split_acc(
                    s@,
                    c,
                    (i + 1) as nat,
                    Seq::empty(),
                )));
            }
            start = i + 1;
            proof {
                assert(s@.subrange(start as int, start as int) =~= Seq::<char>::empty());
            }
        } else {
            proof {
                assert(split_acc(s@, c, i as nat, cur) == split_acc(
                    s@,
                    c,
                    (i + 1) as nat,
                    cur.push(s@[i as int]),
                ));
                assert(s@.subrange(start as int, i as int + 1) =~= cur.push(s@[i as int]));
            }
        }
        i = i + 1;
    }
    let ghost cur = s@.subrange(start as int, i as int);
    let piece = s.substring_char(start, n).to_owned();
    let ghost parts0 = parts@;
    parts.push(piece);
    proof {
        assert(split_acc(s@, c, i as nat, cur) == seq![cur]);
        assert(str_views(parts@) =~= str_views(parts0) + seq![cur]);
        assert(str_views(parts@) == split_char(s@, c));
    }
    parts
}

} // verus!
