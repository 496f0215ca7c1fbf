//! Slash-separated object keys as mathematical character sequences: the
//! position of the last separator, basenames, parent prefixes, and the chain
//! of ancestor prefixes that the indexer materializes for a key.

use vstd::prelude::*;
use vstd::string::*;

verus! {

/// Index of the last `'/'` in `s`, or -1 when `s` has none.
pub open spec fn last_slash(s: Seq<char>) -> int
    decreases s.len(),
{
    if s.len() == 0 {
        -1
    } else if s[s.len() - 1] == '/' {
        s.len() - 1
    } else {
        last_slash(s.drop_last())
    }
}

/// `s` without one trailing `'/'`, if it carries one.
pub open spec fn strip_trailing_slash(s: Seq<char>) -> Seq<char> {
    if s.len() > 0 && s[s.len() - 1] == '/' {
        s.drop_last()
    } else {
        s
    }
}

/// The text after the last `'/'`: the whole of `s` when it has none.
pub open spec fn basename(s: Seq<char>) -> Seq<char> {
    s.subrange(last_slash(s) + 1, s.len() as int)
}

/// The prefix before the last `'/'` of `s` stripped of a trailing slash;
/// none when that slash is absent or leads the string.
pub open spec fn parent_of(s: Seq<char>) -> Option<Seq<char>> {
    let t = strip_trailing_slash(s);
    if last_slash(t) > 0 {
        Some(t.subrange(0, last_slash(t)))
    } else {
        None
    }
}

/// A key in the shape the store is meant to hold: nonempty, no leading or
/// trailing separator, no empty component.
pub open spec fn valid_key(s: Seq<char>) -> bool {
    &&& s.len() > 0
    &&& s[0] != '/'
    &&& s[s.len() - 1] != '/'
    &&& forall|i: int| #![trigger s[i]] 0 < i < s.len() ==> !(s[i - 1] == '/' && s[i] == '/')
}

/// How many `'/'` occur in `s`.
pub open spec fn slash_count(s: Seq<char>) -> nat
    decreases s.len(),
{
    if s.len() == 0 {
        0
    } else {
        slash_count(s.drop_last()) + if s[s.len() - 1] == '/' {
            1nat
        } else {
            0nat
        }
    }
}

pub proof fn lemma_last_slash(s: Seq<char>)
    ensures
        -1 <= last_slash(s) < s.len(),
        last_slash(s) >= 0 ==> s[last_slash(s)] == '/',
        forall|j: int| last_slash(s) < j < s.len() ==> s[j] != '/',
    decreases s.len(),
{
    if s.len() > 0 && s[s.len() - 1] != '/' {
        lemma_last_slash(s.drop_last());
        assert forall|j: int| last_slash(s) < j < s.len() implies s[j] != '/' by {
            if j < s.len() - 1 {
                assert(s.drop_last()[j] == s[j]);
            }
        }
    }
}

/// A separator at `i` with none after it is the last one.
pub proof fn lemma_last_slash_at(s: Seq<char>, i: int)
    requires
        0 <= i < s.len(),
        s[i] == '/',
        forall|j: int| i < j < s.len() ==> s[j] != '/',
    ensures
        last_slash(s) == i,
    decreases s.len(),
{
    if i < s.len() - 1 {
        assert(s.drop_last()[i] == s[i]);
        assert forall|j: int| i < j < s.drop_last().len() implies s.drop_last()[j] != '/' by {
            assert(s.drop_last()[j] == s[j]);
        }
        lemma_last_slash_at(s.drop_last(), i);
    }
}

/// A string without separators has `last_slash == -1`.
pub proof fn lemma_last_slash_none(s: Seq<char>)
    requires
        forall|j: int| 0 <= j < s.len() ==> s[j] != '/',
    ensures
        last_slash(s) == -1,
{
    lemma_last_slash(s);
    if last_slash(s) >= 0 {
        assert(s[last_slash(s)] == '/');
        assert(false);
    }
}

/// The basename carries no separator, and a string with a separator splits
/// into prefix, separator and basename.
pub proof fn lemma_basename(s: Seq<char>)
    ensures
        forall|j: int| 0 <= j < basename(s).len() ==> basename(s)[j] != '/',
        basename(s).len() == s.len() - 1 - last_slash(s),
        last_slash(s) >= 0 ==> s == s.subrange(0, last_slash(s)) + seq!['/'] + basename(s),
{
    lemma_last_slash(s);
    if last_slash(s) >= 0 {
        assert(s =~= s.subrange(0, last_slash(s)) + seq!['/'] + basename(s));
    }
}

/// Appending `'/'` and a separator-free name puts the last separator at the
/// join, so the basename of the joined key is the name.
pub proof fn lemma_basename_join(p: Seq<char>, name: Seq<char>)
    requires
        forall|j: int| 0 <= j < name.len() ==> name[j] != '/',
    ensures
        last_slash(p + seq!['/'] + name) == p.len(),
        basename(p + seq!['/'] + name) == name,
{
    let s = p + seq!['/'] + name;
    assert(s[p.len() as int] == '/');
    assert forall|j: int| p.len() < j < s.len() implies s[j] != '/' by {
        assert(s[j] == name[j - p.len() - 1]);
    }
    lemma_last_slash_at(s, p.len() as int);
    assert(basename(s) =~= name);
}

/// A separator-free string is its own basename.
pub proof fn lemma_basename_plain(s: Seq<char>)
    requires
        forall|j: int| 0 <= j < s.len() ==> s[j] != '/',
    ensures
        basename(s) == s,
{
    lemma_last_slash_none(s);
    assert(basename(s) =~= s);
}

/// Counting separators stops at the last one: everything after contributes
/// nothing.
proof fn lemma_slash_count_tail(s: Seq<char>, k: int)
    requires
        0 <= k < s.len(),
        s[k] == '/',
        forall|j: int| k < j < s.len() ==> s[j] != '/',
    ensures
        slash_count(s) == slash_count(s.subrange(0, k)) + 1,
    decreases s.len(),
{
    if k == s.len() - 1 {
        assert(s.drop_last() =~= s.subrange(0, k));
    } else {
        assert(s.drop_last()[k] == s[k]);
        assert forall|j: int| k < j < s.drop_last().len() implies s.drop_last()[j] != '/' by {
            assert(s.drop_last()[j] == s[j]);
        }
        lemma_slash_count_tail(s.drop_last(), k);
        assert(s.drop_last().subrange(0, k) =~= s.subrange(0, k));
    }
}

/// A separator-free string counts zero separators.
proof fn lemma_slash_count_none(s: Seq<char>)
    requires
        forall|j: int| 0 <= j < s.len() ==> s[j] != '/',
    ensures
        slash_count(s) == 0,
    decreases s.len(),
{
    if s.len() > 0 {
        assert forall|j: int| 0 <= j < s.drop_last().len() implies s.drop_last()[j] != '/' by {
            assert(s.drop_last()[j] == s[j]);
        }
        lemma_slash_count_none(s.drop_last());
    }
}

/// The chain of prefixes the indexer walks for a key: outermost ancestor
/// first, the key itself last.
pub open spec fn key_chain(s: Seq<char>) -> Seq<Seq<char>>
    decreases s.len(),
    via key_chain_decreases
{
    match parent_of(s) {
        Option::None => seq![s],
        Option::Some(p) => key_chain(p).push(s),
    }
}

#[via_fn]
proof fn key_chain_decreases(s: Seq<char>) {
    lemma_last_slash(strip_trailing_slash(s));
}

/// For any key: the chain ends in the key and its elements strictly grow.
pub proof fn lemma_key_chain_lens(s: Seq<char>)
    ensures
        key_chain(s).len() >= 1,
        key_chain(s)[key_chain(s).len() - 1] == s,
        forall|i: int, j: int|
            0 <= i < j < key_chain(s).len() ==> key_chain(s)[i].len() < key_chain(s)[j].len(),
        forall|i: int| 0 <= i < key_chain(s).len() ==> key_chain(s)[i].len() <= s.len(),
        forall|i: int| 0 <= i < key_chain(s).len() ==> i <= #[trigger] key_chain(s)[i].len(),
        key_chain(s).len() <= s.len() + 1,
    decreases s.len(),
{
    lemma_last_slash(strip_trailing_slash(s));
    match parent_of(s) {
        Option::None => {},
        Option::Some(p) => {
            lemma_key_chain_lens(p);
            assert(key_chain(s)[key_chain(s).len() - 2] == key_chain(p)[key_chain(p).len() - 1]);
        },
    }
}

/// For a well-shaped key: every chain element is well shaped, each one joins
/// its predecessor with a separator and a separator-free basename, and the
/// chain is one longer than the key's separator count.
pub proof fn lemma_key_chain_props(s: Seq<char>)
    requires
        valid_key(s),
    ensures
        key_chain(s).len() == slash_count(s) + 1,
        forall|i: int| 0 <= i < key_chain(s).len() ==> valid_key(#[trigger] key_chain(s)[i]),
        forall|i: int|
            0 < i < key_chain(s).len()
                ==> #[trigger] key_chain(s)[i] == key_chain(s)[i - 1] + seq!['/'] + basename(
                key_chain(s)[i],
            ),
        key_chain(s)[0] == basename(key_chain(s)[0]),
        forall|i: int|
            0 < i < key_chain(s).len() ==> last_slash(#[trigger] key_chain(s)[i]) == key_chain(
                s,
            )[i - 1].len(),
    decreases s.len(),
{
    lemma_last_slash(s);
    assert(strip_trailing_slash(s) == s);
    match parent_of(s) {
        Option::None => {
            // no separator at a positive index, and none at index 0 either
            assert(forall|j: int| 0 <= j < s.len() ==> s[j] != '/') by {
                assert(last_slash(s) <= 0);
                assert(s[0] != '/');
            }
            lemma_slash_count_none(s);
            lemma_basename_plain(s);
        },
        Option::Some(p) => {
            let ls = last_slash(s);
            assert(p == s.subrange(0, ls));
            // the parent is well shaped
            assert(p[0] == s[0]);
            assert(s[ls] == '/');
            assert(p[p.len() - 1] == s[ls - 1]);
            assert(s[ls - 1] != '/');
            assert forall|i: int| #![trigger p[i]] 0 < i < p.len() implies !(p[i - 1] == '/'
                && p[i] == '/') by {
                assert(p[i] == s[i] && p[i - 1] == s[i - 1]);
            }
            lemma_key_chain_props(p);
            lemma_key_chain_lens(p);
            lemma_basename(s);
            lemma_slash_count_tail(s, ls);
        },
    }
}

/// Index of the last `'/'` of `s`, walking backwards from the end.
pub fn find_last_slash(s: &str) -> (r: Option<usize>)
    ensures
        match r {
            Option::Some(i) => i == last_slash(s@),
            Option::None => last_slash(s@) == -1,
        },
{
    let n = s.unicode_len();
    let mut i = n;
    while i > 0
        invariant
            i <= n,
            n == s@.len(),
            forall|j: int| i <= j < n ==> s@[j] != '/',
        decreases i,
    {
        i = i - 1;
        if s.get_char(i) == '/' {
            proof {
                lemma_last_slash_at(s@, i as int);
            }
            return Some(i);
        }
    }
    proof {
        lemma_last_slash_none(s@);
    }
    None
}

/// Whether `s` ends in `'/'`.
pub fn ends_with_slash(s: &str) -> (r: bool)
    ensures
        r == (s@.len() > 0 && s@[s@.len() - 1] == '/'),
{
    let n = s.unicode_len();
    if n == 0 {
        false
    } else {
        s.get_char(n - 1) == '/'
    }
}

/// Character-wise equality of two string slices.
pub fn str_eq(a: &str, b: &str) -> (r: bool)
    ensures
        r == (a@ == b@),
{
    let na = a.unicode_len();
    let nb = b.unicode_len();
    if na != nb {
        return false;
    }
    let mut i: usize = 0;
    while i < na
        invariant
            i <= na,
            na == a@.len(),
            na == b@.len(),
            forall|j: int| 0 <= j < i ==> a@[j] == b@[j],
        decreases na - i,
    {
        if a.get_char(i) != b.get_char(i) {
            return false;
        }
        i = i + 1;
    }
    proof {
        assert(a@ =~= b@);
    }
    true
}

/// `parent` + `'/'` + `name` as one key.
pub fn join_with_slash(parent: &str, name: &str) -> (r: String)
    ensures
        r@ == parent@ + seq!['/'] + name@,
{
    let mut s = String::from_str(parent);
    s.append("/");
    s.append(name);
    proof {
        reveal_strlit("/");
        assert(("/")@ =~= seq!['/']);
        assert(s@ =~= parent@ + seq!['/'] + name@);
    }
    s
}

} // verus!
