//! Internal/external classification of router and peer names.
//!
//! A name denotes an external (peering) network exactly when the part of the
//! name before the first `#` separator is entirely upper-case.  "Entirely
//! upper-case" means that upper-casing the prefix leaves it unchanged.

use vstd::prelude::*;

verus! {

/// The sequence of characters that `str::to_uppercase` returns for `s`.
/// It is a function of the characters of `s` alone; nothing further is
/// assumed about the Unicode mapping.
pub uninterp spec fn upper_of(s: Seq<char>) -> Seq<char>;

/// A name counts as all upper-case when upper-casing leaves it unchanged.
pub open spec fn all_upper(s: Seq<char>) -> bool {
    upper_of(s) == s
}

/// Index of the first occurrence of `c` in `s`, or `s.len()` when `c` is
/// absent.
pub open spec fn first_index_of(s: Seq<char>, c: char) -> int
    decreases s.len(),
{
    if s.len() == 0 {
        0
    } else if s[0] == c {
        0
    } else {
        1 + first_index_of(s.drop_first(), c)
    }
}

pub proof fn lemma_first_index_of(s: Seq<char>, c: char)
    ensures
        0 <= first_index_of(s, c) <= s.len(),
        first_index_of(s, c) < s.len() ==> s[first_index_of(s, c)] == c,
        forall|j: int| 0 <= j < first_index_of(s, c) ==> s[j] != c,
    decreases s.len(),
{
    if s.len() == 0 {
    } else if s[0] == c {
    } else {
        lemma_first_index_of(s.drop_first(), c);
        assert forall|j: int| 0 <= j < first_index_of(s, c) implies s[j] != c by {
            if j > 0 {
                assert(s.drop_first()[j - 1] != c);
            }
        }
    }
}

/// The part of a name before the first `#`, or the whole name when it has
/// no `#`.
pub open spec fn hash_prefix(s: Seq<char>) -> Seq<char> {
    s.take(first_index_of(s, '#'))
}

/// The classification rule: a name is external exactly when its `#`-prefix
/// is entirely upper-case.
pub open spec fn spec_is_external(s: Seq<char>) -> bool {
    all_upper(hash_prefix(s))
}

/// Relies on `str::to_uppercase`: the returned characters depend on the
/// characters of `s` alone, here named `upper_of`.
#[verifier::external_body]
pub(crate) fn to_upper(s: &str) -> (r: String)
    ensures
        r@ == upper_of(s@),
{
    s.to_uppercase()
}

/// True when upper-casing leaves the whole name unchanged.
pub fn name_is_all_upper(s: &str) -> (r: bool)
    ensures
        r == all_upper(s@),
{
    let upper = to_upper(s);
    let owned = s.to_owned();
    upper == owned
}

/// Returns the index of the first `'#'` at or after `i`, scanning from `i`,
/// as the index of the first `'#'` of the whole string.
fn first_hash_from(name: &str, i: usize) -> (r: usize)
    requires
        i <= name@.len(),
        forall|j: int| 0 <= j < i ==> name@[j] != '#',
    ensures
        r as int == first_index_of(name@, '#'),
    decreases name@.len() - i,
{
    proof {
        lemma_first_index_of(name@, '#');
    }
    let len = name.unicode_len();
    if i == len {
        proof {
            let fi = first_index_of(name@, '#');
            if fi < name@.len() {
                assert(name@[fi] == '#');
                assert(name@[fi] != '#');
            }
        }
        len
    } else if name.get_char(i) == '#' {
        proof {
            let fi = first_index_of(name@, '#');
            if fi < i as int {
                assert(name@[fi] != '#');
                assert(name@[fi] == '#');
            }
            if fi > i as int {
                assert(name@[i as int] != '#');
            }
        }
        i
    } else {
        first_hash_from(name, i + 1)
    }
}

/// Classifies a name by the upper-case convention: true exactly when the
/// part of `name` before the first `#` is unchanged by upper-casing.
pub fn is_peer_from_name(name: &str) -> (r: bool)
    ensures
        r == spec_is_external(name@),
{
    let idx = first_hash_from(name, 0);
    proof {
        lemma_first_index_of(name@, '#');
    }
    let prefix = name.substring_char(0, idx);
    let upper = to_upper(prefix);
    let prefix_owned = prefix.to_owned();
    let r = upper == prefix_owned;
    proof {
        assert(name@.take(idx as int) =~= name@.subrange(0, idx as int));
    }
    r
}

} // verus!
