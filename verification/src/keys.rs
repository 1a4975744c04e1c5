//! The key extractor: the grouping key of a dotted name.

use vstd::prelude::*;

verus! {

/// Index of the first `'.'` at or after `from`, or the length if there is
/// none.
pub open spec fn find_dot_from(s: Seq<char>, from: int) -> int
    decreases s.len() - from,
{
    if from < 0 || from >= s.len() {
        s.len() as int
    } else if s[from] == '.' {
        from
    } else {
        find_dot_from(s, from + 1)
    }
}

pub proof fn lemma_find_dot_from(s: Seq<char>, from: int)
    requires
        0 <= from <= s.len(),
    ensures
        from <= find_dot_from(s, from) <= s.len(),
        find_dot_from(s, from) < s.len() ==> s[find_dot_from(s, from)] == '.',
    decreases s.len() - from,
{
    if from < s.len() && s[from] != '.' {
        lemma_find_dot_from(s, from + 1);
    }
}

/// The grouping key of a dotted name: its first dot-part or, when the name
/// lies under the reserved `tool` namespace and has at least two parts, its
/// first two parts.  An empty name yields an empty key.
pub open spec fn group_key_of(s: Seq<char>) -> Seq<char> {
    let d1 = find_dot_from(s, 0);
    if d1 == s.len() {
        s
    } else if s.subrange(0, d1) == "tool"@ {
        s.subrange(0, find_dot_from(s, d1 + 1))
    } else {
        s.subrange(0, d1)
    }
}

/// Index of the first `'.'` at or after `from`, or the length if none.
fn find_dot(s: &str, from: usize) -> (r: usize)
    requires
        from <= s@.len(),
    ensures
        r as int == find_dot_from(s@, from as int),
        from <= r <= s@.len(),
{
    let n = s.unicode_len();
    let mut i = from;
    while i < n
        invariant
            from <= i <= n,
            n == s@.len(),
            find_dot_from(s@, from as int) == find_dot_from(s@, i as int),
        decreases n - i,
    {
        if s.get_char(i) == '.' {
            return i;
        }
        i = i + 1;
    }
    proof {
        lemma_find_dot_from(s@, from as int);
    }
    n
}

/// The grouping key of `k`, per [`group_key_of`].
pub fn get_key(k: &str) -> (r: String)
    ensures
        r@ == group_key_of(k@),
{
    let n = k.unicode_len();
    let d1 = find_dot(k, 0);
    if d1 == n {
        return String::from_str(k);
    }
    proof {
        lemma_find_dot_from(k@, 0);
        reveal_strlit("tool");
    }
    let is_tool = d1 == 4 && k.get_char(0) == 't' && k.get_char(1) == 'o' && k.get_char(2) == 'o'
        && k.get_char(3) == 'l';
    proof {
        if is_tool {
            assert(k@.subrange(0, d1 as int) =~= "tool"@);
        } else {
            if k@.subrange(0, d1 as int) == "tool"@ {
                assert(k@.subrange(0, d1 as int).len() == 4);
                assert(k@.subrange(0, d1 as int)[0] == 't' && k@.subrange(0, d1 as int)[1] == 'o'
                    && k@.subrange(0, d1 as int)[2] == 'o' && k@.subrange(0, d1 as int)[3] == 'l');
                assert(false);
            }
        }
    }
    if is_tool {
        let d2 = find_dot(k, d1 + 1);
        String::from_str(k.substring_char(0, d2))
    } else {
        String::from_str(k.substring_char(0, d1))
    }
}

} // verus!
