//! Dotted variable paths: `hobby.categories.size` names the `size` of the
//! `categories` of `hobby`. A path splits at its last dot into the path of
//! the parent and the key inside it.
use vstd::prelude::*;

verus! {

/// Index of the last occurrence of `c` in `s`.
pub open spec fn last_index_of(s: Seq<char>, c: char) -> Option<int>
    decreases s.len(),
{
    if s.len() == 0 {
        None
    } else if s.last() == c {
        Some(s.len() - 1)
    } else {
        last_index_of(s.drop_last(), c)
    }
}

pub proof fn lemma_last_index_of(s: Seq<char>, c: char)
    ensures
        match last_index_of(s, c) {
            Some(i) => 0 <= i < s.len() && s[i] == c && forall|j: int|
                i < j < s.len() ==> #[trigger] s[j] != c,
            None => forall|j: int| 0 <= j < s.len() ==> #[trigger] s[j] != c,
        },
    decreases s.len(),
{
    if s.len() > 0 && s.last() != c {
        let p = s.drop_last();
        lemma_last_index_of(p, c);
        assert(forall|j: int| 0 <= j < p.len() ==> p[j] == s[j]);
    }
}

/// Splits `s` at the last occurrence of `c` into the text before and the text after it.
pub open spec fn split_last(s: Seq<char>, c: char) -> Option<(Seq<char>, Seq<char>)> {
    match last_index_of(s, c) {
        Some(i) => Some((s.take(i), s.skip(i + 1))),
        None => None,
    }
}

/// The text after the last dot, and the path before it.
pub open spec fn parent_path(s: Seq<char>) -> Option<(Seq<char>, Seq<char>)> {
    split_last(s, '.')
}

/// Splits `s` at the last occurrence of `c`.
pub fn break_on(s: &str, c: char) -> (r: Option<(String, String)>)
    ensures
        match r {
            Some(p) => split_last(s@, c) == Some((p.0@, p.1@)),
            None => split_last(s@, c) is None,
        },
{
    let n = s.unicode_len();
    let mut i: usize = n;
    while i > 0 && s.get_char(i - 1) != c
        invariant
            n == s@.len(),
            i <= n,
            forall|j: int| i <= j < n ==> #[trigger] s@[j] != c,
        decreases i,
    {
        i = i - 1;
    }
    proof {
        lemma_last_index_of(s@, c);
    }
    if i == 0 {
        assert(last_index_of(s@, c) is None) by {
            lemma_last_index_of(s@, c);
            if last_index_of(s@, c) is Some {
                let k = last_index_of(s@, c)->0;
                assert(s@[k] == c);
            }
        }
        None
    } else {
        let left = s.substring_char(0, i - 1);
        let right = s.substring_char(i, n);
        assert(last_index_of(s@, c) == Some((i - 1) as int)) by {
            lemma_last_index_of(s@, c);
            match last_index_of(s@, c) {
                Some(k) => {
                    if k < i - 1 {
                        assert(s@[i - 1] == c);
                    }
                },
                None => {
                    assert(s@[i - 1] == c);
                },
            }
        }
        Some((String::from_str(left), String::from_str(right)))
    }
}

/// `s` is `prefix` followed by a dot and more text.
pub open spec fn is_below(s: Seq<char>, prefix: Seq<char>) -> bool {
    s.len() > prefix.len() && s.take(prefix.len() as int) == prefix && s[prefix.len() as int] == '.'
}

/// Whether `s` starts with `prefix` followed by a dot.
pub fn starts_below(s: &String, prefix: &String) -> (r: bool)
    ensures
        r == is_below(s@, prefix@),
{
    let n = s.as_str().unicode_len();
    let m = prefix.as_str().unicode_len();
    if n <= m {
        return false;
    }
    let mut i: usize = 0;
    while i < m
        invariant
            n == s@.len(),
            m == prefix@.len(),
            m < n,
            i <= m,
            forall|j: int| 0 <= j < i ==> #[trigger] s@[j] == prefix@[j],
        decreases m - i,
    {
        if s.as_str().get_char(i) != prefix.as_str().get_char(i) {
            assert(s@.take(m as int)[i as int] != prefix@[i as int]);
            return false;
        }
        i = i + 1;
    }
    assert(s@.take(m as int) =~= prefix@);
    s.as_str().get_char(m) == '.'
}

} // verus!
