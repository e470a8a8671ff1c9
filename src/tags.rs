//! Key/value tags attached to map ways.
//!
//! A tag list is kept in insertion order; when a key appears more than once,
//! the first occurrence is the one that counts.
use vstd::prelude::*;

verus! {

/// The value of `key` in `tags`, looking from position `i` onwards.
pub open spec fn tag_value_from(tags: Seq<(String, String)>, key: Seq<char>, i: int) -> Option<
    Seq<char>,
>
    decreases tags.len() - i,
{
    if i < 0 || i >= tags.len() {
        None
    } else if tags[i].0@ == key {
        Some(tags[i].1@)
    } else {
        tag_value_from(tags, key, i + 1)
    }
}

/// The value of `key` in `tags`: the value of its first occurrence.
pub open spec fn tag_value(tags: Seq<(String, String)>, key: Seq<char>) -> Option<Seq<char>> {
    tag_value_from(tags, key, 0)
}

/// Whether `tags` carries `key` with exactly `value`.
pub open spec fn has_value(tags: Seq<(String, String)>, key: Seq<char>, value: Seq<char>) -> bool {
    tag_value(tags, key) == Some(value)
}

/// Whether `tags` carries `key` with any value.
pub open spec fn has_key(tags: Seq<(String, String)>, key: Seq<char>) -> bool {
    tag_value(tags, key).is_some()
}

/// Character-wise equality of two strings.
pub fn text_eq(a: &str, b: &str) -> (r: bool)
    ensures
        r == (a@ == b@),
{
    let n = a.unicode_len();
    let m = b.unicode_len();
    if n != m {
        return false;
    }
    let mut i: usize = 0;
    while i < n
        invariant
            n == a@.len(),
            m == b@.len(),
            n == m,
            i <= n,
            forall|j: int| 0 <= j < i ==> a@[j] == b@[j],
        decreases n - i,
    {
        if a.get_char(i) != b.get_char(i) {
            return false;
        }
        i = i + 1;
    }
    assert(a@ =~= b@);
    true
}

/// Looks `key` up: the position of its first occurrence, if any.
pub fn find_tag(tags: &Vec<(String, String)>, key: &str) -> (r: Option<usize>)
    ensures
        match r {
            Some(i) => i < tags@.len() && tags@[i as int].0@ == key@ && tag_value(tags@, key@)
                == Some(tags@[i as int].1@),
            None => tag_value(tags@, key@).is_none(),
        },
{
    let mut i: usize = 0;
    while i < tags.len()
        invariant
            i <= tags@.len(),
            tag_value(tags@, key@) == tag_value_from(tags@, key@, i as int),
        decreases tags@.len() - i,
    {
        if text_eq(tags[i].0.as_str(), key) {
            return Some(i);
        }
        i = i + 1;
    }
    None
}

/// Whether the tag `key` is present with exactly `value`.
pub fn has_tag_value(tags: &Vec<(String, String)>, key: &str, value: &str) -> (r: bool)
    ensures
        r == has_value(tags@, key@, value@),
{
    match find_tag(tags, key) {
        Some(i) => text_eq(tags[i].1.as_str(), value),
        None => false,
    }
}

/// Whether the tag `key` is present, with any value.
pub fn has_tag(tags: &Vec<(String, String)>, key: &str) -> (r: bool)
    ensures
        r == has_key(tags@, key@),
{
    find_tag(tags, key).is_some()
}

/// The key of the `j`-th pair of an alternating key/value list.
pub open spec fn flat_key(flat: Seq<String>, j: int) -> Seq<char> {
    flat[2 * j]@
}

/// The value of the `j`-th pair; empty when the list ends on a key.
pub open spec fn flat_value(flat: Seq<String>, j: int) -> Seq<char> {
    if 2 * j + 1 < flat.len() {
        flat[2 * j + 1]@
    } else {
        Seq::empty()
    }
}

/// The number of pairs in an alternating key/value list.
pub open spec fn flat_pairs(flat: Seq<String>) -> int {
    (flat.len() as int + 1) / 2
}

/// The value of the last of the first `n` pairs whose key is `key`.
pub open spec fn last_value(flat: Seq<String>, key: Seq<char>, n: int) -> Option<Seq<char>>
    decreases n,
{
    if n <= 0 {
        None
    } else if flat_key(flat, n - 1) == key {
        Some(flat_value(flat, n - 1))
    } else {
        last_value(flat, key, n - 1)
    }
}

proof fn lemma_value_after_push(t: Seq<(String, String)>, x: (String, String), key: Seq<char>, i: int)
    requires
        0 <= i <= t.len(),
    ensures
        tag_value_from(t.push(x), key, i) == if tag_value_from(t, key, i) is Some {
            tag_value_from(t, key, i)
        } else if x.0@ == key {
            Some(x.1@)
        } else {
            None::<Seq<char>>
        },
    decreases t.len() - i,
{
    if i < t.len() {
        lemma_value_after_push(t, x, key, i + 1);
        assert(t.push(x)[i] == t[i]);
    } else {
        assert(t.push(x)[i] == x);
        assert(tag_value_from(t.push(x), key, i + 1) is None);
    }
}

proof fn lemma_value_after_set(t: Seq<(String, String)>, p: int, x: (String, String), key: Seq<char>, i: int)
    requires
        0 <= i <= p < t.len(),
        t[p].0@ == x.0@,
        forall|j: int| i <= j < p ==> (#[trigger] t[j]).0@ != x.0@,
    ensures
        tag_value_from(t.update(p, x), key, i) == if x.0@ == key {
            Some(x.1@)
        } else {
            tag_value_from(t, key, i)
        },
    decreases p - i,
{
    if i < p {
        lemma_value_after_set(t, p, x, key, i + 1);
        assert(t.update(p, x)[i] == t[i]);
    } else {
        assert(t.update(p, x)[p] == x);
        if x.0@ != key {
            lemma_value_same_after(t, t.update(p, x), key, p + 1);
        }
    }
}

proof fn lemma_value_same_after(t: Seq<(String, String)>, u: Seq<(String, String)>, key: Seq<char>, i: int)
    requires
        0 <= i,
        t.len() == u.len(),
        forall|j: int| i <= j < t.len() ==> #[trigger] t[j] == u[j],
    ensures
        tag_value_from(t, key, i) == tag_value_from(u, key, i),
    decreases t.len() - i,
{
    if i < t.len() {
        lemma_value_same_after(t, u, key, i + 1);
    }
}

proof fn lemma_absent(t: Seq<(String, String)>, key: Seq<char>, i: int)
    requires
        0 <= i <= t.len(),
        forall|j: int| i <= j < t.len() ==> (#[trigger] t[j]).0@ != key,
    ensures
        tag_value_from(t, key, i) is None,
    decreases t.len() - i,
{
    if i < t.len() {
        lemma_absent(t, key, i + 1);
    }
}

/// The position of the first occurrence of `key`, with no earlier one.
fn find_first(tags: &Vec<(String, String)>, key: &str) -> (r: Option<usize>)
    ensures
        match r {
            Some(i) => i < tags@.len() && tags@[i as int].0@ == key@ && forall|j: int|
                0 <= j < i ==> (#[trigger] tags@[j]).0@ != key@,
            None => forall|j: int| 0 <= j < tags@.len() ==> (#[trigger] tags@[j]).0@ != key@,
        },
{
    let mut i: usize = 0;
    while i < tags.len()
        invariant
            i <= tags@.len(),
            forall|j: int| 0 <= j < i ==> (#[trigger] tags@[j]).0@ != key@,
        decreases tags@.len() - i,
    {
        if text_eq(tags[i].0.as_str(), key) {
            return Some(i);
        }
        i = i + 1;
    }
    None
}

/// Builds a tag list from an alternating key/value list, as a map would:
/// a repeated key takes its last value, and a final key without a value gets
/// the empty value.
pub fn tags_from_flat(flat: &Vec<String>) -> (r: Vec<(String, String)>)
    ensures
        forall|key: Seq<char>| #[trigger]
            tag_value(r@, key) == last_value(flat@, key, flat_pairs(flat@)),
{
    let mut r: Vec<(String, String)> = Vec::new();
    let n = flat.len();
    let pairs = n / 2 + n % 2;
    let mut q: usize = 0;
    while q < pairs
        invariant
            n == flat@.len(),
            pairs == flat_pairs(flat@),
            q <= pairs,
            forall|key: Seq<char>| #[trigger] tag_value(r@, key) == last_value(flat@, key, q as int),
        decreases pairs - q,
    {
        let j = 2 * q;
        let k = flat[j].clone();
        let v = if j + 1 < n {
            flat[j + 1].clone()
        } else {
            String::new()
        };
        let ghost pair = q as int;
        let ghost old_r = r@;
        let x = (k, v);
        assert(x.0@ == flat_key(flat@, pair));
        assert(x.1@ == flat_value(flat@, pair));
        match find_first(&r, x.0.as_str()) {
            Some(p) => {
                proof {
                    assert forall|key: Seq<char>| #[trigger]
                        tag_value(old_r.update(p as int, x), key) == last_value(flat@, key, pair + 1) by {
                        assert(tag_value(old_r, key) == last_value(flat@, key, pair));
                        lemma_value_after_set(old_r, p as int, x, key, 0);
                    }
                }
                r.set(p, x);
            },
            None => {
                proof {
                    assert forall|key: Seq<char>| #[trigger]
                        tag_value(old_r.push(x), key) == last_value(flat@, key, pair + 1) by {
                        assert(tag_value(old_r, key) == last_value(flat@, key, pair));
                        lemma_value_after_push(old_r, x, key, 0);
                        if x.0@ == key {
                            lemma_absent(old_r, key, 0);
                        }
                    }
                }
                r.push(x);
            },
        }
        q = q + 1;
    }
    r
}

} // verus!
