//! `key=value` arguments, and the ordered map that they make.

use vstd::prelude::*;
use crate::text::{string_of, to_chars};

verus! {

/// The texts of a sequence of strings.
pub open spec fn texts(strings: Seq<String>) -> Seq<Seq<char>> {
    Seq::new(strings.len(), |i: int| strings[i]@)
}

/// The least index at or after `from` where `s` holds `=`, or the first
/// index past the text if there is none.
pub open spec fn separator_index(s: Seq<char>, from: int) -> int
    decreases s.len() - from,
{
    if 0 <= from < s.len() && s[from] != '=' {
        separator_index(s, from + 1)
    } else {
        from
    }
}

/// The key and the value of an argument: what stands before its first `=`,
/// and what stands after it. An argument without `=` has neither.
pub open spec fn split_pair(s: Seq<char>) -> Option<(Seq<char>, Seq<char>)> {
    let at = separator_index(s, 0);
    if at < s.len() {
        Some((s.subrange(0, at), s.subrange(at + 1, s.len() as int)))
    } else {
        None
    }
}

/// Splits `text` at its first `=`.
pub fn split_key_value(text: &str) -> (r: Option<(String, String)>)
    ensures
        match r {
            Some((key, value)) => split_pair(text@) == Some((key@, value@)),
            None => split_pair(text@) is None,
        },
{
    let chars = to_chars(text);
    let n = chars.len();
    let mut at: usize = 0;
    while at < n && chars[at] != '='
        invariant
            at <= n,
            n == chars.len(),
            separator_index(chars@, 0) == separator_index(chars@, at as int),
        decreases n - at,
    {
        at += 1;
    }
    if at < n {
        Some((string_of(&chars, 0, at), string_of(&chars, at + 1, n)))
    } else {
        None
    }
}

/// The least index at or after `from` of a pair with the key `key`, or the
/// number of pairs if there is none.
pub open spec fn key_position(
    pairs: Seq<(Seq<char>, Seq<char>)>,
    key: Seq<char>,
    from: int,
) -> int
    decreases pairs.len() - from,
{
    if 0 <= from < pairs.len() && pairs[from].0 != key {
        key_position(pairs, key, from + 1)
    } else {
        from
    }
}

/// The value that `pairs` holds for `key`.
pub open spec fn lookup(pairs: Seq<(Seq<char>, Seq<char>)>, key: Seq<char>) -> Option<
    Seq<char>,
> {
    let at = key_position(pairs, key, 0);
    if at < pairs.len() {
        Some(pairs[at].1)
    } else {
        None
    }
}

/// `pairs` with `key` set to `value`: in place where the key is there
/// already, at the end where it is new.
pub open spec fn upsert(
    pairs: Seq<(Seq<char>, Seq<char>)>,
    key: Seq<char>,
    value: Seq<char>,
) -> Seq<(Seq<char>, Seq<char>)> {
    let at = key_position(pairs, key, 0);
    if at < pairs.len() {
        pairs.update(at, (key, value))
    } else {
        pairs.push((key, value))
    }
}

/// No key occurs twice.
pub open spec fn distinct_keys(pairs: Seq<(Seq<char>, Seq<char>)>) -> bool {
    forall|i: int, j: int| 0 <= i < j < pairs.len() ==> pairs[i].0 != pairs[j].0
}

/// The pairs that a list of arguments gives: each argument with a `=` sets
/// its key to its value, a later one replacing an earlier one; arguments
/// without `=` are dropped. The keys stand in order of first appearance.
pub open spec fn key_values(args: Seq<Seq<char>>) -> Seq<(Seq<char>, Seq<char>)>
    decreases args.len(),
{
    if args.len() == 0 {
        Seq::empty()
    } else {
        let rest = key_values(args.drop_last());
        match split_pair(args.last()) {
            Some((key, value)) => upsert(rest, key, value),
            None => rest,
        }
    }
}

/// Where `key_position` points.
pub proof fn lemma_key_position(pairs: Seq<(Seq<char>, Seq<char>)>, key: Seq<char>, from: int)
    requires
        0 <= from <= pairs.len(),
    ensures
        from <= key_position(pairs, key, from) <= pairs.len(),
        key_position(pairs, key, from) < pairs.len() ==> pairs[key_position(pairs, key, from)].0
            == key,
        forall|k: int| from <= k < key_position(pairs, key, from) ==> pairs[k].0 != key,
    decreases pairs.len() - from,
{
    if from < pairs.len() && pairs[from].0 != key {
        lemma_key_position(pairs, key, from + 1);
    }
}

/// Setting a key keeps the keys distinct, and changes what is looked up
/// under that key only.
pub proof fn lemma_upsert(
    pairs: Seq<(Seq<char>, Seq<char>)>,
    key: Seq<char>,
    value: Seq<char>,
    other: Seq<char>,
)
    requires
        distinct_keys(pairs),
    ensures
        distinct_keys(upsert(pairs, key, value)),
        lookup(upsert(pairs, key, value), other) == if other == key {
            Some(value)
        } else {
            lookup(pairs, other)
        },
{
    let after = upsert(pairs, key, value);
    let at = key_position(pairs, key, 0);
    lemma_key_position(pairs, key, 0);
    lemma_key_position(pairs, other, 0);
    lemma_key_position(after, other, 0);
    let was = key_position(pairs, other, 0);
    let now = key_position(after, other, 0);
    assert(distinct_keys(after)) by {
        assert forall|i: int, j: int| 0 <= i < j < after.len() implies after[i].0 != after[j].0 by {
            if at < pairs.len() {
                assert(after[i].0 == pairs[i].0);
                assert(after[j].0 == pairs[j].0);
            }
        }
    }
    if other == key {
        if at < pairs.len() {
            assert(after[at].0 == key);
        } else {
            assert(after[pairs.len() as int].0 == key);
        }
        assert(now < after.len());
        if now < pairs.len() && now != at {
            assert(after[now].0 == pairs[now].0);
        }
    } else {
        if was < pairs.len() {
            assert(after[was] == pairs[was]);
            if now < was {
                assert(after[now].0 == pairs[now].0);
            }
        } else {
            if now < after.len() {
                if now < pairs.len() {
                    assert(after[now].0 == pairs[now].0);
                }
            }
        }
    }
}

/// The pairs made from arguments have distinct keys.
pub proof fn lemma_key_values_distinct(args: Seq<Seq<char>>)
    ensures
        distinct_keys(key_values(args)),
    decreases args.len(),
{
    if args.len() > 0 {
        lemma_key_values_distinct(args.drop_last());
        match split_pair(args.last()) {
            Some((key, value)) => {
                lemma_upsert(key_values(args.drop_last()), key, value, key);
            },
            None => {},
        }
    }
}

/// Keys with their values, each key once, in order of first insertion.
#[derive(Debug, Clone, PartialEq, Eq)]
pub struct KeyValues {
    entries: Vec<(String, String)>,
}

impl View for KeyValues {
    type V = Seq<(Seq<char>, Seq<char>)>;

    closed spec fn view(&self) -> Seq<(Seq<char>, Seq<char>)> {
        self.entries.deep_view()
    }
}

impl KeyValues {
    /// No key occurs twice.
    pub open spec fn wf(&self) -> bool {
        distinct_keys(self@)
    }

    /// The empty collection.
    pub fn new() -> (r: KeyValues)
        ensures
            r.wf(),
            r@ == Seq::<(Seq<char>, Seq<char>)>::empty(),
    {
        let r = KeyValues { entries: Vec::new() };
        assert(r@ =~= Seq::<(Seq<char>, Seq<char>)>::empty());
        r
    }

    /// The number of keys.
    pub fn len(&self) -> (n: usize)
        ensures
            n == self@.len(),
    {
        self.entries.len()
    }

    /// The key at index `i`.
    pub fn key(&self, i: usize) -> (k: &str)
        requires
            i < self@.len(),
        ensures
            k@ == self@[i as int].0,
    {
        self.entries[i].0.as_str()
    }

    /// The value at index `i`.
    pub fn value(&self, i: usize) -> (v: &str)
        requires
            i < self@.len(),
        ensures
            v@ == self@[i as int].1,
    {
        self.entries[i].1.as_str()
    }

    fn position(&self, key: &String) -> (at: usize)
        ensures
            at == key_position(self@, key@, 0),
            at <= self@.len(),
    {
        let mut at: usize = 0;
        while at < self.entries.len() && !(self.entries[at].0 == *key)
            invariant
                at <= self.entries.len(),
                key_position(self@, key@, 0) == key_position(self@, key@, at as int),
            decreases self.entries.len() - at,
        {
            at += 1;
        }
        at
    }

    /// The value held for `key`, if there is one.
    pub fn get(&self, key: &str) -> (r: Option<&str>)
        ensures
            match r {
                Some(value) => lookup(self@, key@) == Some(value@),
                None => lookup(self@, key@) is None,
            },
    {
        let wanted = key.to_owned();
        let at = self.position(&wanted);
        if at < self.entries.len() {
            Some(self.entries[at].1.as_str())
        } else {
            None
        }
    }

    /// Sets `key` to `value`. A key that is there already keeps its place
    /// and gets the new value.
    pub fn insert(&mut self, key: String, value: String)
        requires
            old(self).wf(),
        ensures
            final(self).wf(),
            final(self)@ == upsert(old(self)@, key@, value@),
    {
        proof {
            lemma_upsert(self@, key@, value@, key@);
        }
        let at = self.position(&key);
        if at < self.entries.len() {
            self.entries.set(at, (key, value));
        } else {
            self.entries.push((key, value));
        }
        assert(self@ =~= upsert(old(self)@, key@, value@));
    }
}

/// Reads `key=value` arguments. An argument is split at its first `=`; one
/// without `=` is dropped. Where a key comes twice the later value stays.
pub fn parse_key_values(pairs: &[String]) -> (r: KeyValues)
    ensures
        r.wf(),
        r@ == key_values(texts(pairs@)),
{
    let mut out = KeyValues::new();
    let mut i: usize = 0;
    let ghost args = texts(pairs@);
    assert(args.take(0) =~= Seq::<Seq<char>>::empty());
    while i < pairs.len()
        invariant
            i <= pairs.len(),
            args == texts(pairs@),
            out.wf(),
            out@ == key_values(args.take(i as int)),
        decreases pairs.len() - i,
    {
        proof {
            assert(args.take(i + 1).drop_last() =~= args.take(i as int));
            assert(args.take(i + 1).last() == pairs@[i as int]@);
        }
        match split_key_value(pairs[i].as_str()) {
            Some((key, value)) => {
                out.insert(key, value);
            },
            None => {},
        }
        i += 1;
    }
    assert(args.take(i as int) =~= args);
    out
}

} // verus!
