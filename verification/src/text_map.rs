use vstd::prelude::*;

use crate::text::text_eq;

verus! {

/// The first offset at or after `from` at which `keys` holds `key`.
pub open spec fn first_from(keys: Seq<Seq<char>>, key: Seq<char>, from: int) -> Option<int>
    decreases keys.len() - from,
{
    if from < 0 || from >= keys.len() {
        None
    } else if keys[from] == key {
        Some(from)
    } else {
        first_from(keys, key, from + 1)
    }
}

/// The first offset at which `keys` holds `key`.
pub open spec fn first_index(keys: Seq<Seq<char>>, key: Seq<char>) -> Option<int> {
    first_from(keys, key, 0)
}

/// `first_from` finds the first occurrence, and finds one if there is any.
pub proof fn lemma_first_from(keys: Seq<Seq<char>>, key: Seq<char>, from: int)
    requires
        0 <= from,
    ensures
        first_from(keys, key, from) matches Some(i) ==> from <= i < keys.len() && keys[i] == key
            && forall|j: int| from <= j < i ==> keys[j] != key,
        first_from(keys, key, from) is None ==> forall|j: int|
            from <= j < keys.len() ==> keys[j] != key,
    decreases keys.len() - from,
{
    if from < keys.len() && keys[from] != key {
        lemma_first_from(keys, key, from + 1);
    }
}

/// A search is not changed by what is appended after a key that it finds,
/// and goes on into what is appended if it finds none.
pub proof fn lemma_first_from_push(
    keys: Seq<Seq<char>>,
    extra: Seq<char>,
    key: Seq<char>,
    from: int,
)
    requires
        0 <= from <= keys.len(),
    ensures
        first_from(keys.push(extra), key, from) == match first_from(keys, key, from) {
            Some(i) => Some(i),
            None => if extra == key {
                Some(keys.len() as int)
            } else {
                None
            },
        },
    decreases keys.len() - from,
{
    let more = keys.push(extra);
    if from < keys.len() {
        assert(more[from] == keys[from]);
        if keys[from] != key {
            lemma_first_from_push(keys, extra, key, from + 1);
        }
    } else {
        assert(more[from] == extra);
        assert(first_from(more, key, from + 1) is None);
    }
}

/// The texts of a vector of strings after one more is pushed.
pub proof fn lemma_deep_view_push(before: Vec<String>, after: Vec<String>, s: String)
    requires
        after@ == before@.push(s),
    ensures
        after.deep_view() == before.deep_view().push(s@),
{
    assert(after.deep_view() =~= before.deep_view().push(s@));
}

/// Appends `s` to `v`.
pub fn push_text(v: &mut Vec<String>, s: String)
    ensures
        final(v).deep_view() == old(v).deep_view().push(s@),
        final(v)@ == old(v)@.push(s),
{
    let ghost before = *v;
    v.push(s);
    proof {
        lemma_deep_view_push(before, *v, s);
    }
}

/// Moves the strings of `tail` to the end of `v`.
pub fn append_texts(v: &mut Vec<String>, tail: Vec<String>)
    ensures
        final(v).deep_view() == old(v).deep_view() + tail.deep_view(),
{
    let mut tail = tail;
    let ghost moved = tail;
    v.append(&mut tail);
    assert(final(v).deep_view() =~= old(v).deep_view() + moved.deep_view());
}

/// A copy of the strings of `v`.
pub fn copy_texts(v: &Vec<String>) -> (r: Vec<String>)
    ensures
        r.deep_view() == v.deep_view(),
{
    let mut out: Vec<String> = Vec::new();
    let mut i: usize = 0;
    while i < v.len()
        invariant
            i <= v.len(),
            out.deep_view() == v.deep_view().take(i as int),
        decreases v.len() - i,
    {
        let ghost before = out;
        let s = v[i].clone();
        out.push(s);
        i += 1;
        assert(out.deep_view() =~= v.deep_view().take(i as int));
    }
    assert(v.deep_view().take(v.len() as int) =~= v.deep_view());
    out
}

/// Takes the last string off `v`.
pub fn pop_text(v: &mut Vec<String>)
    requires
        old(v).len() > 0,
    ensures
        final(v).deep_view() == old(v).deep_view().drop_last(),
{
    v.pop();
    assert(final(v).deep_view() =~= old(v).deep_view().drop_last());
}

/// The first offset at which `keys` holds the text of `key`.
pub fn find_text(keys: &Vec<String>, key: &str) -> (r: Option<usize>)
    ensures
        r matches Some(i) ==> first_index(keys.deep_view(), key@) == Some(i as int) && i
            < keys.len() && keys[i as int]@ == key@,
        r is None ==> first_index(keys.deep_view(), key@) is None,
{
    let mut i: usize = 0;
    while i < keys.len()
        invariant
            i <= keys.len(),
            first_from(keys.deep_view(), key@, i as int) == first_index(keys.deep_view(), key@),
        decreases keys.len() - i,
    {
        assert(keys.deep_view()[i as int] == keys[i as int]@);
        if text_eq(keys[i].as_str(), key) {
            return Some(i);
        }
        i += 1;
    }
    None
}

/// Whether `keys` holds the text of `key`.
pub fn contains_text(keys: &Vec<String>, key: &str) -> (r: bool)
    ensures
        r == keys.deep_view().contains(key@),
{
    let r = find_text(keys, key);
    proof {
        lemma_first_from(keys.deep_view(), key@, 0);
    }
    r.is_some()
}

/// A map from texts to values that keeps its keys in the order in which they
/// came. Of two equal keys the first one counts.
pub struct TextMap<V> {
    pub keys: Vec<String>,
    pub values: Vec<V>,
}

impl<V> TextMap<V> {
    /// Each key has its value.
    pub open spec fn wf(&self) -> bool {
        self.keys.len() == self.values.len()
    }

    /// The texts of the keys, in order.
    pub open spec fn key_texts(&self) -> Seq<Seq<char>> {
        self.keys.deep_view()
    }

    /// The offset at which `key` stands.
    pub open spec fn index_of(&self, key: Seq<char>) -> Option<int> {
        first_index(self.key_texts(), key)
    }

    pub open spec fn contains(&self, key: Seq<char>) -> bool {
        self.index_of(key) is Some
    }

    /// The value under `key`, where the map holds it.
    pub open spec fn value(&self, key: Seq<char>) -> V {
        self.values[self.index_of(key).unwrap()]
    }

    /// The value under `key`, if the map holds it.
    pub open spec fn lookup(&self, key: Seq<char>) -> Option<V> {
        if self.contains(key) {
            Some(self.value(key))
        } else {
            None
        }
    }

    /// A map without keys.
    pub fn new() -> (r: Self)
        ensures
            r.wf(),
            r.keys@.len() == 0,
            r.values@.len() == 0,
            forall|key: Seq<char>| !r.contains(key),
    {
        TextMap { keys: Vec::new(), values: Vec::new() }
    }

    /// Whether each key has its value.
    pub fn is_sound(&self) -> (r: bool)
        ensures
            r == self.wf(),
    {
        self.keys.len() == self.values.len()
    }

    /// The number of keys.
    pub fn len(&self) -> (r: usize)
        requires
            self.wf(),
        ensures
            r == self.keys.len(),
    {
        self.keys.len()
    }

    /// Whether the map has no key.
    pub fn is_empty(&self) -> (r: bool)
        ensures
            r == (self.keys.len() == 0),
    {
        self.keys.len() == 0
    }

    /// The offset at which `key` stands.
    pub fn find(&self, key: &str) -> (r: Option<usize>)
        requires
            self.wf(),
        ensures
            r matches Some(i) ==> self.index_of(key@) == Some(i as int) && i < self.keys.len(),
            r is None ==> self.index_of(key@) is None,
    {
        find_text(&self.keys, key)
    }

    /// Whether the map holds `key`.
    pub fn contains_key(&self, key: &str) -> (r: bool)
        requires
            self.wf(),
        ensures
            r == self.contains(key@),
    {
        self.find(key).is_some()
    }

    /// The value under `key`, if the map holds it.
    pub fn get(&self, key: &str) -> (r: Option<&V>)
        requires
            self.wf(),
        ensures
            r matches Some(v) ==> self.contains(key@) && *v == self.value(key@),
            r is None ==> !self.contains(key@),
    {
        match self.find(key) {
            Some(i) => Some(&self.values[i]),
            None => None,
        }
    }

    /// Puts `value` under `key`: in place of the value that `key` has, or
    /// after the last key.
    pub fn insert(&mut self, key: String, value: V)
        requires
            old(self).wf(),
        ensures
            final(self).wf(),
            final(self).contains(key@),
            final(self).value(key@) == value,
            forall|other: Seq<char>|
                other != key@ ==> final(self).index_of(other) == old(self).index_of(other),
            forall|other: Seq<char>|
                other != key@ ==> #[trigger] final(self).lookup(other) == old(self).lookup(other),
            forall|i: int|
                0 <= i < old(self).values.len() && old(self).index_of(key@) != Some(i)
                    ==> final(self).values[i] == old(self).values[i],
            old(self).index_of(key@) matches Some(i) ==> final(self).values@ == old(self).values@.update(
                i,
                value,
            ),
            old(self).contains(key@) ==> final(self).keys == old(self).keys,
            !old(self).contains(key@) ==> final(self).keys@ == old(self).keys@.push(key)
                && final(self).key_texts() == old(self).key_texts().push(key@)
                && final(self).values@ == old(self).values@.push(value),
    {
        match self.find(key.as_str()) {
            Some(i) => {
                let ghost prior = *self;
                self.values.set(i, value);
                proof {
                    assert forall|other: Seq<char>| other != key@ implies #[trigger] self.lookup(
                        other,
                    ) == prior.lookup(other) by {
                        lemma_first_from(prior.key_texts(), other, 0);
                        lemma_first_from(prior.key_texts(), key@, 0);
                    }
                }
            },
            None => {
                let ghost before = self.keys;
                let ghost prior = *self;
                self.keys.push(key);
                self.values.push(value);
                proof {
                    lemma_deep_view_push(before, self.keys, key);
                    assert forall|other: Seq<char>|
                        first_index(self.key_texts(), other) == match first_index(
                            before.deep_view(),
                            other,
                        ) {
                            Some(i) => Some(i),
                            None => if key@ == other {
                                Some(before.deep_view().len() as int)
                            } else {
                                None
                            },
                        } by {
                        lemma_first_from_push(before.deep_view(), key@, other, 0);
                    }
                    assert forall|other: Seq<char>| other != key@ implies #[trigger] self.lookup(
                        other,
                    ) == prior.lookup(other) by {
                        lemma_first_from(before.deep_view(), other, 0);
                    }
                    lemma_first_from(before.deep_view(), key@, 0);
                }
            },
        }
    }
}

} // verus!
