use vstd::prelude::*;

use crate::text::{
    chars_eq, chars_le, chars_le_exec, chars_lt, chars_of, lemma_chars_le_antisym,
    lemma_chars_le_total, lemma_chars_le_trans,
};

verus! {

/// The keys of a list of entries, as texts.
pub open spec fn entry_keys<V>(s: Seq<(String, V)>) -> Seq<Seq<char>> {
    s.map_values(|e: (String, V)| e.0@)
}

/// The entries' keys rise strictly, so no key occurs twice.
pub open spec fn keys_ascending<V>(s: Seq<(String, V)>) -> bool {
    forall|i: int, j: int| 0 <= i < j < s.len() ==> #[trigger] chars_lt(s[i].0@, s[j].0@)
}

/// Some entry has the key.
pub open spec fn has_key<V>(s: Seq<(String, V)>, k: Seq<char>) -> bool {
    exists|i: int| 0 <= i < s.len() && #[trigger] s[i].0@ == k
}

/// An index of an entry with the key, where there is one.
pub open spec fn key_index<V>(s: Seq<(String, V)>, k: Seq<char>) -> int {
    choose|i: int| 0 <= i < s.len() && #[trigger] s[i].0@ == k
}

/// The entries as a map from key to value.
pub open spec fn entries_map<V>(s: Seq<(String, V)>) -> Map<Seq<char>, V> {
    Map::new(|k: Seq<char>| has_key(s, k), |k: Seq<char>| s[key_index(s, k)].1)
}

/// Values keyed by text, kept in strictly increasing key order.
pub struct TextMap<V> {
    entries: Vec<(String, V)>,
}

impl<V> View for TextMap<V> {
    type V = Map<Seq<char>, V>;

    /// The values by key.
    closed spec fn view(&self) -> Map<Seq<char>, V> {
        entries_map(self.entries@)
    }
}

/// In strictly ascending entries a key sits at one index only.
proof fn lemma_key_unique<V>(s: Seq<(String, V)>, i: int, j: int)
    requires
        keys_ascending(s),
        0 <= i < s.len(),
        0 <= j < s.len(),
        s[i].0@ == s[j].0@,
    ensures
        i == j,
{
    if i < j {
        assert(chars_lt(s[i].0@, s[j].0@));
    } else if j < i {
        assert(chars_lt(s[j].0@, s[i].0@));
    }
}

/// The map holds every entry's value under its key.
proof fn lemma_entry_in_map<V>(s: Seq<(String, V)>, i: int)
    requires
        keys_ascending(s),
        0 <= i < s.len(),
    ensures
        entries_map(s).dom().contains(s[i].0@),
        entries_map(s)[s[i].0@] == s[i].1,
{
    let k = s[i].0@;
    assert(has_key(s, k));
    lemma_key_unique(s, i, key_index(s, k));
}

/// `chars_lt` chains.
proof fn lemma_chars_lt_trans(a: Seq<char>, b: Seq<char>, c: Seq<char>)
    requires
        chars_lt(a, b),
        chars_lt(b, c),
    ensures
        chars_lt(a, c),
{
    lemma_chars_le_trans(a, b, c);
    if a == c {
        lemma_chars_le_antisym(a, b);
    }
}

impl<V> TextMap<V> {
    /// The entries in key order.
    pub closed spec fn entries(&self) -> Seq<(String, V)> {
        self.entries@
    }

    /// The invariant: keys in strictly increasing order.
    pub closed spec fn wf(&self) -> bool {
        keys_ascending(self.entries@)
    }

    /// The entries are the map, listed in strictly increasing key order.
    pub proof fn lemma_entries_are_view(&self)
        requires
            self.wf(),
        ensures
            keys_ascending(self.entries()),
            entries_map(self.entries()) == self@,
    {
    }

    /// An empty map.
    pub fn new() -> (m: TextMap<V>)
        ensures
            m.wf(),
            m@ == Map::<Seq<char>, V>::empty(),
            m.entries().len() == 0,
    {
        let m = TextMap { entries: Vec::new() };
        assert(m@ =~= Map::<Seq<char>, V>::empty());
        m
    }

    /// The entries in key order, taken out of the map.
    pub fn into_entries(self) -> (v: Vec<(String, V)>)
        ensures
            v@ == self.entries(),
    {
        self.entries
    }

    /// The entries in key order.
    pub fn as_slice(&self) -> (s: &[(String, V)])
        ensures
            s@ == self.entries(),
    {
        self.entries.as_slice()
    }

    /// Where `key` is, or where it would go: every entry before that position has a
    /// smaller key, and the entry there, if any, has `key` (`found`) or a larger one.
    fn locate(&self, key: &[char]) -> (r: (bool, usize))
        requires
            self.wf(),
        ensures
            r.1 <= self.entries@.len(),
            forall|k: int| 0 <= k < r.1 ==> #[trigger] chars_lt(self.entries@[k].0@, key@),
            r.0 ==> r.1 < self.entries@.len() && self.entries@[r.1 as int].0@ == key@,
            !r.0 ==> r.1 == self.entries@.len() || chars_lt(key@, self.entries@[r.1 as int].0@),
    {
        let mut i: usize = 0;
        while i < self.entries.len()
            invariant
                i <= self.entries@.len(),
                forall|k: int| 0 <= k < i ==> #[trigger] chars_lt(self.entries@[k].0@, key@),
            decreases self.entries@.len() - i,
        {
            let other = chars_of(self.entries[i].0.as_str());
            if chars_eq(other.as_slice(), key) {
                return (true, i);
            }
            if chars_le_exec(key, other.as_slice()) {
                return (false, i);
            }
            proof {
                lemma_chars_le_total(key@, other@);
            }
            i += 1;
        }
        (false, i)
    }

    /// A key that `locate` did not find is not in the map.
    proof fn lemma_absent(&self, key: Seq<char>, pos: int)
        requires
            self.wf(),
            0 <= pos <= self.entries@.len(),
            forall|k: int| 0 <= k < pos ==> #[trigger] chars_lt(self.entries@[k].0@, key),
            pos == self.entries@.len() || chars_lt(key, self.entries@[pos].0@),
        ensures
            !self@.dom().contains(key),
    {
        let s = self.entries@;
        if has_key(s, key) {
            let c = key_index(s, key);
            if c < pos {
                assert(chars_lt(s[c].0@, key));
            } else if c > pos {
                assert(chars_lt(s[pos].0@, s[c].0@));
                lemma_chars_lt_trans(key, s[pos].0@, s[c].0@);
            }
        }
    }

    /// Whether the map has `key`.
    pub fn contains_key(&self, key: &str) -> (b: bool)
        requires
            self.wf(),
        ensures
            b == self@.dom().contains(key@),
    {
        let k = chars_of(key);
        let (found, pos) = self.locate(k.as_slice());
        proof {
            if found {
                lemma_entry_in_map(self.entries@, pos as int);
            } else {
                self.lemma_absent(k@, pos as int);
            }
        }
        found
    }

    /// The value under `key`, if there is one.
    pub fn get(&self, key: &str) -> (r: Option<&V>)
        requires
            self.wf(),
        ensures
            match r {
                Some(v) => self@.dom().contains(key@) && *v == self@[key@],
                None => !self@.dom().contains(key@),
            },
    {
        let k = chars_of(key);
        let (found, pos) = self.locate(k.as_slice());
        if found {
            proof {
                lemma_entry_in_map(self.entries@, pos as int);
            }
            Some(&self.entries[pos].1)
        } else {
            proof {
                self.lemma_absent(k@, pos as int);
            }
            None
        }
    }

    /// After a replacement at, or an insertion before, `pos`, the map changes at the new
    /// key only.
    proof fn lemma_put_view(&self, old_entries: Seq<(String, V)>, pos: int, key: String, value: V, replaced: bool)
        requires
            keys_ascending(old_entries),
            keys_ascending(self.entries@),
            0 <= pos <= old_entries.len(),
            replaced ==> pos < old_entries.len() && old_entries[pos].0@ == key@
                && self.entries@ == old_entries.update(pos, (key, value)),
            !replaced ==> self.entries@ == old_entries.insert(pos, (key, value)),
        ensures
            self@ == entries_map(old_entries).insert(key@, value),
    {
        let s = self.entries@;
        let m_old = entries_map(old_entries);
        let m_new = entries_map(s);
        let expected = m_old.insert(key@, value);
        assert(s[pos] == (key, value));
        lemma_entry_in_map(s, pos);
        assert forall|k: Seq<char>| #[trigger] m_new.dom().contains(k) implies expected.dom().contains(k)
            && m_new[k] == expected[k] by {
            let c = key_index(s, k);
            lemma_entry_in_map(s, c);
            if k != key@ {
                let oc = if replaced || c < pos {
                    c
                } else {
                    c - 1
                };
                assert(old_entries[oc] == s[c]);
                lemma_entry_in_map(old_entries, oc);
            }
        }
        assert forall|k: Seq<char>| #[trigger] expected.dom().contains(k) implies m_new.dom().contains(k) by {
            if k != key@ {
                let oc = key_index(old_entries, k);
                let c = if replaced || oc < pos {
                    oc
                } else {
                    oc + 1
                };
                if replaced && oc == pos {
                    assert(false);
                }
                assert(s[c] == old_entries[oc]);
                lemma_entry_in_map(s, c);
            }
        }
        assert(m_new =~= expected);
    }

    /// Puts `value` under `key`, replacing the value there.
    pub fn insert(&mut self, key: String, value: V)
        requires
            old(self).wf(),
        ensures
            final(self).wf(),
            final(self)@ == old(self)@.insert(key@, value),
    {
        let ghost old_entries = self.entries@;
        let k = chars_of(key.as_str());
        let (found, pos) = self.locate(k.as_slice());
        if found {
            self.entries.set(pos, (key, value));
            proof {
                let s = self.entries@;
                assert forall|a: int, b: int| 0 <= a < b < s.len() implies #[trigger] chars_lt(
                    s[a].0@,
                    s[b].0@,
                ) by {
                    assert(chars_lt(old_entries[a].0@, old_entries[b].0@));
                }
                self.lemma_put_view(old_entries, pos as int, key, value, true);
            }
        } else {
            self.entries.insert(pos, (key, value));
            proof {
                let s = self.entries@;
                let p = pos as int;
                assert forall|a: int, b: int| 0 <= a < b < s.len() implies #[trigger] chars_lt(
                    s[a].0@,
                    s[b].0@,
                ) by {
                    if b < p {
                        assert(chars_lt(old_entries[a].0@, old_entries[b].0@));
                    } else if b == p {
                    } else if a == p {
                        if b - 1 > p {
                            assert(chars_lt(old_entries[p].0@, old_entries[b - 1].0@));
                            lemma_chars_lt_trans(k@, old_entries[p].0@, old_entries[b - 1].0@);
                        }
                    } else if a < p {
                        if b - 1 == p {
                            lemma_chars_lt_trans(old_entries[a].0@, k@, old_entries[p].0@);
                        } else {
                            assert(chars_lt(old_entries[a].0@, old_entries[b - 1].0@));
                        }
                    } else {
                        assert(chars_lt(old_entries[a - 1].0@, old_entries[b - 1].0@));
                    }
                }
                self.lemma_put_view(old_entries, p, key, value, false);
            }
        }
    }
}


/// A key that starts with `_`.
pub open spec fn underscored(k: Seq<char>) -> bool {
    k.len() > 0 && k[0] == '_'
}

/// The entries whose keys do not start with `_`, in order.
pub open spec fn kept_entries<V>(s: Seq<(String, V)>) -> Seq<(String, V)>
    decreases s.len(),
{
    if s.len() == 0 {
        Seq::empty()
    } else if underscored(s.last().0@) {
        kept_entries(s.drop_last())
    } else {
        kept_entries(s.drop_last()).push(s.last())
    }
}

/// The kept entries are entries of the list, keep its order, and are exactly those whose
/// keys do not start with `_`.
proof fn lemma_kept<V>(s: Seq<(String, V)>)
    requires
        keys_ascending(s),
    ensures
        keys_ascending(kept_entries(s)),
        forall|i: int| 0 <= i < kept_entries(s).len() ==> #[trigger] s.contains(kept_entries(s)[i]),
        forall|k: Seq<char>|
            #![trigger has_key(kept_entries(s), k)]
            #![trigger has_key(s, k)]
            has_key(kept_entries(s), k) <==> (has_key(s, k) && !underscored(k)),
    decreases s.len(),
{
    if s.len() == 0 {
        assert(kept_entries(s) =~= Seq::<(String, V)>::empty());
    } else {
        let init = s.drop_last();
        let e = s.last();
        assert(keys_ascending(init)) by {
            assert forall|i: int, j: int| 0 <= i < j < init.len() implies #[trigger] chars_lt(
                init[i].0@,
                init[j].0@,
            ) by {
                assert(init[i] == s[i] && init[j] == s[j]);
            }
        }
        lemma_kept(init);
        let k0 = kept_entries(init);
        assert forall|i: int| 0 <= i < k0.len() implies #[trigger] s.contains(k0[i]) by {
            assert(init.contains(k0[i]));
            let j = choose|j: int| 0 <= j < init.len() && init[j] == k0[i];
            assert(s[j] == k0[i]);
        }
        if underscored(e.0@) {
            assert(kept_entries(s) == k0);
            assert forall|k: Seq<char>| has_key(kept_entries(s), k) <==> (has_key(s, k)
                && !underscored(k)) by {
                if has_key(s, k) && !underscored(k) {
                    let j = choose|j: int| 0 <= j < s.len() && #[trigger] s[j].0@ == k;
                    if j == s.len() - 1 {
                        assert(false);
                    }
                    assert(init[j] == s[j]);
                    assert(init[j].0@ == k);
                    assert(has_key(init, k));
                    assert(has_key(k0, k));
                }
                if has_key(kept_entries(s), k) {
                    assert(has_key(k0, k));
                    assert(has_key(init, k));
                    let j = choose|j: int| 0 <= j < init.len() && #[trigger] init[j].0@ == k;
                    assert(init[j] == s[j]);
                    assert(s[j].0@ == k);
                    assert(has_key(s, k));
                }
            }
        } else {
            let kept = k0.push(e);
            assert(kept == kept_entries(s));
            assert forall|i: int| 0 <= i < kept.len() implies #[trigger] s.contains(kept[i]) by {
                if i < k0.len() {
                    assert(kept[i] == k0[i]);
                } else {
                    assert(s[s.len() - 1] == kept[i]);
                }
            }
            assert forall|a: int, b: int| 0 <= a < b < kept.len() implies #[trigger] chars_lt(
                kept[a].0@,
                kept[b].0@,
            ) by {
                assert(kept[a] == k0[a]);
                if b < k0.len() {
                    assert(kept[b] == k0[b]);
                    assert(chars_lt(k0[a].0@, k0[b].0@));
                } else {
                    assert(kept[b] == e);
                    assert(init.contains(k0[a]));
                    let j2 = choose|j2: int| 0 <= j2 < init.len() && init[j2] == k0[a];
                    assert(init[j2] == s[j2]);
                    assert(e == s[s.len() - 1]);
                    assert(chars_lt(s[j2].0@, s[s.len() - 1].0@));
                }
            }
            assert forall|k: Seq<char>| #[trigger] has_key(kept_entries(s), k) <==> (has_key(s, k) && !underscored(k)) by {
                assert(has_key(kept, k) == has_key(kept_entries(s), k));
                if has_key(s, k) && !underscored(k) {
                    let j = choose|j: int| 0 <= j < s.len() && #[trigger] s[j].0@ == k;
                    if j == s.len() - 1 {
                        assert(kept[kept.len() - 1] == e);
                        assert(kept[kept.len() - 1].0@ == k);
                        assert(has_key(kept, k));
                    } else {
                        assert(init[j] == s[j]);
                        assert(init[j].0@ == k);
                        assert(has_key(init, k));
                        assert(has_key(k0, k));
                        let i = choose|i: int| 0 <= i < k0.len() && #[trigger] k0[i].0@ == k;
                        assert(kept[i] == k0[i]);
                        assert(kept[i].0@ == k);
                        assert(has_key(kept, k));
                    }
                }
                if has_key(kept, k) {
                    let i = choose|i: int| 0 <= i < kept.len() && #[trigger] kept[i].0@ == k;
                    if i == kept.len() - 1 {
                        assert(s[s.len() - 1].0@ == k);
                        assert(!underscored(k));
                    } else {
                        assert(k0[i].0@ == k);
                        assert(has_key(k0, k));
                        assert(has_key(init, k) && !underscored(k));
                        let j = choose|j: int| 0 <= j < init.len() && #[trigger] init[j].0@ == k;
                        assert(init[j] == s[j]);
                        assert(s[j].0@ == k);
                    }
                }
            }
        }
    }
}

impl<V> TextMap<V> {
    /// Puts `value` under `key` unless the key already has a value.
    pub fn insert_if_absent(&mut self, key: String, value: V)
        requires
            old(self).wf(),
        ensures
            final(self).wf(),
            final(self)@ == if old(self)@.dom().contains(key@) {
                old(self)@
            } else {
                old(self)@.insert(key@, value)
            },
    {
        if !self.contains_key(key.as_str()) {
            self.insert(key, value);
        }
    }

    /// Removes every entry whose key starts with `_`; the others stay as they are.
    pub fn remove_underscored(&mut self)
        requires
            old(self).wf(),
        ensures
            final(self).wf(),
            forall|k: Seq<char>| #[trigger] final(self)@.dom().contains(k) <==> (old(self)@.dom().contains(k)
                && !underscored(k)),
            forall|k: Seq<char>| #[trigger] final(self)@.dom().contains(k) ==> final(self)@[k] == old(
                self,
            )@[k],
    {
        let ghost s = self.entries@;
        let mut i: usize = 0;
        let ghost mut j: int = 0;
        proof {
            assert(s.take(0) =~= Seq::<(String, V)>::empty());
            assert(self.entries@ =~= kept_entries(s.take(0)) + s.skip(0));
        }
        while i < self.entries.len()
            invariant
                0 <= j <= s.len(),
                i == kept_entries(s.take(j)).len(),
                self.entries@ == kept_entries(s.take(j)) + s.skip(j),
            decreases s.len() - j,
        {
            proof {
                assert(s.take(j + 1).drop_last() =~= s.take(j));
                assert(s.take(j + 1).last() == s[j]);
                assert(self.entries@[i as int] == s[j]);
            }
            let first = self.entries[i].0.as_str();
            let c = chars_of(first);
            if c.len() > 0 && c[0] == '_' {
                self.entries.remove(i);
                proof {
                    assert(self.entries@ =~= kept_entries(s.take(j + 1)) + s.skip(j + 1));
                    j = j + 1;
                }
            } else {
                i += 1;
                proof {
                    assert(self.entries@ =~= kept_entries(s.take(j + 1)) + s.skip(j + 1));
                    j = j + 1;
                }
            }
        }
        proof {
            assert(s.take(j) =~= s) by {
                if j < s.len() {
                    assert((kept_entries(s.take(j)) + s.skip(j)).len() > i);
                }
            }
            assert(self.entries@ =~= kept_entries(s));
            lemma_kept(s);
            let m_old = entries_map(s);
            let m_new = entries_map(self.entries@);
            assert forall|k: Seq<char>| #[trigger] m_new.dom().contains(k) <==> (m_old.dom().contains(k)
                && !underscored(k)) by {
                assert(m_new.dom().contains(k) == has_key(self.entries@, k));
                assert(m_old.dom().contains(k) == has_key(s, k));
                assert(has_key(kept_entries(s), k) <==> (has_key(s, k) && !underscored(k)));
            }
            assert forall|k: Seq<char>| #[trigger] m_new.dom().contains(k) ==> m_new[k] == m_old[k] by {
                if m_new.dom().contains(k) {
                    let c = key_index(self.entries@, k);
                    lemma_entry_in_map(self.entries@, c);
                    assert(s.contains(self.entries@[c]));
                    let oj = choose|oj: int| 0 <= oj < s.len() && s[oj] == self.entries@[c];
                    lemma_entry_in_map(s, oj);
                }
            }
        }
    }
}


impl<V> TextMap<V> {
    /// Takes the value under `key` out of the map, if there is one.
    pub fn remove(&mut self, key: &str) -> (r: Option<V>)
        requires
            old(self).wf(),
        ensures
            final(self).wf(),
            final(self)@ == old(self)@.remove(key@),
            match r {
                Some(v) => old(self)@.dom().contains(key@) && v == old(self)@[key@],
                None => !old(self)@.dom().contains(key@),
            },
    {
        let ghost old_entries = self.entries@;
        let k = chars_of(key);
        let (found, pos) = self.locate(k.as_slice());
        if !found {
            proof {
                self.lemma_absent(k@, pos as int);
                assert(self@ =~= old(self)@.remove(key@));
            }
            return None;
        }
        proof {
            lemma_entry_in_map(old_entries, pos as int);
        }
        let (_, value) = self.entries.remove(pos);
        proof {
            let s = self.entries@;
            let p = pos as int;
            assert(s == old_entries.remove(p));
            assert forall|a: int, b: int| 0 <= a < b < s.len() implies #[trigger] chars_lt(
                s[a].0@,
                s[b].0@,
            ) by {
                let oa = if a < p { a } else { a + 1 };
                let ob = if b < p { b } else { b + 1 };
                assert(s[a] == old_entries[oa] && s[b] == old_entries[ob]);
                assert(chars_lt(old_entries[oa].0@, old_entries[ob].0@));
            }
            let m_new = entries_map(s);
            let expected = entries_map(old_entries).remove(key@);
            assert forall|x: Seq<char>| #[trigger] m_new.dom().contains(x) implies expected.dom().contains(x)
                && m_new[x] == expected[x] by {
                let c = key_index(s, x);
                lemma_entry_in_map(s, c);
                let oc = if c < p { c } else { c + 1 };
                assert(s[c] == old_entries[oc]);
                lemma_entry_in_map(old_entries, oc);
                if x == key@ {
                    lemma_key_unique(old_entries, oc, p);
                }
            }
            assert forall|x: Seq<char>| #[trigger] expected.dom().contains(x) implies m_new.dom().contains(x) by {
                let oc = key_index(old_entries, x);
                if oc == p {
                    assert(false);
                }
                let c = if oc < p { oc } else { oc - 1 };
                assert(s[c] == old_entries[oc]);
                lemma_entry_in_map(s, c);
            }
            assert(m_new =~= expected);
        }
        Some(value)
    }
}

} // verus!
