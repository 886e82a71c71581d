//! A small string-keyed map with unique keys, used for bound path parameters
//! and for parsed query key/value pairs. Its view is a
//! `Map<Seq<char>, Seq<char>>`.

use crate::strutil::str_eq;
use vstd::prelude::*;

verus! {

/// The map that a sequence of key/value entries denotes: later entries win.
pub open spec fn assoc_view(entries: Seq<(String, String)>) -> Map<Seq<char>, Seq<char>>
    decreases entries.len(),
{
    if entries.len() == 0 {
        Map::empty()
    } else {
        assoc_view(entries.drop_last()).insert(entries.last().0@, entries.last().1@)
    }
}

/// No two entries share a key.
pub open spec fn distinct_keys(entries: Seq<(String, String)>) -> bool {
    forall|i: int, j: int| 0 <= i < j < entries.len() ==> entries[i].0@ != entries[j].0@
}

/// The domain of `assoc_view` is exactly the set of keys of the entries, and
/// under `distinct_keys` each entry's key maps to that entry's value.
pub proof fn lemma_assoc_view(entries: Seq<(String, String)>)
    ensures
        forall|k: Seq<char>|
            assoc_view(entries).contains_key(k) <==> exists|i: int|
                0 <= i < entries.len() && #[trigger] entries[i].0@ == k,
        distinct_keys(entries) ==> forall|i: int|
            0 <= i < entries.len() ==> assoc_view(entries)[#[trigger] entries[i].0@]
                == entries[i].1@,
    decreases entries.len(),
{
    if entries.len() == 0 {
    } else {
        let pre = entries.drop_last();
        lemma_assoc_view(pre);
        assert(assoc_view(entries) == assoc_view(pre).insert(entries.last().0@, entries.last().1@));
        assert(forall|i: int| 0 <= i < pre.len() ==> #[trigger] pre[i] == entries[i]);
        assert forall|k: Seq<char>| assoc_view(entries).contains_key(k) implies exists|i: int|
            0 <= i < entries.len() && #[trigger] entries[i].0@ == k by {
            if k == entries.last().0@ {
                assert(entries[entries.len() - 1].0@ == k);
            } else {
                assert(assoc_view(pre).contains_key(k));
                let i = choose|i: int| 0 <= i < pre.len() && #[trigger] pre[i].0@ == k;
                assert(entries[i].0@ == k);
            }
        }
        assert forall|k: Seq<char>|
            (exists|i: int| 0 <= i < entries.len() && #[trigger] entries[i].0@ == k) implies
            assoc_view(entries).contains_key(k) by {
            let i = choose|i: int| 0 <= i < entries.len() && #[trigger] entries[i].0@ == k;
            if i < entries.len() - 1 {
                assert(pre[i].0@ == k);
            }
        }
        if distinct_keys(entries) {
            assert forall|i: int| 0 <= i < entries.len() implies assoc_view(entries)[
                #[trigger] entries[i].0@] == entries[i].1@ by {
                if i < entries.len() - 1 {
                    assert(pre[i].0@ == entries[i].0@ && pre[i].1@ == entries[i].1@);
                    assert(entries[i].0@ != entries.last().0@);
                }
            }
        }
    }
}

/// A flat key/value mapping with unique keys: bound path parameters, or the
/// parsed query string.
pub struct StringMap {
    entries: Vec<(String, String)>,
}

impl View for StringMap {
    type V = Map<Seq<char>, Seq<char>>;

    closed spec fn view(&self) -> Map<Seq<char>, Seq<char>> {
        assoc_view(self.entries@)
    }
}

impl StringMap {
    /// Validity: no two entries share a key. Established by `new` and
    /// preserved by every method.
    pub closed spec fn wf(&self) -> bool {
        distinct_keys(self.entries@)
    }

    /// The empty mapping.
    pub fn new() -> (r: StringMap)
        ensures
            r.wf(),
            r@ == Map::<Seq<char>, Seq<char>>::empty(),
    {
        StringMap { entries: Vec::new() }
    }

    /// Whether the mapping has no entries.
    pub fn is_empty(&self) -> (r: bool)
        ensures
            r == (self@ == Map::<Seq<char>, Seq<char>>::empty()),
    {
        proof {
            if self.entries@.len() > 0 {
                assert(self@.contains_key(self.entries@.last().0@));
            }
        }
        self.entries.len() == 0
    }

    /// The value bound to `key`, if any.
    pub fn get(&self, key: &str) -> (r: Option<&String>)
        requires
            self.wf(),
        ensures
            match r {
                Some(v) => self@.contains_key(key@) && v@ == self@[key@],
                None => !self@.contains_key(key@),
            },
    {
        proof {
            lemma_assoc_view(self.entries@);
        }
        let n = self.entries.len();
        let mut i: usize = 0;
        while i < n
            invariant
                i <= n,
                n == self.entries@.len(),
                distinct_keys(self.entries@),
                forall|k: int| 0 <= k < i ==> self.entries@[k].0@ != key@,
            decreases n - i,
        {
            if str_eq(self.entries[i].0.as_str(), key) {
                proof {
                    lemma_assoc_view(self.entries@);
                }
                return Some(&self.entries[i].1);
            }
            i = i + 1;
        }
        proof {
            lemma_assoc_view(self.entries@);
        }
        None
    }

    /// Binds `key` to `value`, replacing any earlier binding: the rule for
    /// query keys, where a repeated key's last occurrence wins.
    pub fn insert_overwrite(&mut self, key: String, value: String)
        requires
            old(self).wf(),
        ensures
            final(self).wf(),
            final(self)@ == old(self)@.insert(key@, value@),
    {
        let n = self.entries.len();
        let mut i: usize = 0;
        while i < n
            invariant
                i <= n,
                n == self.entries@.len(),
                self.entries@ == old(self).entries@,
                distinct_keys(self.entries@),
                forall|k: int| 0 <= k < i ==> self.entries@[k].0@ != key@,
            decreases n - i,
        {
            if str_eq(self.entries[i].0.as_str(), key.as_str()) {
                let ghost old_entries = self.entries@;
                let ghost gk = key@;
                let ghost gv = value@;
                self.entries.set(i, (key, value));
                proof {
                    let e = self.entries@[i as int];
                    assert(e.0@ == gk && e.1@ == gv);
                    assert(self.entries@ == old_entries.update(i as int, e));
                    lemma_assoc_update(old_entries, i as int, e);
                }
                return ;
            }
            i = i + 1;
        }
        let ghost old_entries = self.entries@;
        let ghost gk = key@;
        let ghost gv = value@;
        self.entries.push((key, value));
        proof {
            assert(self.entries@.drop_last() =~= old_entries);
            assert(self.entries@.last().0@ == gk && self.entries@.last().1@ == gv);
            assert(assoc_view(self.entries@) == assoc_view(self.entries@.drop_last()).insert(
                self.entries@.last().0@,
                self.entries@.last().1@,
            ));
        }
    }

    /// Binds `key` to `value` only if `key` is not yet bound: the rule for
    /// merging a parameter binding under those reported from deeper trie
    /// nodes, which take precedence.
    pub fn insert_keep(&mut self, key: String, value: String)
        requires
            old(self).wf(),
        ensures
            final(self).wf(),
            final(self)@ == if old(self)@.contains_key(key@) {
                old(self)@
            } else {
                old(self)@.insert(key@, value@)
            },
    {
        proof {
            lemma_assoc_view(self.entries@);
        }
        let n = self.entries.len();
        let mut i: usize = 0;
        while i < n
            invariant
                i <= n,
                n == self.entries@.len(),
                distinct_keys(self.entries@),
                self@ == assoc_view(self.entries@),
                forall|k: int| 0 <= k < i ==> self.entries@[k].0@ != key@,
            decreases n - i,
        {
            if str_eq(self.entries[i].0.as_str(), key.as_str()) {
                proof {
                    lemma_assoc_view(self.entries@);
                }
                return ;
            }
            i = i + 1;
        }
        let ghost old_entries = self.entries@;
        self.entries.push((key, value));
        proof {
            lemma_assoc_view(old_entries);
            assert(self.entries@.drop_last() =~= old_entries);
        }
    }
}

/// Updating the entry at `i` to a pair with the same key updates the
/// denoted map at that key alone.
proof fn lemma_assoc_update(entries: Seq<(String, String)>, i: int, e: (String, String))
    requires
        0 <= i < entries.len(),
        distinct_keys(entries),
        entries[i].0@ == e.0@,
    ensures
        assoc_view(entries.update(i, e)) == assoc_view(entries).insert(e.0@, e.1@),
    decreases entries.len(),
{
    let upd = entries.update(i, e);
    if i == entries.len() - 1 {
        assert(upd.drop_last() =~= entries.drop_last());
        assert(assoc_view(upd) == assoc_view(entries.drop_last()).insert(e.0@, e.1@));
        assert(assoc_view(entries).insert(e.0@, e.1@) =~= assoc_view(entries.drop_last()).insert(
            e.0@,
            e.1@,
        ));
    } else {
        let pre = entries.drop_last();
        assert(upd.drop_last() =~= pre.update(i, e));
        assert(pre[i].0@ == e.0@);
        lemma_assoc_update(pre, i, e);
        let last = entries.last();
        assert(upd.last() == last);
        assert(assoc_view(upd) == assoc_view(pre).insert(e.0@, e.1@).insert(last.0@, last.1@));
        assert(entries[i].0@ != last.0@);
        assert(assoc_view(pre).insert(e.0@, e.1@).insert(last.0@, last.1@) =~= assoc_view(
            pre,
        ).insert(last.0@, last.1@).insert(e.0@, e.1@));
    }
}

} // verus!
