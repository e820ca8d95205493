//! A mapping from language tags to localized display strings, as the
//! geo-lookup collaborator supplies one per name group. Keys are kept
//! unique; the view is the mathematical map from tag to string.

use vstd::prelude::*;

use crate::text::str_eq;

verus! {

/// No two entries share a key.
pub open spec fn keys_unique(s: Seq<(Seq<char>, Seq<char>)>) -> bool {
    forall|i: int, j: int| 0 <= i < j < s.len() ==> s[i].0 != s[j].0
}

/// The mathematical map an entry list stands for; a later entry with the
/// same key wins.
pub open spec fn assoc_map(s: Seq<(Seq<char>, Seq<char>)>) -> Map<Seq<char>, Seq<char>>
    decreases s.len(),
{
    if s.len() == 0 {
        Map::empty()
    } else {
        assoc_map(s.drop_last()).insert(s.last().0, s.last().1)
    }
}

/// A key is in the map exactly when some entry carries it.
proof fn lemma_assoc_map_contains(s: Seq<(Seq<char>, Seq<char>)>, k: Seq<char>)
    ensures
        assoc_map(s).contains_key(k) <==> exists|i: int| 0 <= i < s.len() && s[i].0 == k,
    decreases s.len(),
{
    if s.len() > 0 {
        lemma_assoc_map_contains(s.drop_last(), k);
        if s.last().0 == k {
            assert(s[s.len() - 1].0 == k);
        } else if assoc_map(s).contains_key(k) {
            let i = choose|i: int| 0 <= i < s.drop_last().len() && s.drop_last()[i].0 == k;
            assert(s[i].0 == k);
        } else if exists|i: int| 0 <= i < s.len() && s[i].0 == k {
            let i = choose|i: int| 0 <= i < s.len() && s[i].0 == k;
            assert(s.drop_last()[i].0 == k);
        }
    }
}

/// With unique keys, the entry holding a key decides its value.
proof fn lemma_assoc_map_get(s: Seq<(Seq<char>, Seq<char>)>, i: int)
    requires
        keys_unique(s),
        0 <= i < s.len(),
    ensures
        assoc_map(s).contains_key(s[i].0),
        assoc_map(s)[s[i].0] == s[i].1,
    decreases s.len(),
{
    lemma_assoc_map_contains(s, s[i].0);
    if i < s.len() - 1 {
        assert(s[i].0 != s.last().0);
        assert(s.drop_last()[i] == s[i]);
        lemma_assoc_map_get(s.drop_last(), i);
    }
}

/// Replacing the value of an existing key updates the map in place.
proof fn lemma_assoc_map_update(s: Seq<(Seq<char>, Seq<char>)>, i: int, k: Seq<char>, v: Seq<char>)
    requires
        keys_unique(s),
        0 <= i < s.len(),
        s[i].0 == k,
    ensures
        assoc_map(s.update(i, (k, v))) =~= assoc_map(s).insert(k, v),
    decreases s.len(),
{
    let t = s.update(i, (k, v));
    if i == s.len() - 1 {
        assert(t.drop_last() =~= s.drop_last());
        assert(t.last() == (k, v));
    } else {
        assert(k != s.last().0);
        assert(t.drop_last() =~= s.drop_last().update(i, (k, v)));
        assert(s.drop_last()[i] == s[i]);
        lemma_assoc_map_update(s.drop_last(), i, k, v);
        assert(t.last() == s.last());
        assert(assoc_map(t) =~= assoc_map(s.drop_last()).insert(k, v).insert(
            s.last().0,
            s.last().1,
        ));
        assert(assoc_map(s.drop_last()).insert(k, v).insert(s.last().0, s.last().1) =~= assoc_map(
            s.drop_last(),
        ).insert(s.last().0, s.last().1).insert(k, v));
    }
}

/// A map from language tag to localized string.
pub struct LangMap {
    entries: Vec<(String, String)>,
}

impl LangMap {
    #[verifier::type_invariant]
    spec fn wf(self) -> bool {
        keys_unique(self.entries.deep_view())
    }

    pub closed spec fn view(self) -> Map<Seq<char>, Seq<char>> {
        assoc_map(self.entries.deep_view())
    }

    /// An empty map.
    pub fn new() -> (r: Self)
        ensures
            r@ == Map::<Seq<char>, Seq<char>>::empty(),
    {
        let r = LangMap { entries: Vec::new() };
        proof {
            assert(r.entries.deep_view() =~~= Seq::<(Seq<char>, Seq<char>)>::empty());
        }
        r
    }

    /// Adds a tag with its localized string, replacing any earlier string
    /// under the same tag.
    pub fn insert(&mut self, key: String, val: String)
        ensures
            final(self)@ == old(self)@.insert(key@, val@),
    {
        proof {
            use_type_invariant(&*self);
        }
        let ghost prev = self.entries.deep_view();
        let mut entries: Vec<(String, String)> = Vec::new();
        std::mem::swap(&mut entries, &mut self.entries);
        let n = entries.len();
        let mut i: usize = 0;
        let mut found = false;
        while i < n && !found
            invariant
                n == entries.len(),
                i <= n,
                entries.deep_view() == prev,
                keys_unique(prev),
                !found ==> forall|j: int| 0 <= j < i ==> prev[j].0 != key@,
                found ==> i < n && prev[i as int].0 == key@,
            decreases n - i + (if found { 0int } else { 1int }),
        {
            if str_eq(entries[i].0.as_str(), key.as_str()) {
                found = true;
            } else {
                i += 1;
            }
        }
        if found {
            entries.remove(i);
            entries.insert(i, (key, val));
            proof {
                assert(entries.deep_view() =~~= prev.update(i as int, (key@, val@)));
                lemma_assoc_map_update(prev, i as int, key@, val@);
                assert(keys_unique(entries.deep_view()));
            }
        } else {
            entries.push((key, val));
            proof {
                assert(entries.deep_view() =~~= prev.push((key@, val@)));
                lemma_assoc_map_contains(prev, key@);
                assert(entries.deep_view().drop_last() =~~= prev);
                assert(keys_unique(entries.deep_view()));
            }
        }
        self.entries = entries;
    }

    /// Looks a tag up, returning its localized string when present.
    pub fn get(&self, key: &str) -> (r: Option<String>)
        ensures
            match r {
                Some(v) => self@.contains_key(key@) && v@ == self@[key@],
                None => !self@.contains_key(key@),
            },
    {
        proof {
            use_type_invariant(&*self);
        }
        let n = self.entries.len();
        let mut i: usize = 0;
        while i < n
            invariant
                n == self.entries.len(),
                i <= n,
                keys_unique(self.entries.deep_view()),
                forall|j: int| 0 <= j < i ==> self.entries.deep_view()[j].0 != key@,
            decreases n - i,
        {
            if str_eq(self.entries[i].0.as_str(), key) {
                proof {
                    lemma_assoc_map_get(self.entries.deep_view(), i as int);
                }
                return Some(self.entries[i].1.clone());
            }
            i += 1;
        }
        proof {
            lemma_assoc_map_contains(self.entries.deep_view(), key@);
        }
        None
    }
}

impl Clone for LangMap {
    /// A copy holding the same tags and strings.
    fn clone(&self) -> (r: Self)
        ensures
            r@ == self@,
    {
        proof {
            use_type_invariant(&*self);
        }
        let mut entries: Vec<(String, String)> = Vec::new();
        let n = self.entries.len();
        let mut i: usize = 0;
        while i < n
            invariant
                n == self.entries.len(),
                i <= n,
                entries.deep_view() == self.entries.deep_view().take(i as int),
            decreases n - i,
        {
            let k = self.entries[i].0.clone();
            let v = self.entries[i].1.clone();
            proof {
                assert(k@ == self.entries.deep_view()[i as int].0);
                assert(v@ == self.entries.deep_view()[i as int].1);
            }
            let ghost eprev = entries.deep_view();
            entries.push((k, v));
            proof {
                assert(entries.deep_view() =~~= eprev.push((k@, v@)));
                assert(entries.deep_view() =~~= self.entries.deep_view().take(i + 1));
            }
            i += 1;
        }
        proof {
            assert(entries.deep_view() =~~= self.entries.deep_view());
        }
        LangMap { entries }
    }
}

} // verus!
