//! The localized-value selector: walks a ranked preference list and picks
//! the best-matching entry of a name map, falling back from a dialect tag
//! to its two-character base language.

use vstd::prelude::*;
use vstd::string::StrSliceExecFns;

use crate::langmap::LangMap;
use crate::text::contains_char;

verus! {

/// A tag that names a dialect carries at least the two characters of its
/// base language; the selector takes those two when the full tag misses.
pub open spec fn tag_ok(t: Seq<char>) -> bool {
    t.contains('-') ==> t.len() >= 2
}

/// Every tag of a preference list is well-formed.
pub open spec fn prefs_ok(langs: Seq<Seq<char>>) -> bool {
    forall|i: int| 0 <= i < langs.len() ==> tag_ok(#[trigger] langs[i])
}

/// What the selector returns: the first preferred tag found in the map,
/// exactly or — for a dialect tag — by its base language; nothing when the
/// list is exhausted.
pub open spec fn select_spec(langs: Seq<Seq<char>>, m: Map<Seq<char>, Seq<char>>) -> Option<
    Seq<char>,
>
    decreases langs.len(),
{
    if langs.len() == 0 {
        None
    } else {
        let l = langs[0];
        if m.contains_key(l) {
            Some(m[l])
        } else if l.contains('-') && m.contains_key(l.take(2)) {
            Some(m[l.take(2)])
        } else {
            select_spec(langs.drop_first(), m)
        }
    }
}

/// Returns the element of the name map that most closely matches the
/// preferred languages, rounding up from a dialect where possible.
pub fn get_preferred_language_element(langs: &Vec<String>, elements: LangMap) -> (r: Option<
    String,
>)
    requires
        prefs_ok(langs.deep_view()),
    ensures
        r.deep_view() == select_spec(langs.deep_view(), elements@),
{
    let ghost all = langs.deep_view();
    let n = langs.len();
    let mut i: usize = 0;
    proof {
        assert(all.skip(0) =~~= all);
    }
    while i < n
        invariant
            n == langs.len(),
            all == langs.deep_view(),
            prefs_ok(all),
            i <= n,
            select_spec(all, elements@) == select_spec(all.skip(i as int), elements@),
        decreases n - i,
    {
        let lang: &String = &langs[i];
        proof {
            assert(all.skip(i as int)[0] == lang@);
        }
        match elements.get(lang.as_str()) {
            Some(v) => {
                return Some(v);
            },
            None => {},
        }
        if contains_char(lang.as_str(), '-') {
            proof {
                assert(tag_ok(all[i as int]));
            }
            let base = lang.as_str().substring_char(0, 2);
            proof {
                assert(base@ =~= lang@.take(2));
            }
            match elements.get(base) {
                Some(v) => {
                    return Some(v);
                },
                None => {},
            }
        }
        proof {
            assert(all.skip(i as int).drop_first() =~~= all.skip(i + 1));
        }
        i += 1;
    }
    proof {
        assert(all.skip(n as int).len() == 0);
    }
    None
}

/// An empty name map never yields a value, whatever the preference list.
pub proof fn lemma_select_empty_map(langs: Seq<Seq<char>>, m: Map<Seq<char>, Seq<char>>)
    requires
        m == Map::<Seq<char>, Seq<char>>::empty(),
    ensures
        select_spec(langs, m) is None,
    decreases langs.len(),
{
    if langs.len() > 0 {
        lemma_select_empty_map(langs.drop_first(), m);
    }
}

/// A name map that contains the current preferred tag yields that exact
/// match at once, before any base-language fallback — even one that a
/// later preferred tag would reach.
pub proof fn lemma_select_exact_first(langs: Seq<Seq<char>>, m: Map<Seq<char>, Seq<char>>)
    requires
        langs.len() > 0,
        m.contains_key(langs[0]),
    ensures
        select_spec(langs, m) == Some(m[langs[0]]),
{
}

} // verus!
