//! Sender metadata: the record describing a connection's origin, and the
//! derivation that assembles it from the request's headers, its remote
//! address, and the optional result of a geo lookup.

use vstd::prelude::*;
use vstd::string::{StrSliceExecFns, StringExecFns};

use crate::default_tag;
use crate::langmap::LangMap;
use crate::prefs::{parse_prefs, preferred_language};
use crate::select::{get_preferred_language_element, prefs_ok, select_spec, tag_ok};
use crate::text::contains_char;

verus! {

/// Sender meta data, drawn from the headers of the connection counterpart.
/// Every field is independently optional: presence reflects what was
/// determinable, never a placeholder.
#[derive(Clone, Debug)]
pub struct SenderData {
    pub ua: Option<String>,
    pub addr: Option<String>,
    pub city: Option<String>,
    pub region: Option<String>,
    pub country: Option<String>,
}

impl Default for SenderData {
    /// The empty record: no field determined.
    fn default() -> (r: Self)
        ensures
            r.ua is None,
            r.addr is None,
            r.city is None,
            r.region is None,
            r.country is None,
    {
        Self { ua: None, addr: None, city: None, region: None, country: None }
    }
}

/// One subdivision entry of a geo record: its localized names, if any.
pub struct Subdivision {
    pub names: Option<LangMap>,
}

/// The library's reading of one address-lookup record: optional localized
/// name maps for the city and the country, and the ordered subdivision
/// entries. Only the first subdivision is ever consulted.
pub struct GeoCity {
    pub city: Option<LangMap>,
    pub country: Option<LangMap>,
    pub subdivisions: Vec<Subdivision>,
}

/// The ranked preference list a header stands for: its parse when the
/// header is present, the default tag alone when it is absent.
pub open spec fn langs_of(accept_language: Option<String>) -> Seq<Seq<char>> {
    match accept_language {
        Some(h) => parse_prefs(h@),
        None => seq![default_tag()],
    }
}

/// The city name the derivation settles on.
pub open spec fn city_of(langs: Seq<Seq<char>>, geo: Option<GeoCity>) -> Option<Seq<char>> {
    match geo {
        Some(g) => match g.city {
            Some(m) => select_spec(langs, m@),
            None => None,
        },
        None => None,
    }
}

/// The country name the derivation settles on.
pub open spec fn country_of(langs: Seq<Seq<char>>, geo: Option<GeoCity>) -> Option<Seq<char>> {
    match geo {
        Some(g) => match g.country {
            Some(m) => select_spec(langs, m@),
            None => None,
        },
        None => None,
    }
}

/// The region name the derivation settles on: from the first subdivision
/// entry only, and only when that entry carries names.
pub open spec fn region_of(langs: Seq<Seq<char>>, geo: Option<GeoCity>) -> Option<Seq<char>> {
    match geo {
        Some(g) => if g.subdivisions@.len() > 0 {
            match g.subdivisions@[0].names {
                Some(m) => select_spec(langs, m@),
                None => None,
            }
        } else {
            None
        },
        None => None,
    }
}

impl SenderData {
    /// Assembles the sender record from the already-read request inputs and
    /// the optional geo-lookup result. Each field is resolved independently
    /// and best-effort: an absent input leaves its field unset, and an
    /// absent geo record leaves all three place names unset.
    pub fn from_parts(
        ua: Option<String>,
        addr: Option<String>,
        accept_language: Option<String>,
        geo: Option<GeoCity>,
    ) -> (r: SenderData)
        requires
            accept_language matches Some(h) ==> prefs_ok(parse_prefs(h@)),
        ensures
            r.ua == ua,
            r.addr == addr,
            r.city.deep_view() == city_of(langs_of(accept_language), geo),
            r.country.deep_view() == country_of(langs_of(accept_language), geo),
            r.region.deep_view() == region_of(langs_of(accept_language), geo),
            geo is None ==> r.city is None && r.region is None && r.country is None,
    {
        let ghost glangs = langs_of(accept_language);
        let langs: Vec<String> = match accept_language {
            None => {
                let mut v: Vec<String> = Vec::new();
                let deflt = String::from_str("en");
                proof {
                    reveal_strlit("en");
                    assert(deflt@ =~= default_tag());
                }
                v.push(deflt);
                proof {
                    assert(v.deep_view() =~~= seq![default_tag()]);
                    assert(!default_tag().contains('-')) by {
                        assert(forall|i: int|
                            0 <= i < default_tag().len() ==> #[trigger] default_tag()[i] != '-');
                    }
                    assert(forall|i: int|
                        0 <= i < glangs.len() ==> tag_ok(#[trigger] glangs[i]));
                }
                v
            },
            Some(h) => preferred_language(h),
        };
        proof {
            assert(langs.deep_view() == glangs);
        }
        let mut r = SenderData::default();
        r.ua = ua;
        r.addr = addr;
        match geo {
            None => {},
            Some(g) => {
                match g.city {
                    Some(m) => {
                        r.city = get_preferred_language_element(&langs, m);
                    },
                    None => {},
                }
                match g.country {
                    Some(m) => {
                        r.country = get_preferred_language_element(&langs, m);
                    },
                    None => {},
                }
                let mut subs = g.subdivisions;
                if subs.len() > 0 {
                    let first = subs.remove(0);
                    match first.names {
                        Some(m) => {
                            r.region = get_preferred_language_element(&langs, m);
                        },
                        None => {},
                    }
                }
            },
        }
        r
    }
}

/// Whether every tag the header stands for is well-formed, as the
/// derivation requires of its preference input.
pub fn accept_language_ok(accept_language: &Option<String>) -> (b: bool)
    ensures
        b == prefs_ok(langs_of(*accept_language)),
{
    match accept_language {
        None => {
            proof {
                reveal_strlit("en");
                assert(!default_tag().contains('-')) by {
                    assert(forall|i: int|
                        0 <= i < default_tag().len() ==> #[trigger] default_tag()[i] != '-');
                }
                assert(tag_ok(default_tag()));
                assert(forall|i: int|
                    0 <= i < seq![default_tag()].len() ==> tag_ok(#[trigger] seq![default_tag()][i]));
            }
            true
        },
        Some(h) => {
            let langs = preferred_language(h.clone());
            let ghost lseq = langs.deep_view();
            proof {
                assert(lseq == parse_prefs(h@));
                assert(langs_of(*accept_language) == parse_prefs(h@));
            }
            let n = langs.len();
            let mut i: usize = 0;
            while i < n
                invariant
                    n == langs.len(),
                    lseq == langs.deep_view(),
                    lseq == langs_of(*accept_language),
                    i <= n,
                    forall|j: int| 0 <= j < i ==> tag_ok(#[trigger] lseq[j]),
                decreases n - i,
            {
                let tag: &String = &langs[i];
                proof {
                    assert(lseq[i as int] == tag@);
                }
                if contains_char(tag.as_str(), '-') && tag.as_str().unicode_len() < 2 {
                    proof {
                        assert(!tag_ok(lseq[i as int]));
                        assert(!prefs_ok(lseq));
                        assert(lseq == langs_of(*accept_language));
                    }
                    return false;
                }
                i += 1;
            }
            true
        },
    }
}

/// Ranking with no preference header present is the same as ranking with a
/// header that holds just the default tag: for every name map, the two
/// preference lists select the same value.
pub proof fn lemma_absent_header_like_default(m: Map<Seq<char>, Seq<char>>)
    ensures
        select_spec(langs_of(Option::<String>::None), m) == select_spec(
            parse_prefs(default_tag()),
            m,
        ),
{
    let en = default_tag();
    assert(!en.contains(',')) by {
        assert(forall|i: int| 0 <= i < en.len() ==> #[trigger] en[i] != ',');
    }
    assert(!en.contains(';')) by {
        assert(forall|i: int| 0 <= i < en.len() ==> #[trigger] en[i] != ';');
    }
    assert(!en.contains('-')) by {
        assert(forall|i: int| 0 <= i < en.len() ==> #[trigger] en[i] != '-');
    }
    // the header splits into the single entry `en`
    let single = crate::text::split_seq(en, ',');
    assert(crate::text::split_seq(en.drop_first(), ',') =~~= seq![seq!['n']]) by {
        assert(en.drop_first() =~= seq!['n']);
        assert(seq!['n'].drop_first() =~= Seq::<char>::empty());
        assert(crate::text::split_seq(Seq::<char>::empty(), ',') =~~= seq![Seq::<char>::empty()]);
    }
    assert(single =~~= seq![en]);
    // the single unweighted entry lands under the first synthesized key
    reveal_with_fuel(crate::prefs::entries_fold, 3);
    reveal_with_fuel(select_spec, 3);
    assert(crate::text::lower_seq(en) =~= en);
    let tree = crate::prefs::entries_fold(seq![en], Seq::empty(), 0);
    assert(seq![en].drop_first() =~~= Seq::<Seq<char>>::empty());
    let step = crate::prefs::entry_step(Seq::empty(), 0, en);
    assert(step.0 =~~= seq![(crate::prefs::synth_key(0), en)]);
    assert(tree =~~= seq![(crate::prefs::synth_key(0), en)]);
    assert(crate::prefs::tree_vals(tree) =~~= seq![en]);
    assert(crate::prefs::tree_vals(tree).reverse() =~~= seq![en]);
    assert(parse_prefs(en) =~~= seq![en, en]);
    // both lists select alike: an exact match answers at once, a miss on
    // `en` recurses into a list that misses alike
    if m.contains_key(en) {
        assert(select_spec(seq![en], m) == Some(m[en]));
        assert(select_spec(seq![en, en], m) == Some(m[en]));
    } else {
        assert(seq![en].drop_first() =~~= Seq::<Seq<char>>::empty());
        assert(seq![en, en].drop_first() =~~= seq![en]);
        assert(select_spec(seq![en], m) is None);
        assert(select_spec(seq![en, en], m) is None);
    }
}

} // verus!
