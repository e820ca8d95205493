use sender_meta::langmap::LangMap;
use sender_meta::meta::{accept_language_ok, GeoCity, SenderData, Subdivision};
use sender_meta::prefs::preferred_language;
use sender_meta::select::get_preferred_language_element;

fn california_map() -> LangMap {
    let mut elements = LangMap::new();
    elements.insert("de".to_owned(), "Kalifornien".to_owned());
    elements.insert("en".to_owned(), "California".to_owned());
    elements.insert("fr".to_owned(), "Californie".to_owned());
    elements.insert("ja".to_owned(), "カリフォルニア州".to_owned());
    elements
}

#[test]
fn test_preferred_language() {
    let langs = preferred_language("en-US,es;q=0.1,en;q=0.5".to_owned());
    assert_eq!(
        vec![
            "en-us".to_owned(),
            "en".to_owned(),
            "es".to_owned(),
            "en".to_owned(),
        ],
        langs
    );
}

#[test]
fn test_get_preferred_language_element() {
    let langs = vec![
        "en-us".to_owned(),
        "en".to_owned(),
        "es".to_owned(),
        "en".to_owned(),
    ];
    let bad_lang = vec!["fu".to_owned()];
    let elements = california_map();
    assert_eq!(
        Some("California".to_owned()),
        get_preferred_language_element(&langs, elements.clone())
    );
    assert_eq!(
        None,
        get_preferred_language_element(&bad_lang, elements.clone())
    );
}

#[test]
fn parser_always_appends_default() {
    for header in [
        "",
        "fr",
        "fr;",
        ";q=0.5",
        "de-DE,de;q=0.9,en;q=0.8",
        "zh-CN,zh;q=0.9",
        ",,,",
    ] {
        let langs = preferred_language(header.to_owned());
        assert!(!langs.is_empty());
        assert_eq!(Some(&"en".to_owned()), langs.last());
    }
}

#[test]
fn parser_empty_header_yields_empty_tag_then_default() {
    assert_eq!(
        vec!["".to_owned(), "en".to_owned()],
        preferred_language("".to_owned())
    );
}

#[test]
fn parser_tolerates_missing_weight() {
    // an entry with a separator but nothing after it keys an empty weight
    assert_eq!(
        vec!["fr".to_owned(), "en".to_owned()],
        preferred_language("fr;".to_owned())
    );
    // an entry with a weight but no tag records an empty tag
    assert_eq!(
        vec!["".to_owned(), "en".to_owned()],
        preferred_language(";q=0.5".to_owned())
    );
}

#[test]
fn parser_unweighted_entries_reverse_header_order() {
    // synthesized keys q=1.00, q=1.01, q=1.02 ascend, and the reversal
    // surfaces the later entries first
    assert_eq!(
        vec![
            "cc".to_owned(),
            "bb".to_owned(),
            "aa".to_owned(),
            "en".to_owned(),
        ],
        preferred_language("aa,bb,cc".to_owned())
    );
}

#[test]
fn parser_weight_order_is_textual() {
    // q=0.1 sorts before q=0.5 as strings; reversed, the higher text wins
    assert_eq!(
        vec![
            "en".to_owned(),
            "es".to_owned(),
            "en".to_owned(),
        ],
        preferred_language("es;q=0.1,en;q=0.5".to_owned())
    );
}

#[test]
fn parser_equal_weight_keys_keep_last_entry() {
    // two entries under the same weight expression share one key, and the
    // later tag replaces the earlier
    assert_eq!(
        vec!["fr".to_owned(), "en".to_owned()],
        preferred_language("de;q=0.5,fr;q=0.5".to_owned())
    );
}

#[test]
fn parser_ignores_parameters_after_second_separator() {
    // only the part between the first and second separator keys the entry
    assert_eq!(
        vec!["en".to_owned(), "en".to_owned()],
        preferred_language("en;q=0.5;extra".to_owned())
    );
}

#[test]
fn parser_lowercases_tag_and_weight() {
    assert_eq!(
        vec!["en-gb".to_owned(), "en".to_owned()],
        preferred_language("EN-GB;Q=0.7".to_owned())
    );
}

#[test]
fn selector_empty_map_returns_nothing() {
    let langs = vec!["en-us".to_owned(), "en".to_owned(), "de".to_owned()];
    let empty = LangMap::new();
    assert_eq!(None, get_preferred_language_element(&langs, empty));
}

#[test]
fn selector_exact_match_wins_over_later_base_match() {
    let mut elements = LangMap::new();
    elements.insert("de".to_owned(), "Kalifornien".to_owned());
    elements.insert("en".to_owned(), "California".to_owned());
    let langs = vec!["de".to_owned(), "en-us".to_owned()];
    assert_eq!(
        Some("Kalifornien".to_owned()),
        get_preferred_language_element(&langs, elements)
    );
}

#[test]
fn selector_exact_dialect_beats_base() {
    let mut elements = LangMap::new();
    elements.insert("en-us".to_owned(), "exact".to_owned());
    elements.insert("en".to_owned(), "base".to_owned());
    let langs = vec!["en-us".to_owned()];
    assert_eq!(
        Some("exact".to_owned()),
        get_preferred_language_element(&langs, elements)
    );
}

#[test]
fn selector_falls_back_to_base_language() {
    let langs = vec!["ja-jp".to_owned()];
    let elements = california_map();
    assert_eq!(
        Some("カリフォルニア州".to_owned()),
        get_preferred_language_element(&langs, elements)
    );
}

#[test]
fn langmap_insert_replaces_value() {
    let mut elements = LangMap::new();
    elements.insert("en".to_owned(), "first".to_owned());
    elements.insert("en".to_owned(), "second".to_owned());
    assert_eq!(Some("second".to_owned()), elements.get("en"));
    assert_eq!(None, elements.get("de"));
}

#[test]
fn derivation_passes_identity_fields_through() {
    let sender = SenderData::from_parts(
        Some("test-agent/1.0".to_owned()),
        Some("203.0.113.7".to_owned()),
        None,
        None,
    );
    assert_eq!(Some("test-agent/1.0".to_owned()), sender.ua);
    assert_eq!(Some("203.0.113.7".to_owned()), sender.addr);
}

#[test]
fn derivation_without_geo_record_leaves_places_unset() {
    // an unparsable or missing address gives no geo record, and the three
    // place fields stay unset whatever the headers say
    let sender = SenderData::from_parts(
        Some("agent".to_owned()),
        Some("not-an-ip".to_owned()),
        Some("en-US,es;q=0.1,en;q=0.5".to_owned()),
        None,
    );
    assert_eq!(None, sender.city);
    assert_eq!(None, sender.region);
    assert_eq!(None, sender.country);
}

fn geo_record() -> GeoCity {
    let mut city = LangMap::new();
    city.insert("en".to_owned(), "Mountain View".to_owned());
    city.insert("de".to_owned(), "Mountain View".to_owned());
    let mut country = LangMap::new();
    country.insert("en".to_owned(), "United States".to_owned());
    country.insert("fr".to_owned(), "États Unis".to_owned());
    GeoCity {
        city: Some(city),
        country: Some(country),
        subdivisions: vec![Subdivision {
            names: Some(california_map()),
        }],
    }
}

#[test]
fn derivation_resolves_all_three_places() {
    let sender = SenderData::from_parts(
        None,
        Some("89.160.20.112".to_owned()),
        Some("en-US,es;q=0.1,en;q=0.5".to_owned()),
        Some(geo_record()),
    );
    assert_eq!(Some("Mountain View".to_owned()), sender.city);
    assert_eq!(Some("United States".to_owned()), sender.country);
    assert_eq!(Some("California".to_owned()), sender.region);
}

#[test]
fn derivation_reads_first_subdivision_only() {
    let mut second = LangMap::new();
    second.insert("en".to_owned(), "Santa Clara County".to_owned());
    let record = GeoCity {
        city: None,
        country: None,
        subdivisions: vec![Subdivision { names: None }, Subdivision { names: Some(second) }],
    };
    let sender = SenderData::from_parts(None, None, None, Some(record));
    assert_eq!(None, sender.region);

    let empty = GeoCity {
        city: None,
        country: None,
        subdivisions: Vec::new(),
    };
    let sender = SenderData::from_parts(None, None, None, Some(empty));
    assert_eq!(None, sender.region);
}

#[test]
fn derivation_absent_header_matches_literal_default() {
    let absent = SenderData::from_parts(None, None, None, Some(geo_record()));
    let literal = SenderData::from_parts(None, None, Some("en".to_owned()), Some(geo_record()));
    assert_eq!(absent.city, literal.city);
    assert_eq!(absent.country, literal.country);
    assert_eq!(absent.region, literal.region);
}

#[test]
fn header_check_accepts_ordinary_headers() {
    assert!(accept_language_ok(&None));
    assert!(accept_language_ok(&Some("en-US,es;q=0.1,en;q=0.5".to_owned())));
    assert!(accept_language_ok(&Some("".to_owned())));
}

#[test]
fn header_check_rejects_bare_dash_tag() {
    // a one-character dialect tag has no base language to fall back to
    assert!(!accept_language_ok(&Some("-".to_owned())));
}
