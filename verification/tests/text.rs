//! Glyph names, scripts, templates and the small enumerations.

use rasura_layout::agl::{exact, is_opaque, lookup, name_of};
use rasura_layout::glyphdata::agl_part;
use rasura_layout::running::{looks_like_page_numbering, template_of};
use rasura_layout::script::{dominant, is_invisible, is_space, of, Script};
use rasura_layout::tags::TaggedStatus;
use rasura_layout::unicode::{confidence, pua_sentinel, Strategy, TextConfidence};

/// The glyph list: each name with the text it stands for.
fn glyph_list() -> Vec<(String, String)> {
    let mut out = Vec::new();
    for part in 0..17 {
        for line in agl_part(part).lines() {
            let (name, codes) = line.split_once(';').expect("a name and its code points");
            let text: String = codes
                .split(' ')
                .map(|c| u32::from_str_radix(c, 16).ok().and_then(char::from_u32).expect("a character"))
                .collect();
            out.push((name.to_string(), text));
        }
    }
    out
}

#[test]
fn the_table_is_sorted_and_complete_enough() {
    let list = glyph_list();
    for pair in list.windows(2) {
        assert!(pair[0].0 < pair[1].0, "{} then {}", pair[0].0, pair[1].0);
    }
    assert!(list.len() > 4000, "this must be the whole list");
}

#[test]
fn every_agl_entry_resolves_through_lookup() {
    for (name, expected) in glyph_list() {
        assert_eq!(lookup(&name).as_deref(), Some(expected.as_str()), "{name}");
    }
}

#[test]
fn resolves_ordinary_names() {
    assert_eq!(lookup("A").as_deref(), Some("A"));
    assert_eq!(lookup("space").as_deref(), Some(" "));
    assert_eq!(lookup("adieresis").as_deref(), Some("ä"));
    assert_eq!(lookup("germandbls").as_deref(), Some("ß"));
    assert_eq!(lookup("bullet").as_deref(), Some("\u{2022}"));
}

#[test]
fn resolves_the_ligatures_that_break_extraction() {
    // The characters that vanish from a document with no /ToUnicode.
    assert_eq!(lookup("fi").as_deref(), Some("\u{fb01}"));
    assert_eq!(lookup("fl").as_deref(), Some("\u{fb02}"));
    assert_eq!(lookup("ffi").as_deref(), Some("\u{fb03}"));
}

#[test]
fn resolves_the_uni_conventions() {
    assert_eq!(lookup("uni0041").as_deref(), Some("A"));
    assert_eq!(lookup("uni00E9").as_deref(), Some("é"));
    assert_eq!(lookup("u0041").as_deref(), Some("A"));
    assert_eq!(lookup("u1D400").as_deref(), Some("\u{1d400}"));
    // Multiple UTF-16 units, including a surrogate pair.
    assert_eq!(lookup("uni0066006A").as_deref(), Some("fj"));
    assert_eq!(lookup("uniD835DC00").as_deref(), Some("\u{1d400}"));
}

#[test]
fn rejects_malformed_uni_names() {
    assert_eq!(lookup("uni00"), None, "too short");
    assert_eq!(lookup("uni00411"), None, "not a multiple of four");
    assert_eq!(lookup("uniZZZZ"), None, "not hex");
    assert_eq!(lookup("u12"), None);
}

#[test]
fn variant_suffixes_carry_the_base_text() {
    // `A.sc` is small-cap A; the text is still "A".
    assert_eq!(lookup("A.sc").as_deref(), Some("A"));
    assert_eq!(lookup("one.oldstyle").as_deref(), Some("1"));
    assert_eq!(lookup("uni0041.alt2").as_deref(), Some("A"));
}

#[test]
fn underscore_ligature_names_join_their_components() {
    assert_eq!(lookup("f_i").as_deref(), Some("fi"));
    assert_eq!(lookup("f_f_l").as_deref(), Some("ffl"));
    assert_eq!(lookup("f_i.sc").as_deref(), Some("fi"));
}

#[test]
fn opaque_names_resolve_to_nothing() {
    for name in ["g34", "cid7", "index12", "glyph200", "42"] {
        assert_eq!(lookup(name), None, "{name} must not resolve");
        assert!(is_opaque(name), "{name} should be recognised as opaque");
    }
}

#[test]
fn real_names_are_not_mistaken_for_opaque_ones() {
    // `g` is a real glyph name; `gamma` and `guillemotleft` start with it.
    for name in ["g", "gamma", "guillemotleft", "germandbls", "cid"] {
        assert!(!is_opaque(name), "{name} is a real name");
    }
    assert_eq!(lookup("g").as_deref(), Some("g"));
}

#[test]
fn classifies_the_scripts_that_change_segmentation() {
    assert_eq!(of('a'), Script::Spaced);
    assert_eq!(of('Я'), Script::Spaced);
    assert_eq!(of('α'), Script::Spaced);
    assert_eq!(of('漢'), Script::CjkIdeographic);
    assert_eq!(of('ひ'), Script::CjkIdeographic);
    assert_eq!(of('カ'), Script::CjkIdeographic);
    assert_eq!(of('한'), Script::CjkIdeographic);
    assert_eq!(of('ก'), Script::Continuous);
    assert_eq!(of('ក'), Script::Continuous);
    assert_eq!(of('ا'), Script::RightToLeft);
    assert_eq!(of('א'), Script::RightToLeft);
    assert_eq!(of('1'), Script::Neutral);
    assert_eq!(of('.'), Script::Neutral);
}

#[test]
fn only_continuous_scripts_refuse_geometric_segmentation() {
    assert!(Script::Spaced.segments_on_geometry());
    assert!(Script::RightToLeft.segments_on_geometry(), "Arabic does use spaces");
    assert!(Script::Neutral.segments_on_geometry());
    assert!(!Script::Continuous.segments_on_geometry());
    assert!(
        !Script::CjkIdeographic.segments_on_geometry(),
        "CJK has no inter-word spacing to measure"
    );
}

#[test]
fn dominant_ignores_neutrals() {
    assert_eq!(dominant("Hello, world! 123"), Script::Spaced);
    assert_eq!(dominant("日本語のテキスト"), Script::CjkIdeographic);
    // A Japanese line with Latin numerals is still Japanese.
    assert_eq!(dominant("第2章の内容について"), Script::CjkIdeographic);
    // An English line with one kanji is still English.
    assert_eq!(dominant("The character 漢 means Han"), Script::Spaced);
    assert_eq!(dominant("123 456"), Script::Neutral);
    assert_eq!(dominant(""), Script::Neutral);
}

#[test]
fn recognises_the_spaces_spec_7_3_names() {
    for c in [' ', '\u{00a0}', '\u{2000}', '\u{2005}', '\u{200a}', '\u{3000}'] {
        assert!(is_space(c), "{c:?} ({:04x}) should be a space", c as u32);
    }
    for c in ['a', '\u{200b}', '-'] {
        assert!(!is_space(c), "{c:?} is not a space");
    }
}

#[test]
fn zero_width_characters_are_invisible() {
    assert!(is_invisible('\u{200b}'), "zero-width space");
    assert!(is_invisible('\u{00ad}'), "soft hyphen");
    assert!(is_invisible('\u{feff}'));
    assert!(!is_invisible(' '));
    assert!(!is_invisible('a'));
}

#[test]
fn template_reduction_allows_exactly_one_numeric_field() {
    assert_eq!(template_of("Page 1", "Page 2"), Some("Page {}".into()));
    assert_eq!(template_of("1 of 9", "2 of 9"), Some("{} of 9".into()));
    assert_eq!(template_of("same", "same"), Some("same".into()));
    // Non-numeric variation is not a running element.
    assert_eq!(template_of("Alpha", "Beta"), None);
    assert_eq!(template_of("1 of 9", "2 of 8"), None);
}

#[test]
fn page_numbering_reads_the_templates_field_not_the_first_digits() {
    let t = "14773_01_1-174_r9jm.qxd 2/10/04 3:51 PM Page {}";
    let instances = vec![
        "14773_01_1-174_r9jm.qxd 2/10/04 3:51 PM Page 1".to_string(),
        "14773_01_1-174_r9jm.qxd 2/10/04 3:51 PM Page 2".to_string(),
        "14773_01_1-174_r9jm.qxd 2/10/04 3:51 PM Page 3".to_string(),
    ];
    assert!(looks_like_page_numbering(t, &instances, &vec![16, 17, 18]));
}

#[test]
fn a_field_that_grows_a_digit_stays_one_template() {
    assert_eq!(template_of("Page 9", "Page 10"), Some("Page {}".into()));
    assert_eq!(template_of("Page 10", "Page 11"), Some("Page {}".into()));
    assert_eq!(template_of("Page 99", "Page 100"), Some("Page {}".into()));
    // The same, with a suffix on the far side of the number.
    assert_eq!(template_of("p9 of 20", "p10 of 20"), Some("p{} of 20".into()));
}

#[test]
fn degraded_is_a_third_state_not_a_kind_of_tagged() {
    // Assistive technology reads a wrongly-tagged file worse than an
    // untagged one, because it trusts a map that is wrong rather than
    // falling back to geometry. Collapsing the two would hide that.
    assert_ne!(TaggedStatus::Degraded, TaggedStatus::Tagged);
    assert_eq!(TaggedStatus::Degraded.as_str(), "tagged-degraded");
    assert_eq!(TaggedStatus::Untagged.as_str(), "untagged");
}

#[test]
fn pua_sentinels_are_distinct_and_in_range() {
    let a = pua_sentinel(1);
    let b = pua_sentinel(2);
    assert_ne!(a, b);
    for code in [0u32, 1, 255, 4095, 65535] {
        let c = pua_sentinel(code);
        assert!(('\u{e000}'..='\u{f8ff}').contains(&c), "{c:?} outside the PUA");
    }
}

#[test]
fn confidence_reflects_what_actually_resolved() {
    assert_eq!(confidence(0, 0, 0), TextConfidence::Nothing);
    assert_eq!(confidence(10, 0, 0), TextConfidence::Nothing);
    assert_eq!(confidence(10, 10, 10), TextConfidence::Exact);
    assert_eq!(confidence(10, 10, 4), TextConfidence::Partial, "inferred is not exact");
    assert_eq!(confidence(10, 7, 7), TextConfidence::Partial);
}

#[test]
fn strategies_are_ordered_by_trustworthiness() {
    assert!(Strategy::ToUnicode.is_authoritative());
    assert!(Strategy::Differences.is_authoritative());
    assert!(!Strategy::GlyphNameHeuristic.is_authoritative());
    assert!(!Strategy::Failed.is_authoritative());
}

#[test]
fn a_letter_and_a_number_name_an_ascii_character() {
    assert_eq!(lookup("X65").as_deref(), Some("A"));
    assert_eq!(lookup("a100").as_deref(), Some("d"));
    assert_eq!(lookup("X127").as_deref(), Some("\u{7F}"));
    assert_eq!(lookup("X65.alt").as_deref(), Some("A"));
    assert_eq!(lookup("X65_X66").as_deref(), Some("AB"));
    assert_eq!(lookup("X128"), None, "past ASCII");
    assert_eq!(lookup("X6"), None);
    assert_eq!(lookup("X0065"), None);
    assert_eq!(lookup("u65"), None, "too short for a code point");
    assert_eq!(lookup("g65"), None, "a glyph index");
    assert_eq!(lookup("665"), None, "no letter");
}

#[test]
fn suffixes_and_ligatures_go_with_every_convention() {
    assert_eq!(lookup("uni0041_uni0042.sc").as_deref(), Some("AB"));
    assert_eq!(lookup("f_i.sc"), lookup("f_i"));
    assert_eq!(lookup("f_i.sc").as_deref(), Some("fi"));
    assert_eq!(lookup("A.one_two").as_deref(), Some("A"));
    assert_eq!(lookup("nothingatall.one_two"), None);
    assert_eq!(lookup("f_g34"), None, "all or nothing");
    assert_eq!(lookup(""), None);
}

#[test]
fn a_character_has_the_first_name_that_spells_it() {
    let list = glyph_list();
    for c in ['A', ' ', '\u{2206}', '\u{C9}', '\u{FB01}'] {
        let first = list.iter().find(|(_, t)| *t == c.to_string()).map(|(n, _)| n.clone());
        assert!(first.is_some());
        assert_eq!(name_of(c), first);
        assert_eq!(name_of(c).and_then(|n| exact(&n)), Some(c.to_string()));
    }
    assert_eq!(name_of('\u{C9}').as_deref(), Some("Eacute"));
    assert_eq!(name_of('\u{E123}'), None);
}

#[test]
fn the_names_of_the_list_hold_letters_and_digits() {
    for (name, text) in glyph_list() {
        assert!(!name.is_empty() && name.bytes().all(|b| b.is_ascii_alphanumeric()), "{name}");
        assert!(!is_opaque(&name), "{name}");
        assert_eq!(exact(&name), Some(text));
    }
    assert_eq!(exact(""), None);
    assert_eq!(exact("A.alt"), None);
}

#[test]
fn halfwidth_katakana_are_written_without_spaces() {
    assert_eq!(of('\u{FF66}'), Script::CjkIdeographic);
    assert_eq!(of('\u{FF71}'), Script::CjkIdeographic);
    assert_eq!(of('\u{FF9F}'), Script::CjkIdeographic);
    assert_ne!(of('\u{FFA0}'), Script::CjkIdeographic);
}
