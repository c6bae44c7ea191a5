//! Requests, answers and handles, as a binding uses them.

use rasura_layout::annots::{Annotation, Kind};
use rasura_layout::answers::{
    alignment, annotations, bytes, confidence, created, document_info, fields, fonts, metadata,
    obj_id, outcome, page, permissions, rect, redaction_report, requested_mode, save_mode, saved, session_state, strings,
    weaknesses, BlockInfo, CreateReport, Disagreement, DocumentInfo, Field, FieldKind, FontInfo,
    ImageInfo, Metadata, MetadataFields, Outcome, PageInfo, ParagraphInfo, RedactionReport,
    SaveMode, Saved, SessionInfo, TableInfo, Trace, Weakness,
};
use rasura_layout::convert::{
    breaking, code_of, err, fidelity_floor, from_error, opt_rgb, overflow, points,
    to_new_annotation, to_obj_id, to_policy, to_rect, Breaking, Failure, Fidelity, Overflow,
    Permissions, Strength,
};
use rasura_layout::geometry::Rect;
use rasura_layout::objects::ObjId;
use rasura_layout::paragraphs::Alignment;
use rasura_layout::scalar::{Fixed, Scalar};
use rasura_layout::session::{
    check_entropy, image_id, is_threaded, missing, paragraph_id, recovery, session_options, Parked,
    Recovery, Registry, SessionOptions,
};
use rasura_layout::tags::TaggedStatus;
use rasura_layout::unicode::TextConfidence;
use rasura_layout::values::{get, obj, record, set_bool, set_num, set_str, Record, Value};

type V = Value<Fixed>;

fn num(n: i64) -> Fixed {
    Fixed::ratio(n, 1)
}

fn text(s: &str) -> V {
    Value::Text(s.to_string())
}

fn numbers(list: &[i64]) -> V {
    Value::List(list.iter().map(|n| Value::Number(num(*n))).collect())
}

fn bag(entries: Vec<(&str, V)>) -> V {
    Value::Record(Record {
        entries: entries.into_iter().map(|(k, v)| (k.to_string(), v)).collect(),
    })
}

/// A value written out, so that two can be compared.
fn shown(v: &V) -> String {
    match v {
        Value::Undefined => "undefined".to_string(),
        Value::Null => "null".to_string(),
        Value::Bool(b) => b.to_string(),
        Value::Number(n) => {
            assert_eq!(n.raw % 0x10000, 0, "a whole number");
            (n.raw / 0x10000).to_string()
        }
        Value::Text(t) => format!("{t:?}"),
        Value::List(l) => format!("[{}]", l.iter().map(shown).collect::<Vec<_>>().join(", ")),
        Value::Bytes(b) => format!("{b:?}"),
        Value::Record(r) => format!(
            "{{{}}}",
            r.entries
                .iter()
                .map(|(k, v)| format!("{k}: {}", shown(v)))
                .collect::<Vec<_>>()
                .join(", ")
        ),
    }
}

fn internal(f: &Failure) -> &str {
    assert_eq!(code_of(f), "internal");
    assert!(f.detail.is_none());
    &f.message
}

fn a_box() -> Rect<Fixed> {
    Rect { x0: num(1), y0: num(2), x1: num(3), y1: num(4) }
}

// --- plain values -------------------------------------------------------------

#[test]
fn a_property_reads_back_and_leaves_the_others() {
    let mut r: Record<Fixed> = obj();
    set_str(&mut r, "a", "first");
    set_num(&mut r, "b", num(2));
    set_bool(&mut r, "a", true);
    rasura_layout::values::set(&mut r, "c", Value::Null);
    let v = record(r);
    assert_eq!(shown(&v), "{a: true, b: 2, c: null}");
    assert!(matches!(get(&v, "b"), Some(Value::Number(n)) if *n == num(2)));
    assert!(get(&v, "d").is_none());
    assert!(get(&text("a"), "a").is_none(), "a text has no properties");
}

// --- failures -----------------------------------------------------------------

#[test]
fn a_failure_keeps_its_code_and_its_detail() {
    let f = err("malformed", "not a file");
    assert_eq!((f.code.as_str(), f.message.as_str()), ("malformed", "not a file"));
    assert_eq!(f.detail, None);
    let f = from_error("malformed", "not a file", "byte 7");
    assert_eq!(f.detail.as_deref(), Some("byte 7"));
    assert_eq!(from_error("malformed", "not a file", "").detail, None, "an empty detail is none");
}

// --- requests -----------------------------------------------------------------

#[test]
fn a_colour_is_a_list_of_three_components() {
    let half = Fixed::ratio(1, 2);
    let source = bag(vec![
        ("ok", Value::List(vec![Value::Number(half), Value::Number(num(7)), text("x")])),
        ("low", numbers(&[-3, 0, 1])),
        ("short", numbers(&[1, 0])),
        ("word", text("red")),
        ("none", Value::Null),
    ]);
    assert_eq!(opt_rgb(&source, "ok").unwrap(), Some((half, num(1), num(0))), "held within 0..1");
    assert_eq!(opt_rgb(&source, "low").unwrap(), Some((num(0), num(0), num(1))));
    assert_eq!(opt_rgb(&source, "none").unwrap(), None);
    assert_eq!(opt_rgb(&source, "absent").unwrap(), None);
    let f = opt_rgb(&source, "short").unwrap_err();
    assert_eq!(internal(&f), "short must have three components");
    let f = opt_rgb(&source, "word").unwrap_err();
    assert_eq!(internal(&f), "word must be [r, g, b]");
}

#[test]
fn points_come_in_pairs() {
    let source = bag(vec![("p", numbers(&[1, 2, 3, 4, 5])), ("q", text("no"))]);
    assert_eq!(points(&source, "p"), vec![(num(1), num(2)), (num(3), num(4))]);
    assert!(points(&source, "q").is_empty());
    assert!(points(&source, "absent").is_empty());
    let odd = bag(vec![("p", Value::List(vec![text("x"), Value::Number(num(9))]))]);
    assert_eq!(points(&odd, "p"), vec![(num(0), num(9))], "what is no number is nought");
}

#[test]
fn a_box_is_owed_and_reads_back() {
    assert_eq!(to_rect(&rect(&a_box())).unwrap(), a_box());
    let partial = bag(vec![("x1", Value::Number(num(5)))]);
    assert_eq!(
        to_rect(&partial).unwrap(),
        Rect { x0: num(0), y0: num(0), x1: num(5), y1: num(0) }
    );
    for missing in [Value::Undefined, Value::Null] {
        let f = to_rect::<Fixed>(&missing).unwrap_err();
        assert_eq!(internal(&f), "a rect is required: { x0, y0, x1, y1 }");
    }
}

#[test]
fn an_annotation_is_read_with_its_defaults() {
    let a = to_new_annotation(&bag(vec![("kind", text("Square")), ("rect", rect(&a_box()))]))
        .unwrap();
    assert_eq!((a.kind, a.rect), (Kind::Square, a_box()));
    assert_eq!((a.colour, a.interior, a.border_width), (None, None, None));
    assert_eq!(a.contents, None);
    assert!(a.points.is_empty());

    let a = to_new_annotation(&bag(vec![
        ("kind", text("Ink")),
        ("rect", rect(&a_box())),
        ("color", numbers(&[0, 1, 0])),
        ("interior", numbers(&[1, 1, 1])),
        ("borderWidth", Value::Number(num(2))),
        ("contents", text("look")),
        ("points", numbers(&[1, 2])),
    ]))
    .unwrap();
    assert_eq!(a.colour, Some((num(0), num(1), num(0))));
    assert_eq!(a.interior, Some((num(1), num(1), num(1))));
    assert_eq!(a.border_width, Some(num(2)));
    assert_eq!(a.contents.as_deref(), Some("look"));
    assert_eq!(a.points, vec![(num(1), num(2))]);
}

#[test]
fn the_first_spelling_of_the_colour_wins() {
    let a = to_new_annotation(&bag(vec![
        ("kind", text("Line")),
        ("rect", rect(&a_box())),
        ("colour", numbers(&[1, 0, 0])),
        ("color", numbers(&[0, 1, 0])),
    ]))
    .unwrap();
    assert_eq!(a.colour, Some((num(1), num(0), num(0))));
    let f = to_new_annotation(&bag(vec![
        ("kind", text("Line")),
        ("rect", rect(&a_box())),
        ("colour", numbers(&[1, 0, 0])),
        ("color", text("green")),
    ]))
    .unwrap_err();
    assert_eq!(internal(&f), "color must be [r, g, b]", "and the other has to be well formed");
}

#[test]
fn an_annotation_that_cannot_be_read_is_refused() {
    let f = to_new_annotation(&bag(vec![("rect", rect(&a_box()))])).unwrap_err();
    assert_eq!(internal(&f), "an annotation needs a kind");
    let f = to_new_annotation(&bag(vec![("kind", text("Bl\"ob")), ("rect", rect(&a_box()))]))
        .unwrap_err();
    assert_eq!(internal(&f), "unknown annotation kind \"Bl\\\"ob\"");
    let f = to_new_annotation(&bag(vec![("kind", text("Line"))])).unwrap_err();
    assert_eq!(internal(&f), "a rect is required: { x0, y0, x1, y1 }");
}

const ALL: Permissions = Permissions {
    print: true,
    modify: true,
    copy: true,
    annotate: true,
    fill_forms: true,
    extract_for_accessibility: true,
    assemble: true,
    print_high_quality: true,
};

#[test]
fn permissions_are_granted_unless_denied() {
    let p = to_policy(&bag(vec![])).unwrap();
    assert_eq!(p.permissions, ALL);
    assert_eq!(p.strength, Strength::Aes256);
    assert!(p.encrypt_metadata);
    assert_eq!((p.user_password.as_str(), p.owner_password.as_str()), ("", ""));

    let p = to_policy(&bag(vec![
        ("strength", text("aes-128")),
        ("userPassword", text("u")),
        ("ownerPassword", text("o")),
        ("encryptMetadata", Value::Bool(false)),
        ("permissions", bag(vec![("copy", Value::Bool(false)), ("modify", text("no"))])),
    ]))
    .unwrap();
    assert_eq!(p.permissions, Permissions { copy: false, ..ALL });
    assert_eq!(p.strength, Strength::Aes128);
    assert!(!p.encrypt_metadata);
    assert_eq!((p.user_password.as_str(), p.owner_password.as_str()), ("u", "o"));
}

#[test]
fn an_unknown_strength_is_refused() {
    let f = to_policy(&bag(vec![("strength", text("rot-13"))])).unwrap_err();
    assert_eq!(internal(&f), "unknown strength \"rot-13\"; expected aes-256 or aes-128");
    assert!(to_policy(&bag(vec![("strength", text("aes-256"))])).is_ok());
}

#[test]
fn permissions_read_back() {
    let p = Permissions { print: false, assemble: false, ..ALL };
    let policy = to_policy(&bag(vec![("permissions", permissions(&p))])).unwrap();
    assert_eq!(policy.permissions, p);
}

#[test]
fn an_id_needs_both_of_its_numbers_and_reads_back() {
    let id = ObjId { number: 12, generation: 3 };
    assert_eq!(to_obj_id(&obj_id::<Fixed>(id)).unwrap(), id);
    for bad in [
        bag(vec![("number", Value::Number(num(12)))]),
        bag(vec![("generation", Value::Number(num(3)))]),
        Value::Null,
    ] {
        let f = to_obj_id(&bad).unwrap_err();
        assert_eq!(internal(&f), "an annotation id needs { number, generation }");
    }
    let held = to_obj_id(&bag(vec![
        ("number", Value::Number(num(-4))),
        ("generation", Value::Number(num(70000))),
    ]))
    .unwrap();
    assert_eq!(held, ObjId { number: 0, generation: 65535 });
}

#[test]
fn the_words_of_a_session_are_read() {
    assert_eq!(breaking(None).unwrap(), Breaking::Greedy);
    assert_eq!(breaking(Some("greedy")).unwrap(), Breaking::Greedy);
    assert_eq!(breaking(Some("knuth-plass")).unwrap(), Breaking::KnuthPlass);
    assert_eq!(overflow(None).unwrap(), Overflow::Refuse);
    assert_eq!(overflow(Some("refuse")).unwrap(), Overflow::Refuse);
    assert_eq!(overflow(Some("allow")).unwrap(), Overflow::Allow);
    assert_eq!(overflow(Some("grow")).unwrap(), Overflow::Grow);
    assert_eq!(overflow(Some("shrink")).unwrap(), Overflow::Shrink);
    assert_eq!(fidelity_floor(None).unwrap(), Fidelity::Overlaid);
    assert_eq!(fidelity_floor(Some("exact")).unwrap(), Fidelity::Exact);
    assert_eq!(fidelity_floor(Some("reembedded")).unwrap(), Fidelity::Reembedded);
    assert_eq!(fidelity_floor(Some("substituted")).unwrap(), Fidelity::Substituted);
    assert_eq!(fidelity_floor(Some("overlaid")).unwrap(), Fidelity::Overlaid);
}

#[test]
fn a_misspelt_word_is_an_error_and_not_a_default() {
    let f = fidelity_floor(Some("exect")).unwrap_err();
    assert_eq!(
        internal(&f),
        "unknown fidelity \"exect\"; expected exact, reembedded, substituted or overlaid"
    );
    let f = breaking(Some("a\nb")).unwrap_err();
    assert_eq!(internal(&f), "unknown lineBreaking \"a\\nb\"; expected greedy or knuth-plass");
    let f = overflow(Some("")).unwrap_err();
    assert_eq!(internal(&f), "unknown overflow \"\"; expected refuse, allow, grow or shrink");
}

// --- answers ------------------------------------------------------------------

#[test]
fn a_page_is_one_object() {
    let p = PageInfo {
        index: 4,
        media_box: a_box(),
        rotate: 90,
        scanned: false,
        paragraphs: vec![
            ParagraphInfo {
                text: "Hi".to_string(),
                confidence: TextConfidence::Nothing,
                bounds: a_box(),
                alignment: Alignment::Centre,
                leading: num(12),
                line_count: 2,
            },
            ParagraphInfo {
                text: "Ho".to_string(),
                confidence: TextConfidence::Partial,
                bounds: a_box(),
                alignment: Alignment::Unknown,
                leading: num(0),
                line_count: 1,
            },
        ],
        blocks: vec![BlockInfo { kind: "table".to_string(), bounds: a_box() }],
        images: vec![
            ImageInfo { bounds: a_box(), pixels: Some((20, 10)), editable: true },
            ImageInfo { bounds: a_box(), pixels: None, editable: false },
        ],
        tables: vec![TableInfo { bounds: a_box(), rows: 3, columns: 5 }],
    };
    let b = "{x0: 1, y0: 2, x1: 3, y1: 4}";
    assert_eq!(
        shown(&page(&p)),
        format!(
            "{{index: 4, mediaBox: {b}, rotate: 90, scanned: false, paragraphs: [\
             {{id: 0, text: \"Hi\", textConfidence: \"none\", box: {b}, alignment: \"centre\", \
             leading: 12, lineCount: 2}}, \
             {{id: 1, text: \"Ho\", textConfidence: \"partial\", box: {b}, \
             alignment: \"unknown\", leading: 0, lineCount: 1}}], \
             blocks: [{{kind: \"table\", box: {b}}}], images: [\
             {{id: 0, box: {b}, pixels: {{width: 20, height: 10}}, editable: true}}, \
             {{id: 1, box: {b}, pixels: null, editable: false}}], \
             tables: [{{id: 0, box: {b}, rows: 3, columns: 5}}]}}"
        )
    );
}

#[test]
fn the_words_of_an_answer() {
    assert_eq!(confidence(TextConfidence::Exact), "exact");
    assert_eq!(confidence(TextConfidence::Partial), "partial");
    assert_eq!(confidence(TextConfidence::Nothing), "none");
    assert_eq!(alignment(Alignment::Left), "left");
    assert_eq!(alignment(Alignment::Right), "right");
    assert_eq!(alignment(Alignment::Centre), "centre");
    assert_eq!(alignment(Alignment::Justified), "justified");
    assert_eq!(alignment(Alignment::Unknown), "unknown");
    assert_eq!(save_mode(SaveMode::Incremental), "incremental");
    assert_eq!(save_mode(SaveMode::FullRewrite), "full-rewrite");
    assert_eq!(requested_mode(Some(true)), Some(SaveMode::FullRewrite));
    assert_eq!(requested_mode(Some(false)), Some(SaveMode::Incremental));
    assert_eq!(requested_mode(None), None);
}

#[test]
fn fonts_and_metadata_are_objects() {
    let f = FontInfo {
        name: "ABC+X".to_string(),
        family: "X".to_string(),
        embedded: true,
        subset: true,
        coverage: "partial".to_string(),
        writable: 17,
        needs_supplying: false,
    };
    assert_eq!(
        shown(&fonts(&vec![f])),
        "[{pdfFont: \"ABC+X\", family: \"X\", embedded: true, subset: true, \
         coverage: \"partial\", writableLatin: 17, needsSupplying: false}]"
    );
    let side = |title: Option<&str>| MetadataFields {
        title: title.map(|t| t.to_string()),
        author: None,
        subject: None,
        creator: None,
        producer: Some("p".to_string()),
    };
    let m = Metadata {
        info: side(Some("A")),
        xmp: side(None),
        has_xmp: true,
        disagreements: vec![Disagreement {
            field: "title".to_string(),
            info: "A".to_string(),
            xmp: "B".to_string(),
        }],
    };
    assert_eq!(
        shown(&metadata(&m)),
        "{info: {title: \"A\", author: null, subject: null, creator: null, producer: \"p\"}, \
         xmp: {title: null, author: null, subject: null, creator: null, producer: \"p\"}, \
         hasXmp: true, disagreements: [{field: \"title\", info: \"A\", xmp: \"B\"}]}"
    );
}

#[test]
fn an_edit_reports_what_it_did() {
    let o = Outcome {
        fidelity: "exact".to_string(),
        missing_glyphs: vec!["\u{e9}".to_string()],
        reflowed_lines: Some(3),
        warnings: vec![],
    };
    assert_eq!(
        shown(&outcome(&o)),
        "{fidelity: \"exact\", missingGlyphs: [\"\u{e9}\"], reflowedLines: 3, warnings: []}"
    );
    let o = Outcome { reflowed_lines: None, missing_glyphs: vec![], ..o };
    assert_eq!(
        shown(&outcome(&o)),
        "{fidelity: \"exact\", missingGlyphs: [], reflowedLines: null, warnings: []}"
    );
}

#[test]
fn annotations_and_fields_carry_their_ids() {
    let a = Annotation {
        id: ObjId { number: 9, generation: 0 },
        kind: Some(Kind::Highlight),
        rect: None,
        contents: Some("c".to_string()),
        has_appearance: true,
        value: None,
        field_name: None,
        hidden: false,
    };
    assert_eq!(
        shown(&annotations(&vec![a])),
        "[{id: {number: 9, generation: 0}, kind: \"Highlight\", rect: null, contents: \"c\", \
         hasAppearance: true}]"
    );
    let f = |kind: FieldKind, value: Option<&str>| Field {
        id: ObjId { number: 1, generation: 2 },
        name: "a.b".to_string(),
        kind,
        value: value.map(|v| v.to_string()),
        widgets: 1,
    };
    let list = vec![
        f(FieldKind::Button, None),
        f(FieldKind::Text, Some("v")),
        f(FieldKind::Choice, None),
        f(FieldKind::Signature, None),
        f(FieldKind::Unknown, None),
    ];
    let one = |kind: &str, value: &str| {
        format!(
            "{{id: {{number: 1, generation: 2}}, name: \"a.b\", kind: \"{kind}\", \
             value: {value}, widgets: 1}}"
        )
    };
    assert_eq!(
        shown(&fields(&list)),
        format!(
            "[{}, {}, {}, {}, {}]",
            one("button", "null"),
            one("text", "\"v\""),
            one("choice", "null"),
            one("signature", "null"),
            one("unknown", "null")
        )
    );
}

#[test]
fn a_clean_redaction_says_what_was_not_checked() {
    let report = |traces: Vec<Trace>| RedactionReport {
        traces,
        objects_checked: 8,
        streams_checked: 2,
        not_checked: vec!["image data".to_string()],
    };
    assert_eq!(
        shown(&redaction_report(&report(vec![]))),
        "{clean: true, traces: [], objectsChecked: 8, streamsChecked: 2, \
         notChecked: [\"image data\"]}"
    );
    let found =
        Trace { string: "secret".to_string(), where_found: "object 4".to_string() };
    assert_eq!(
        shown(&redaction_report(&report(vec![found]))),
        "{clean: false, traces: [{string: \"secret\", whereFound: \"object 4\"}], \
         objectsChecked: 8, streamsChecked: 2, notChecked: [\"image data\"]}"
    );
}

#[test]
fn the_other_answers() {
    assert_eq!(
        shown(&weaknesses(&vec![
            Weakness::LegacyKeyDerivation,
            Weakness::EmptyUserPassword,
            Weakness::OwnerPasswordEqualsUser,
        ])),
        "[\"legacy-key-derivation\", \"empty-user-password\", \"owner-password-equals-user\"]"
    );
    assert_eq!(shown(&strings(&vec!["a".to_string(), "b".to_string()])), "[\"a\", \"b\"]");
    assert_eq!(shown(&bytes(&vec![1, 2, 255])), "[1, 2, 255]");
    assert_eq!(
        shown(&saved(&Saved {
            bytes: vec![37],
            mode: SaveMode::Incremental,
            bytes_appended: 1,
            warnings: vec!["w".to_string()],
        })),
        "{bytes: [37], mode: \"incremental\", bytesAppended: 1, warnings: [\"w\"]}"
    );
    assert_eq!(
        shown(&session_state(&SessionInfo { staged: 2, undone: 0, closed: false })),
        "{staged: 2, undone: 0, canUndo: true, canRedo: false, closed: false}"
    );
    assert_eq!(
        shown(&session_state(&SessionInfo { staged: 0, undone: 1, closed: true })),
        "{staged: 0, undone: 1, canUndo: false, canRedo: true, closed: true}"
    );
    assert_eq!(
        shown(&created(&CreateReport {
            handle: 1,
            pages: 2,
            lines: 30,
            approximated: 0,
            base_font: "B".to_string(),
            composite: true,
            stem_v_estimated: false,
            missing: vec!['x', '\u{4e00}'],
        })),
        "{handle: 1, pages: 2, lines: 30, approximated: 0, baseFont: \"B\", composite: true, \
         stemVEstimated: false, missing: \"x\u{4e00}\"}"
    );
    assert_eq!(
        shown(&document_info(&DocumentInfo {
            page_count: 3,
            kind: "k".to_string(),
            tagged_status: TaggedStatus::Degraded,
            has_xfa: false,
            encrypted: true,
            revision_count: 1,
            memory_usage: 1000,
            permissions: Permissions { copy: false, ..ALL },
            leniencies: vec![],
        })),
        "{pageCount: 3, documentKind: \"k\", taggedStatus: \"tagged-degraded\", hasXfa: false, \
         encrypted: true, revisionCount: 1, memoryUsage: 1000, permissions: {print: true, \
         modify: true, copy: false, annotate: true, fillForms: true, \
         extractForAccessibility: true, assemble: true, printHighQuality: true}, leniencies: []}"
    );
}

// --- handles ------------------------------------------------------------------

#[test]
fn a_handle_is_invalidated_by_closing_and_never_reused() {
    let mut open: Registry<&str, Vec<&str>> = Registry::new();
    let first = open.insert("one");
    assert!(open.close_document(first));
    assert!(!open.close_document(first), "closing twice is visible and harmless");

    let second = open.insert("two");
    assert_ne!(first, second);
    assert!(open.document(first).is_err(), "the closed handle stays dead");
    assert_eq!(open.document(second).unwrap(), &"two");
    assert!(open.has_room());
    assert!(open.close_document(second));
}

#[test]
fn a_stale_handle_is_a_coded_error_not_a_panic() {
    let mut open: Registry<&str, Vec<&str>> = Registry::new();
    let f = open.document(9999).expect_err("no such document");
    assert_eq!(code_of(&f), "stale-session");
    assert_eq!(f.message, "document 9999 is closed or was never opened");
    assert_eq!(missing(7).message, "document 7 is closed or was never opened");
    assert!(open.session(9999).is_err());
    let f = open.update(9999, |d| (d, Ok(()))).unwrap_err();
    assert_eq!(code_of(&f), "stale-session");
    let f = open
        .with_session(9999, |d, s| (d, parked(s.unwrap_or_default()), Ok(())))
        .unwrap_err();
    assert_eq!(code_of(&f), "stale-session");
    let f = open
        .configure_session(9999, Some("exect"), None, None, |s, _| s.expect("a session"))
        .unwrap_err();
    assert_eq!(code_of(&f), "stale-session", "the handle comes before the words");
}

fn parked(state: Vec<&str>) -> Parked<Vec<&str>> {
    Parked { state, closed: false }
}

#[test]
fn a_failed_operation_does_not_throw_away_the_ones_before_it() {
    let mut open: Registry<&str, Vec<&str>> = Registry::new();
    let h = open.insert("doc");
    assert!(open.session(h).unwrap().is_none());
    for step in ["a", "b"] {
        open.with_session(h, |d, s| {
            let mut log = s.unwrap_or_default();
            log.push(step);
            (d, parked(log), Ok(()))
        })
        .unwrap();
    }
    let f = open
        .with_session::<(), _>(h, |d, s| {
            (d, parked(s.unwrap_or_default()), Err(err("malformed", "no")))
        })
        .unwrap_err();
    assert_eq!(code_of(&f), "malformed");
    assert_eq!(open.session(h).unwrap().expect("a session").state, vec!["a", "b"]);
}

#[test]
fn a_session_that_is_over_is_refused() {
    let mut open: Registry<&str, Vec<&str>> = Registry::new();
    let h = open.insert("doc");
    open.with_session(h, |d, _| (d, Parked { state: vec!["done"], closed: true }, Ok(())))
        .unwrap();
    let f = open
        .with_session(h, |d, s| (d, parked(s.unwrap_or_default()), Ok(())))
        .unwrap_err();
    assert_eq!(code_of(&f), "stale-session");
    assert_eq!(f.message, "this edit session has been committed or rolled back");
    let left = open.session(h).unwrap().expect("still parked");
    assert_eq!((left.state.clone(), left.closed), (vec!["done"], true));
}

#[test]
fn a_document_is_updated_in_its_own_slot() {
    let mut open: Registry<String, Vec<&str>> = Registry::new();
    let a = open.insert("a".to_string());
    let b = open.insert("b".to_string());
    open.with_session(a, |d, _| (d, parked(vec!["s"]), Ok(()))).unwrap();
    let n = open.update(a, |d| (format!("{d}!"), Ok(5))).unwrap();
    assert_eq!(n, 5);
    assert_eq!(open.document(a).unwrap(), "a!");
    assert_eq!(open.document(b).unwrap(), "b", "the other is untouched");
    assert!(open.session(a).unwrap().is_some(), "and so is the session");
}

#[test]
fn a_session_is_configured_or_left_alone() {
    let mut open: Registry<&str, Vec<&str>> = Registry::new();
    let h = open.insert("doc");
    open.with_session(h, |d, _| (d, parked(vec!["a"]), Ok(()))).unwrap();
    open.configure_session(h, Some("exact"), None, Some("grow"), |s, o| {
        assert_eq!(
            o,
            SessionOptions {
                require: Fidelity::Exact,
                breaking: Breaking::Greedy,
                overflow: Overflow::Grow,
            }
        );
        let mut log = s.expect("a session").state;
        log.push("set");
        parked(log)
    })
    .unwrap();
    assert_eq!(open.session(h).unwrap().expect("a session").state, vec!["a", "set"]);
    let f = open
        .configure_session(h, Some("exect"), None, None, |s, _| s.expect("a session"))
        .unwrap_err();
    assert_eq!(code_of(&f), "internal");
    assert_eq!(
        open.session(h).unwrap().expect("a session").state,
        vec!["a", "set"],
        "what was staged is still staged"
    );
    let f = session_options(None, Some("x"), Some("y")).unwrap_err();
    assert!(f.message.starts_with("unknown lineBreaking"), "the first that is not known");
}

#[test]
fn an_index_out_of_range_is_refused() {
    let ids = vec![10u32, 11];
    assert_eq!(paragraph_id(&ids, 1).unwrap(), 11);
    let f = paragraph_id(&ids, 2).unwrap_err();
    assert_eq!((code_of(&f), f.message.as_str()), ("malformed", "no such paragraph on this page"));
    assert_eq!(image_id(&ids, 0).unwrap(), 10);
    let f = image_id(&ids, 7).unwrap_err();
    assert_eq!((code_of(&f), f.message.as_str()), ("malformed", "no such image on this page"));
}

#[test]
fn the_small_requests() {
    assert_eq!(recovery(Some("never")), Recovery::Never);
    assert_eq!(recovery(Some("always")), Recovery::Auto);
    assert_eq!(recovery(None), Recovery::Auto);
    assert!(check_entropy(&[7; 32]).is_ok());
    let f = check_entropy(&[7; 31]).unwrap_err();
    assert_eq!(internal(&f), "entropy must be exactly 32 bytes");
    assert!(!is_threaded());
}
