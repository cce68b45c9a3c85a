use autodetect_pdf_fields::detection::confidence_boost::{boost_targets, FieldVerdict};
use autodetect_pdf_fields::detection::orchestrator::{
    annotate_field, assemble_preceding_text, extract_heuristic_label, select_pages, NodePlacement,
};
use autodetect_pdf_fields::detection::type_classifier::{
    classify_field_type, Pattern, DATE_PATTERN, NUMBER_PATTERN, SIGNATURE_PATTERN,
};
use autodetect_pdf_fields::output::FieldType;

#[test]
fn from_class_id_maps_model_classes() {
    assert_eq!(FieldType::from_class_id(0), FieldType::Text);
    assert_eq!(FieldType::from_class_id(1), FieldType::Checkbox);
    assert_eq!(FieldType::from_class_id(2), FieldType::Text);
    assert_eq!(FieldType::from_class_id(-1), FieldType::Text);
}

#[test]
fn field_type_names_are_lowercase() {
    assert_eq!(FieldType::Text.name(), "text");
    assert_eq!(FieldType::Checkbox.name(), "checkbox");
    assert_eq!(FieldType::Date.name(), "date");
    assert_eq!(FieldType::Signature.name(), "signature");
    assert_eq!(FieldType::Number.name(), "number");
}

#[test]
fn classify_date_cues() {
    assert_eq!(classify_field_type("Date:", FieldType::Text), FieldType::Date);
    assert_eq!(classify_field_type("Datum ___", FieldType::Text), FieldType::Date);
    assert_eq!(classify_field_type("Signed  at -", FieldType::Text), FieldType::Date);
    assert_eq!(classify_field_type("DATE", FieldType::Text), FieldType::Date);
}

#[test]
fn classify_signature_cues() {
    assert_eq!(classify_field_type("Signature:", FieldType::Text), FieldType::Signature);
    assert_eq!(classify_field_type("Sign here", FieldType::Text), FieldType::Signature);
    assert_eq!(classify_field_type("Unterschrift:", FieldType::Text), FieldType::Signature);
    assert_eq!(classify_field_type("Signez ici", FieldType::Text), FieldType::Signature);
}

#[test]
fn classify_number_cues() {
    assert_eq!(classify_field_type("Price:", FieldType::Text), FieldType::Number);
    assert_eq!(classify_field_type("Total $", FieldType::Text), FieldType::Number);
    assert_eq!(classify_field_type("Betrag in \u{20ac}", FieldType::Text), FieldType::Number);
    assert_eq!(classify_field_type("Quantit\u{e9}:", FieldType::Text), FieldType::Number);
    assert_eq!(classify_field_type("St\u{fc}ckzahl", FieldType::Text), FieldType::Number);
    assert_eq!(classify_field_type("Gesamtbetrag:", FieldType::Text), FieldType::Number);
}

#[test]
fn classify_plain_text_stays_text() {
    assert_eq!(classify_field_type("Name:", FieldType::Text), FieldType::Text);
    assert_eq!(classify_field_type("", FieldType::Text), FieldType::Text);
    // The cue must end the preceding text.
    assert_eq!(classify_field_type("Date of birth", FieldType::Text), FieldType::Text);
}

#[test]
fn classify_date_before_signature() {
    // "Signature date" ends with a date cue: dates are tried first.
    assert_eq!(classify_field_type("Signature date:", FieldType::Text), FieldType::Date);
}

#[test]
fn classify_leaves_other_types() {
    assert_eq!(classify_field_type("Date:", FieldType::Checkbox), FieldType::Checkbox);
    assert_eq!(classify_field_type("Price:", FieldType::Signature), FieldType::Signature);
}

#[test]
fn patterns_compile_and_match() {
    let date = Pattern::compile(DATE_PATTERN).expect("date pattern");
    assert!(date.is_match("Date:"));
    assert!(!date.is_match("Name:"));
    assert!(Pattern::compile(SIGNATURE_PATTERN).is_some());
    assert!(Pattern::compile(NUMBER_PATTERN).is_some());
    assert!(Pattern::compile("(unclosed").is_none());
}

#[test]
fn heuristic_label_trims_cues() {
    assert_eq!(extract_heuristic_label("Full Name:___ "), Some("Full Name".to_string()));
    assert_eq!(extract_heuristic_label("  City -"), Some("City".to_string()));
}

#[test]
fn heuristic_label_takes_last_phrase() {
    assert_eq!(
        extract_heuristic_label("Applicant details\nDate of Birth:"),
        Some("Date of Birth".to_string())
    );
    assert_eq!(extract_heuristic_label("Left\tRight:"), Some("Right".to_string()));
}

#[test]
fn heuristic_label_too_short() {
    assert_eq!(extract_heuristic_label(""), None);
    assert_eq!(extract_heuristic_label("A:"), None);
    assert_eq!(extract_heuristic_label("___"), None);
    // The last phrase is a single letter.
    assert_eq!(extract_heuristic_label("Long line\nX"), None);
}

#[test]
fn heuristic_label_counts_bytes() {
    // One non-ASCII letter takes two bytes: long enough.
    assert_eq!(extract_heuristic_label("\u{e9}:"), Some("\u{e9}".to_string()));
}

#[test]
fn select_pages_cases() {
    assert_eq!(select_pages(None, 3), vec![0, 1, 2]);
    assert_eq!(select_pages(None, 0), Vec::<usize>::new());
    assert_eq!(select_pages(Some(1), 3), vec![1]);
    assert_eq!(select_pages(Some(3), 3), Vec::<usize>::new());
}

#[test]
fn annotate_with_classification() {
    let (t, name) = annotate_field(FieldType::Text, "Date:", true);
    assert_eq!(t, FieldType::Date);
    assert_eq!(name, Some("Date".to_string()));
    let (t, name) = annotate_field(FieldType::Checkbox, "Price:", true);
    assert_eq!(t, FieldType::Checkbox);
    assert_eq!(name, Some("Price".to_string()));
}

#[test]
fn annotate_without_classification() {
    let (t, name) = annotate_field(FieldType::Text, "Date:", false);
    assert_eq!(t, FieldType::Text);
    assert_eq!(name, None);
}

#[test]
fn preceding_text_after_last_stop() {
    let contents = vec!['a', 'b', 'c', 'd', 'e'];
    let places = vec![
        NodePlacement::Before,
        NodePlacement::Beyond,
        NodePlacement::Before,
        NodePlacement::Elsewhere,
        NodePlacement::Before,
    ];
    assert_eq!(assemble_preceding_text(&contents, &places), "ce");
}

#[test]
fn preceding_text_without_stop() {
    let contents = vec!['N', 'o', ':'];
    let places = vec![NodePlacement::Before, NodePlacement::Before, NodePlacement::Before];
    assert_eq!(assemble_preceding_text(&contents, &places), "No:");
    let places = vec![NodePlacement::Before, NodePlacement::Before, NodePlacement::Beyond];
    assert_eq!(assemble_preceding_text(&contents, &places), "");
}

#[test]
fn boost_only_confirmed_text_below_threshold() {
    let class_ids = vec![0, 0, 1, 0, 0];
    let below = vec![true, false, true, true, true];
    let verdicts = vec![
        vec![FieldVerdict::Apart, FieldVerdict::Confirms],
        vec![FieldVerdict::Confirms],
        vec![FieldVerdict::Confirms],
        vec![FieldVerdict::Apart, FieldVerdict::Apart],
        vec![],
    ];
    assert_eq!(
        boost_targets(&class_ids, &below, &verdicts),
        vec![true, false, false, false, false]
    );
}

#[test]
fn boost_by_any_confirming_field() {
    // The first structural field lies below the detection; the second
    // confirms it: the detection is boosted.
    let verdicts = vec![vec![FieldVerdict::Apart, FieldVerdict::Confirms]];
    assert_eq!(boost_targets(&vec![0], &vec![true], &verdicts), vec![true]);
}
