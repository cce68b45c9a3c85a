//! Field type classification by the text that precedes a field.
use vstd::prelude::*;
use crate::output::FieldType;
use regex::Error as RegexError;

verus! {

#[verifier::external_type_specification]
#[verifier::external_body]
pub struct ExRegex(regex::Regex);

#[verifier::external_type_specification]
#[verifier::external_body]
pub struct ExRegexError(RegexError);

/// Whether `regex::Regex::new` accepts `pattern`.
pub uninterp spec fn regex_compiles(pattern: Seq<char>) -> bool;

/// Whether the regex that `regex::Regex::new` builds from `pattern` finds a
/// match anywhere in `haystack`.
pub uninterp spec fn regex_is_match(pattern: Seq<char>, haystack: Seq<char>) -> bool;

/// Preceding text that ends in a date cue ("date", "signed at", "datum").
pub const DATE_PATTERN: &'static str = r"(?i)(?:date|signed\s+at|datum)[:_\s-]*$";

/// Preceding text that ends in a signature cue.
pub const SIGNATURE_PATTERN: &'static str =
    r"(?i)(?:signature|sign\s+here|sign|signez\s+ici|signer\s+ici|unterschrift|unterschreiben|unterzeichnen)[:_\s-]*$";

/// Preceding text that ends in a number cue (prices, totals, quantities).
pub const NUMBER_PATTERN: &'static str =
    "(?i)(?:price|\\$|\u{20ac}|total|quantity|prix|quantit\u{e9}|preis|summe|gesamt(?:betrag)?|menge|anzahl|st\u{fc}ckzahl)[:_\\s-]*$";

/// A regular expression compiled from its source with the default options.
pub struct Pattern {
    source: Ghost<Seq<char>>,
    compiled: regex::Regex,
}

impl View for Pattern {
    type V = Seq<char>;

    closed spec fn view(&self) -> Seq<char> {
        self.source@
    }
}

/// `regex::Regex::new`: compiles `pattern` with the default options; it
/// fails exactly when the pattern is not accepted.
#[verifier::external_body]
fn regex_new(pattern: &str) -> (r: Result<regex::Regex, RegexError>)
    ensures
        r is Ok <==> regex_compiles(pattern@),
{
    regex::Regex::new(pattern)
}

/// `regex::Regex::is_match` on the regex that `Pattern::compile` built with
/// `regex::Regex::new` from the pattern's source: whether it matches
/// somewhere in `haystack`.
#[verifier::external_body]
fn regex_is_match_in(p: &Pattern, haystack: &str) -> (b: bool)
    ensures
        b == regex_is_match(p@, haystack@),
{
    p.compiled.is_match(haystack)
}

impl Pattern {
    /// Compiles `source`; `None` when it is not a valid expression.
    pub fn compile(source: &str) -> (p: Option<Pattern>)
        ensures
            p is Some <==> regex_compiles(source@),
            p matches Some(q) ==> q@ == source@,
    {
        match regex_new(source) {
            Ok(compiled) => Some(Pattern { source: Ghost(source@), compiled }),
            Err(_) => None,
        }
    }

    /// Whether the expression matches somewhere in `text`.
    pub fn is_match(&self, text: &str) -> (b: bool)
        ensures
            b == regex_is_match(self@, text@),
    {
        regex_is_match_in(self, text)
    }
}

/// Whether `pattern` compiles and matches somewhere in `text`.
pub open spec fn pattern_matches(pattern: Seq<char>, text: Seq<char>) -> bool {
    regex_compiles(pattern) && regex_is_match(pattern, text)
}

/// The type of a field given the text before it: only text fields are
/// reclassified, as a date, a signature or a number, tried in that order.
pub open spec fn classified_type(text: Seq<char>, current: FieldType) -> FieldType {
    if current != FieldType::Text {
        current
    } else if pattern_matches(DATE_PATTERN@, text) {
        FieldType::Date
    } else if pattern_matches(SIGNATURE_PATTERN@, text) {
        FieldType::Signature
    } else if pattern_matches(NUMBER_PATTERN@, text) {
        FieldType::Number
    } else {
        FieldType::Text
    }
}

/// Whether the pattern compiles and matches `text`.
fn matches_source(source: &str, text: &str) -> (b: bool)
    ensures
        b == pattern_matches(source@, text@),
{
    match Pattern::compile(source) {
        Some(p) => p.is_match(text),
        None => false,
    }
}

/// Classifies a text field by the text that precedes it.
///
/// Only fields of type `Text` change: the preceding text is checked against
/// the date, signature and number patterns, in that order.
pub fn classify_field_type(preceding_text: &str, current_type: FieldType) -> (t: FieldType)
    ensures
        t == classified_type(preceding_text@, current_type),
        current_type != FieldType::Text ==> t == current_type,
{
    proof {
        law_classification(preceding_text@, current_type);
    }
    if current_type != FieldType::Text {
        return current_type;
    }
    if matches_source(DATE_PATTERN, preceding_text) {
        return FieldType::Date;
    }
    if matches_source(SIGNATURE_PATTERN, preceding_text) {
        return FieldType::Signature;
    }
    if matches_source(NUMBER_PATTERN, preceding_text) {
        return FieldType::Number;
    }
    FieldType::Text
}

/// A field that is not a text field keeps its type. A text field becomes a
/// date field when the date pattern matches its preceding text; else a
/// signature field when the signature pattern does; else a number field when
/// the number pattern does; else it stays a text field.
pub proof fn law_classification(text: Seq<char>, current: FieldType)
    ensures
        current != FieldType::Text ==> classified_type(text, current) == current,
        current == FieldType::Text && pattern_matches(DATE_PATTERN@, text) ==> classified_type(
            text,
            current,
        ) == FieldType::Date,
        current == FieldType::Text && !pattern_matches(DATE_PATTERN@, text) && pattern_matches(
            SIGNATURE_PATTERN@,
            text,
        ) ==> classified_type(text, current) == FieldType::Signature,
        current == FieldType::Text && !pattern_matches(DATE_PATTERN@, text) && !pattern_matches(
            SIGNATURE_PATTERN@,
            text,
        ) && pattern_matches(NUMBER_PATTERN@, text) ==> classified_type(text, current)
            == FieldType::Number,
        current == FieldType::Text && !pattern_matches(DATE_PATTERN@, text) && !pattern_matches(
            SIGNATURE_PATTERN@,
            text,
        ) && !pattern_matches(NUMBER_PATTERN@, text) ==> classified_type(text, current)
            == FieldType::Text,
{
}

/// Classification only ever changes a text field, and then only into a date,
/// signature or number field.
pub proof fn lemma_classification_scope(text: Seq<char>, current: FieldType)
    ensures
        current != FieldType::Text ==> classified_type(text, current) == current,
        current == FieldType::Text ==> classified_type(text, current) != FieldType::Checkbox,
{
}

} // verus!
