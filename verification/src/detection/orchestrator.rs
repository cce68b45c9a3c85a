//! The per-page decisions of field detection that do not depend on geometry:
//! which pages to process, how each detection is annotated, and the label
//! that the text before a field suggests.
use vstd::prelude::*;
use crate::detection::type_classifier::{classified_type, classify_field_type};
use crate::output::FieldType;
use crate::text::{char_is_whitespace, chars_of, is_whitespace, push_char, string_of_range, utf8_len};

verus! {

/// The character classes that the label rules trim by or split at.
pub enum CharClass {
    /// `:`, `_`, `-` and whitespace, trimmed from the end of a label.
    LabelJunk,
    /// Unicode whitespace.
    Whitespace,
    /// Newline and tab, which separate phrases.
    Break,
}

/// Membership in a character class.
pub open spec fn in_class(class: CharClass) -> spec_fn(char) -> bool {
    match class {
        CharClass::LabelJunk => |c: char| c == ':' || c == '_' || c == '-' || char_is_whitespace(c),
        CharClass::Whitespace => |c: char| char_is_whitespace(c),
        CharClass::Break => |c: char| c == '\n' || c == '\t',
    }
}

/// `s` without its longest suffix of characters that satisfy `p`.
pub open spec fn trim_end_while(s: Seq<char>, p: spec_fn(char) -> bool) -> Seq<char>
    decreases s.len(),
{
    if s.len() > 0 && p(s.last()) {
        trim_end_while(s.drop_last(), p)
    } else {
        s
    }
}

/// `s` without its longest prefix of characters that satisfy `p`.
pub open spec fn trim_start_while(s: Seq<char>, p: spec_fn(char) -> bool) -> Seq<char>
    decreases s.len(),
{
    if s.len() > 0 && p(s[0]) {
        trim_start_while(s.drop_first(), p)
    } else {
        s
    }
}

/// `s` without leading and trailing whitespace.
pub open spec fn trim_whitespace(s: Seq<char>) -> Seq<char> {
    trim_start_while(trim_end_while(s, in_class(CharClass::Whitespace)), in_class(CharClass::Whitespace))
}

/// The part of `s` after its last newline or tab (all of `s` if it has none).
pub open spec fn last_phrase(s: Seq<char>) -> Seq<char>
    decreases s.len(),
{
    if s.len() == 0 {
        s
    } else if in_class(CharClass::Break)(s.last()) {
        Seq::empty()
    } else {
        last_phrase(s.drop_last()).push(s.last())
    }
}

/// The label that the text before a field suggests: the text without trailing
/// `:`, `_`, `-` and whitespace, trimmed, and then its last phrase, trimmed;
/// none where either of these is shorter than two bytes.
pub open spec fn heuristic_label(text: Seq<char>) -> Option<Seq<char>> {
    let trimmed = trim_whitespace(trim_end_while(text, in_class(CharClass::LabelJunk)));
    if utf8_len(trimmed) < 2 {
        None
    } else {
        let label = trim_whitespace(last_phrase(trimmed));
        if utf8_len(label) < 2 {
            None
        } else {
            Some(label)
        }
    }
}

/// An optional string as an optional character sequence.
pub open spec fn opt_string_view(o: Option<String>) -> Option<Seq<char>> {
    match o {
        Some(s) => Some(s@),
        None => None,
    }
}

/// Trimming from the end leaves a prefix whose last character does not
/// satisfy the predicate.
pub proof fn lemma_trim_end_shape(s: Seq<char>, p: spec_fn(char) -> bool) -> (e: int)
    ensures
        0 <= e <= s.len(),
        trim_end_while(s, p) == s.subrange(0, e),
        e == 0 || !p(s[e - 1]),
    decreases s.len(),
{
    if s.len() > 0 && p(s.last()) {
        let e = lemma_trim_end_shape(s.drop_last(), p);
        assert(s.drop_last().subrange(0, e) =~= s.subrange(0, e));
        e
    } else {
        assert(s.subrange(0, s.len() as int) =~= s);
        s.len() as int
    }
}

/// Trimming from the start leaves a suffix whose first character does not
/// satisfy the predicate.
pub proof fn lemma_trim_start_shape(s: Seq<char>, p: spec_fn(char) -> bool) -> (b: int)
    ensures
        0 <= b <= s.len(),
        trim_start_while(s, p) == s.subrange(b, s.len() as int),
        b == s.len() || !p(s[b]),
    decreases s.len(),
{
    if s.len() > 0 && p(s[0]) {
        let b = lemma_trim_start_shape(s.drop_first(), p);
        assert(s.drop_first().subrange(b, s.drop_first().len() as int) =~= s.subrange(
            b + 1,
            s.len() as int,
        ));
        b + 1
    } else {
        assert(s.subrange(0, s.len() as int) =~= s);
        0
    }
}

/// The last phrase is a suffix free of newlines and tabs.
pub proof fn lemma_last_phrase_shape(s: Seq<char>) -> (st: int)
    ensures
        0 <= st <= s.len(),
        last_phrase(s) == s.subrange(st, s.len() as int),
        forall|k: int| st <= k < s.len() ==> !#[trigger] in_class(CharClass::Break)(s[k]),
    decreases s.len(),
{
    if s.len() == 0 {
        0
    } else if in_class(CharClass::Break)(s.last()) {
        assert(s.subrange(s.len() as int, s.len() as int) =~= Seq::<char>::empty());
        s.len() as int
    } else {
        let st = lemma_last_phrase_shape(s.drop_last());
        assert(s.drop_last().subrange(st, s.len() - 1).push(s.last()) =~= s.subrange(
            st,
            s.len() as int,
        ));
        assert forall|k: int| st <= k < s.len() implies !#[trigger] in_class(CharClass::Break)(
            s[k],
        ) by {
            if k < s.len() - 1 {
                assert(s[k] == s.drop_last()[k]);
            }
        }
        st
    }
}

/// A heuristic label is a piece of the text, at least two bytes long, without
/// newlines or tabs, that neither starts nor ends with whitespace.
pub proof fn lemma_heuristic_label_shape(text: Seq<char>)
    ensures
        heuristic_label(text) matches Some(label) ==> {
            &&& utf8_len(label) >= 2
            &&& label.len() > 0
            &&& !char_is_whitespace(label[0])
            &&& !char_is_whitespace(label.last())
            &&& forall|k: int| 0 <= k < label.len() ==> #[trigger] label[k] != '\n' && label[k] != '\t'
            &&& exists|a: int, b: int| 0 <= a <= b <= text.len() && label == text.subrange(a, b)
        },
{
    let ws = in_class(CharClass::Whitespace);
    let e1 = lemma_trim_end_shape(text, in_class(CharClass::LabelJunk));
    let s1 = text.subrange(0, e1);
    let e2 = lemma_trim_end_shape(s1, ws);
    let s2 = s1.subrange(0, e2);
    let b2 = lemma_trim_start_shape(s2, ws);
    let trimmed = s2.subrange(b2, s2.len() as int);
    assert(trimmed =~= text.subrange(b2, e2));
    if utf8_len(trimmed) >= 2 {
        let st = lemma_last_phrase_shape(trimmed);
        let piece = trimmed.subrange(st, trimmed.len() as int);
        let e3 = lemma_trim_end_shape(piece, ws);
        let s3 = piece.subrange(0, e3);
        let b3 = lemma_trim_start_shape(s3, ws);
        let label = s3.subrange(b3, s3.len() as int);
        assert(label =~= text.subrange(b2 + st + b3, b2 + st + e3));
        if utf8_len(label) >= 2 {
            if label.len() == 0 {
                assert(vstd::utf8::encode_utf8(label) =~= Seq::<u8>::empty());
            }
            assert(label[0] == s3[b3]);
            assert(label.last() == piece[e3 - 1]);
            assert forall|k: int| 0 <= k < label.len() implies #[trigger] label[k] != '\n'
                && label[k] != '\t' by {
                assert(label[k] == trimmed[st + b3 + k]);
                assert(!in_class(CharClass::Break)(trimmed[st + b3 + k]));
            }
        }
    }
}

/// Trimming from the start stops at the first character that does not
/// satisfy the predicate.
proof fn lemma_trim_start_at(s: Seq<char>, p: spec_fn(char) -> bool, b: int)
    requires
        0 <= b < s.len(),
        forall|k: int| 0 <= k < b ==> p(#[trigger] s[k]),
        !p(s[b]),
    ensures
        trim_start_while(s, p) == s.subrange(b, s.len() as int),
    decreases b,
{
    if b == 0 {
        assert(s.subrange(0, s.len() as int) =~= s);
    } else {
        let t = s.drop_first();
        assert forall|k: int| 0 <= k < b - 1 implies p(#[trigger] t[k]) by {
            assert(t[k] == s[k + 1]);
        }
        lemma_trim_start_at(t, p, b - 1);
        assert(t.subrange(b - 1, t.len() as int) =~= s.subrange(b, s.len() as int));
    }
}

/// A text without newlines or tabs is its own last phrase.
proof fn lemma_last_phrase_whole(s: Seq<char>)
    requires
        forall|k: int| 0 <= k < s.len() ==> #[trigger] s[k] != '\n' && s[k] != '\t',
    ensures
        last_phrase(s) == s,
    decreases s.len(),
{
    if s.len() > 0 {
        let t = s.drop_last();
        assert forall|k: int| 0 <= k < t.len() implies #[trigger] t[k] != '\n' && t[k] != '\t' by {
            assert(t[k] == s[k]);
        }
        lemma_last_phrase_whole(t);
        assert(t.push(s.last()) =~= s);
    }
}

/// Of a one-line text that ends in a character other than `:`, `_`, `-` and
/// whitespace, the label is the text from its first character that is not
/// whitespace, when that is at least two bytes long: nothing else is cut.
pub proof fn law_label_of_one_line(text: Seq<char>, b: int)
    requires
        0 <= b < text.len(),
        forall|k: int| 0 <= k < b ==> char_is_whitespace(#[trigger] text[k]),
        !char_is_whitespace(text[b]),
        forall|k: int| 0 <= k < text.len() ==> #[trigger] text[k] != '\n' && text[k] != '\t',
        text.last() != ':' && text.last() != '_' && text.last() != '-',
        !char_is_whitespace(text.last()),
        utf8_len(text.subrange(b, text.len() as int)) >= 2,
    ensures
        heuristic_label(text) == Some(text.subrange(b, text.len() as int)),
{
    let junk = in_class(CharClass::LabelJunk);
    let ws = in_class(CharClass::Whitespace);
    assert(trim_end_while(text, junk) == text);
    assert(trim_end_while(text, ws) == text);
    lemma_trim_start_at(text, ws, b);
    let rest = text.subrange(b, text.len() as int);
    assert(trim_whitespace(text) == rest);
    assert forall|k: int| 0 <= k < rest.len() implies #[trigger] rest[k] != '\n' && rest[k] != '\t' by {
        assert(rest[k] == text[b + k]);
    }
    lemma_last_phrase_whole(rest);
    assert(rest.last() == text.last());
    assert(trim_end_while(rest, ws) == rest);
    lemma_trim_start_at(rest, ws, 0);
    assert(rest.subrange(0, rest.len() as int) =~= rest);
}

/// A `:`, `_`, `-` or whitespace character at the end of the text does not
/// change its label.
pub proof fn law_trailing_junk_ignored(text: Seq<char>, c: char)
    requires
        c == ':' || c == '_' || c == '-' || char_is_whitespace(c),
    ensures
        heuristic_label(text.push(c)) == heuristic_label(text),
{
    assert(text.push(c).drop_last() =~= text);
    assert(trim_end_while(text.push(c), in_class(CharClass::LabelJunk)) == trim_end_while(
        text,
        in_class(CharClass::LabelJunk),
    ));
}

/// A sequence takes fewer than two UTF-8 bytes exactly when it is empty or a
/// single ASCII character.
pub proof fn lemma_utf8_len_below_two(s: Seq<char>)
    ensures
        utf8_len(s) < 2 <==> (s.len() == 0 || (s.len() == 1 && (s[0] as u32) <= 0x7F)),
{
    let enc = vstd::utf8::encode_utf8(s);
    if s.len() > 0 {
        let first = vstd::utf8::encode_scalar(s[0] as u32);
        let rest = vstd::utf8::encode_utf8(s.drop_first());
        assert(enc == first + rest);
        assert(first.len() >= 1);
        assert(first.len() == 1 <==> (s[0] as u32) <= 0x7F);
        if s.len() > 1 {
            let r = s.drop_first();
            assert(rest == vstd::utf8::encode_scalar(r[0] as u32) + vstd::utf8::encode_utf8(
                r.drop_first(),
            ));
        } else {
            assert(s.drop_first().len() == 0);
        }
    }
}

/// Whether `v[from..to]` takes fewer than two UTF-8 bytes.
fn shorter_than_two_bytes(v: &Vec<char>, from: usize, to: usize) -> (b: bool)
    requires
        from <= to <= v.len(),
    ensures
        b == (utf8_len(v@.subrange(from as int, to as int)) < 2),
{
    proof {
        lemma_utf8_len_below_two(v@.subrange(from as int, to as int));
    }
    to - from == 0 || (to - from == 1 && (v[from] as u32) <= 0x7F)
}

/// Whether `c` belongs to `class`.
fn is_in_class(c: char, class: &CharClass) -> (b: bool)
    ensures
        b == in_class(*class)(c),
{
    match class {
        CharClass::LabelJunk => c == ':' || c == '_' || c == '-' || is_whitespace(c),
        CharClass::Whitespace => is_whitespace(c),
        CharClass::Break => c == '\n' || c == '\t',
    }
}

/// Where `v[from..to]` ends once its trailing characters of `class` are cut.
fn end_without(v: &Vec<char>, from: usize, to: usize, class: CharClass) -> (e: usize)
    requires
        from <= to <= v.len(),
    ensures
        from <= e <= to,
        trim_end_while(v@.subrange(from as int, to as int), in_class(class)) == v@.subrange(
            from as int,
            e as int,
        ),
{
    let ghost p = in_class(class);
    let mut e = to;
    while e > from && is_in_class(v[e - 1], &class)
        invariant
            from <= e <= to <= v.len(),
            p == in_class(class),
            trim_end_while(v@.subrange(from as int, to as int), p) == trim_end_while(
                v@.subrange(from as int, e as int),
                p,
            ),
        decreases e,
    {
        assert(v@.subrange(from as int, e as int).drop_last() =~= v@.subrange(
            from as int,
            e - 1,
        ));
        e -= 1;
    }
    e
}

/// Where `v[from..to]` starts once its leading characters of `class` are cut.
fn start_without(v: &Vec<char>, from: usize, to: usize, class: CharClass) -> (b: usize)
    requires
        from <= to <= v.len(),
    ensures
        from <= b <= to,
        trim_start_while(v@.subrange(from as int, to as int), in_class(class)) == v@.subrange(
            b as int,
            to as int,
        ),
{
    let ghost p = in_class(class);
    let mut b = from;
    while b < to && is_in_class(v[b], &class)
        invariant
            from <= b <= to <= v.len(),
            p == in_class(class),
            trim_start_while(v@.subrange(from as int, to as int), p) == trim_start_while(
                v@.subrange(b as int, to as int),
                p,
            ),
        decreases to - b,
    {
        assert(v@.subrange(b as int, to as int).drop_first() =~= v@.subrange(b + 1, to as int));
        b += 1;
    }
    b
}

/// Where the last phrase of `v[from..to]` starts.
fn last_phrase_start(v: &Vec<char>, from: usize, to: usize) -> (st: usize)
    requires
        from <= to <= v.len(),
    ensures
        from <= st <= to,
        last_phrase(v@.subrange(from as int, to as int)) == v@.subrange(st as int, to as int),
{
    let mut st = to;
    while st > from && !is_in_class(v[st - 1], &CharClass::Break)
        invariant
            from <= st <= to <= v.len(),
            last_phrase(v@.subrange(from as int, to as int)) == last_phrase(
                v@.subrange(from as int, st as int),
            ) + v@.subrange(st as int, to as int),
        decreases st,
    {
        let ghost s = v@.subrange(from as int, st as int);
        assert(s.drop_last() =~= v@.subrange(from as int, st - 1));
        assert(v@.subrange(st - 1, to as int) =~= seq![s.last()] + v@.subrange(st as int, to as int));
        assert(last_phrase(s) == last_phrase(s.drop_last()).push(s.last()));
        assert(last_phrase(s.drop_last()).push(s.last()) + v@.subrange(st as int, to as int)
            =~= last_phrase(s.drop_last()) + v@.subrange(st - 1, to as int));
        st -= 1;
    }
    assert(Seq::<char>::empty() + v@.subrange(st as int, to as int) =~= v@.subrange(st as int, to as int));
    st
}

/// Extracts a heuristic label from the text that precedes a field.
///
/// Trims trailing colons, underscores, dashes and whitespace, then takes the
/// last phrase (after the last newline or tab), trimmed. Returns `None` if
/// the text or the phrase is shorter than two bytes.
pub fn extract_heuristic_label(preceding_text: &str) -> (label: Option<String>)
    ensures
        opt_string_view(label) == heuristic_label(preceding_text@),
{
    let v = chars_of(preceding_text);
    let n = v.len();
    let ghost s = preceding_text@;
    assert(v@.subrange(0, n as int) =~= s);
    let e1 = end_without(&v, 0, n, CharClass::LabelJunk);
    let e2 = end_without(&v, 0, e1, CharClass::Whitespace);
    let b2 = start_without(&v, 0, e2, CharClass::Whitespace);
    let ghost trimmed = v@.subrange(b2 as int, e2 as int);
    assert(trimmed == trim_whitespace(trim_end_while(s, in_class(CharClass::LabelJunk))));
    if shorter_than_two_bytes(&v, b2, e2) {
        return None;
    }
    let st = last_phrase_start(&v, b2, e2);
    let e3 = end_without(&v, st, e2, CharClass::Whitespace);
    let b3 = start_without(&v, st, e3, CharClass::Whitespace);
    assert(v@.subrange(b3 as int, e3 as int) == trim_whitespace(last_phrase(trimmed)));
    if shorter_than_two_bytes(&v, b3, e3) {
        return None;
    }
    Some(string_of_range(&v, b3, e3))
}

/// The pages to process: the one asked for if it exists (none if it does
/// not), or every page in order.
pub open spec fn pages_to_process(page: Option<usize>, page_count: usize) -> Seq<usize> {
    match page {
        Some(p) => if p < page_count {
            seq![p]
        } else {
            Seq::empty()
        },
        None => Seq::new(page_count as nat, |i: int| i as usize),
    }
}

/// Chooses the pages to process: only `page` when one is asked for (none if
/// the document is shorter), else all pages `0..page_count`.
pub fn select_pages(page: Option<usize>, page_count: usize) -> (pages: Vec<usize>)
    ensures
        pages@ == pages_to_process(page, page_count),
        page matches Some(p) ==> (p < page_count ==> pages@ == Seq::<usize>::empty().push(p)),
        page matches Some(p) && p >= page_count ==> pages@.len() == 0,
        page is None ==> pages@.len() == page_count,
        page is None ==> forall|i: int| 0 <= i < page_count ==> #[trigger] pages@[i] == i,
{
    proof {
        law_pages_to_process(page, page_count);
    }
    match page {
        Some(p) => {
            if p < page_count {
                let mut v: Vec<usize> = Vec::new();
                v.push(p);
                assert(v@ =~= seq![p]);
                v
            } else {
                let v: Vec<usize> = Vec::new();
                assert(v@ =~= Seq::<usize>::empty());
                v
            }
        },
        None => {
            let mut v: Vec<usize> = Vec::new();
            let mut i: usize = 0;
            while i < page_count
                invariant
                    i <= page_count,
                    v@ =~= Seq::new(i as nat, |k: int| k as usize),
                decreases page_count - i,
            {
                v.push(i);
                i += 1;
            }
            v
        },
    }
}

/// A page that is asked for and exists is the only page processed; one that
/// does not exist leaves nothing to process; with none asked for, every page
/// is processed once, in order.
pub proof fn law_pages_to_process(page: Option<usize>, page_count: usize)
    ensures
        page matches Some(p) ==> (p < page_count ==> pages_to_process(page, page_count) == Seq::<usize>::empty().push(p)),
        page matches Some(p) && p >= page_count ==> pages_to_process(page, page_count).len() == 0,
        page is None ==> pages_to_process(page, page_count).len() == page_count,
        page is None ==> forall|i: int|
            0 <= i < page_count ==> #[trigger] pages_to_process(page, page_count)[i] == i,
{
}

/// The type and name of a detected field: with classification on, a text
/// field is reclassified by its preceding text and every field gets the
/// heuristic label of that text; with it off, the model's type stands and
/// there is no name.
pub open spec fn field_annotation(
    base_type: FieldType,
    preceding: Seq<char>,
    classify_types: bool,
) -> (FieldType, Option<Seq<char>>) {
    if classify_types {
        (classified_type(preceding, base_type), heuristic_label(preceding))
    } else {
        (base_type, None)
    }
}

/// With classification off, a field keeps the model's type and gets no name.
/// With it on, it gets the type that its preceding text gives a field of its
/// type and the heuristic label of that text. A field that is not a text
/// field keeps its type either way.
pub proof fn law_field_annotation(base_type: FieldType, preceding: Seq<char>, classify_types: bool)
    ensures
        !classify_types ==> field_annotation(base_type, preceding, classify_types) == (
            base_type,
            None::<Seq<char>>,
        ),
        base_type != FieldType::Text ==> field_annotation(base_type, preceding, classify_types).0
            == base_type,
        classify_types ==> field_annotation(base_type, preceding, classify_types).0 == classified_type(
            preceding,
            base_type,
        ),
        classify_types ==> field_annotation(base_type, preceding, classify_types).1 == heuristic_label(
            preceding,
        ),
{
}

/// Decides the type and name of a detected field from the type the model
/// gave it and the text that precedes it.
pub fn annotate_field(base_type: FieldType, preceding_text: &str, classify_types: bool) -> (r: (
    FieldType,
    Option<String>,
))
    ensures
        (r.0, opt_string_view(r.1)) == field_annotation(base_type, preceding_text@, classify_types),
        !classify_types ==> r.0 == base_type && r.1 is None,
        base_type != FieldType::Text ==> r.0 == base_type,
        classify_types ==> r.0 == classified_type(preceding_text@, base_type),
        classify_types ==> opt_string_view(r.1) == heuristic_label(preceding_text@),
{
    proof {
        law_field_annotation(base_type, preceding_text@, classify_types);
    }
    let field_type = if classify_types && base_type == FieldType::Text {
        classify_field_type(preceding_text, base_type)
    } else {
        base_type
    };
    let name = if classify_types {
        extract_heuristic_label(preceding_text)
    } else {
        None
    };
    (field_type, name)
}

/// Where a text node stands relative to a field, as seen when walking the
/// nodes from the last one back.
pub enum NodePlacement {
    /// The node ends too far above the field: the walk stops here.
    Beyond,
    /// The node is on the field's line to its left, or on the line above:
    /// its character precedes the field.
    Before,
    /// Any other node, which the walk passes over.
    Elsewhere,
}

/// The characters of the nodes that precede a field, in node order: those
/// placed `Before`, after the last node placed `Beyond`.
pub open spec fn preceding_chars(contents: Seq<char>, places: Seq<NodePlacement>) -> Seq<char>
    decreases places.len(),
{
    if places.len() == 0 || contents.len() < places.len() {
        Seq::empty()
    } else {
        let k = places.len() - 1;
        let earlier = preceding_chars(contents.take(k), places.take(k));
        match places[k] {
            NodePlacement::Beyond => Seq::empty(),
            NodePlacement::Before => earlier.push(contents[k]),
            NodePlacement::Elsewhere => earlier,
        }
    }
}

/// Gathers the text that precedes a field from the characters of the text
/// nodes (in reading order) and where each node stands relative to the field.
pub fn assemble_preceding_text(contents: &Vec<char>, places: &Vec<NodePlacement>) -> (text: String)
    requires
        contents.len() == places.len(),
    ensures
        text@ == preceding_chars(contents@, places@),
{
    let n = places.len();
    let mut start = n;
    while start > 0 && !matches!(places[start - 1], NodePlacement::Beyond)
        invariant
            start <= n == places.len() == contents.len(),
            forall|k: int| start <= k < n ==> !(#[trigger] places@[k] is Beyond),
        decreases start,
    {
        start -= 1;
    }
    let mut text = String::new();
    let mut i = start;
    while i < n
        invariant
            start <= i <= n == places.len() == contents.len(),
            start == 0 || places@[start - 1] is Beyond,
            forall|k: int| start <= k < n ==> !(#[trigger] places@[k] is Beyond),
            text@ == preceding_chars(contents@.take(i as int), places@.take(i as int)),
        decreases n - i,
    {
        assert(contents@.take(i + 1).take(i as int) =~= contents@.take(i as int));
        assert(places@.take(i + 1).take(i as int) =~= places@.take(i as int));
        if i == start {
            if start > 0 {
                assert(contents@.take(start as int).take(start - 1) =~= contents@.take(start - 1));
                assert(places@.take(start as int).take(start - 1) =~= places@.take(start - 1));
            }
            assert(preceding_chars(contents@.take(i as int), places@.take(i as int)) =~= Seq::<
                char,
            >::empty());
        }
        match places[i] {
            NodePlacement::Before => push_char(&mut text, contents[i]),
            _ => {},
        }
        i += 1;
    }
    assert(contents@.take(n as int) =~= contents@);
    assert(places@.take(n as int) =~= places@);
    text
}

} // verus!
