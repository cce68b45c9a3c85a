//! The decisions behind labelling fields with a vision model: what is drawn
//! on the page that is sent, what part of the reply is read as JSON, and
//! which field each returned label lands on.
use base64::Engine;
use vstd::prelude::*;
use vstd::string::StringExecFns;
use vstd::string::StrSliceExecFns;
use crate::error::Error;
use crate::debug::{png_encoding, block, canvas_pixels, canvas_size, draw_rect, either, fill_block, painted, rect_border, rect_fits, Canvas};
use crate::detection::orchestrator::opt_string_view;
use crate::text::chars_of;

verus! {

/// The top row of the number tag drawn above a box whose top is at `y`.
pub open spec fn number_tag_top(y: int) -> int {
    if y - 17 < 0 {
        0
    } else {
        y - 17
    }
}

/// Draws a box to be numbered: its border (as `draw_rect` draws it) and a
/// filled tag 20 pixels wide and 16 high whose bottom is one pixel above the
/// box, its top clamped at row 0.
pub fn draw_numbered_box(
    img: &mut Canvas,
    x: i32,
    y: i32,
    w: i32,
    h: i32,
    color: [u8; 4],
    thickness: i32,
)
    requires
        rect_fits(x, y, w, h, thickness),
        i32::MIN <= y - 17,
        x + 20 <= i32::MAX,
    ensures
        canvas_size(*final(img)) == canvas_size(*old(img)),
        canvas_pixels(*final(img)) == painted(
            canvas_pixels(*old(img)),
            canvas_size(*old(img)),
            either(
                rect_border(x as int, y as int, w as int, h as int, thickness as int),
                block(x as int, x + 20, number_tag_top(y as int), number_tag_top(y as int) + 16),
            ),
            color,
        ),
{
    let ghost m = canvas_pixels(*img);
    let ghost size = canvas_size(*img);
    draw_rect(img, x, y, w, h, color, thickness);
    let tag_w: i32 = 20;
    let tag_h: i32 = 16;
    let tag_x = x;
    let tag_y = if y - tag_h - 1 < 0 { 0 } else { y - tag_h - 1 };
    fill_block(img, tag_x, tag_x + tag_w, tag_y, tag_y + tag_h, color);
    proof {
        crate::debug::lemma_painted_twice(
            m,
            size,
            rect_border(x as int, y as int, w as int, h as int, thickness as int),
            block(x as int, x + 20, number_tag_top(y as int), number_tag_top(y as int) + 16),
            color,
        );
    }
}

/// The part of a reply that holds the JSON array: from the first `[` to the
/// last `]`, or the whole reply when it lacks either.
pub open spec fn json_array_text(text: Seq<char>) -> Seq<char> {
    match (text.index_of_first('['), text.index_of_last(']')) {
        (Some(start), Some(end)) => text.subrange(start, end + 1),
        _ => text,
    }
}

/// The reply does not have its last `]` before its first `[` (where cutting
/// out the array would panic).
pub open spec fn brackets_in_order(text: Seq<char>) -> bool {
    match (text.index_of_first('['), text.index_of_last(']')) {
        (Some(start), Some(end)) => start <= end,
        _ => true,
    }
}

/// When the reply has both brackets in order, the cut-out text starts with
/// `[`, ends with `]`, and has no `[` before or `]` after it in the reply:
/// it is `text[start..=end]` for the returned `(start, end)`.
pub proof fn lemma_json_array_bracketed(text: Seq<char>) -> (span: (int, int))
    requires
        brackets_in_order(text),
        text.contains('['),
        text.contains(']'),
    ensures
        json_array_text(text).len() >= 1,
        json_array_text(text)[0] == '[',
        json_array_text(text).last() == ']',
        0 <= span.0 <= span.1 < text.len(),
        json_array_text(text) == text.subrange(span.0, span.1 + 1),
        forall|j: int| 0 <= j < span.0 ==> text[j] != '[',
        forall|j: int| span.1 < j < text.len() ==> text[j] != ']',
{
    text.index_of_first_ensures('[');
    text.index_of_last_ensures(']');
    let start = text.index_of_first('[')->0;
    let end = text.index_of_last(']')->0;
    assert(json_array_text(text) == text.subrange(start, end + 1));
    (start, end)
}

/// Cuts the JSON array out of a model's reply, which may wrap it in other
/// text: from the first `[` through the last `]`, or the whole reply when it
/// lacks either bracket.
pub fn extract_json_array(text: &str) -> (json: &str)
    requires
        brackets_in_order(text@),
    ensures
        json@ == json_array_text(text@),
{
    let v = chars_of(text);
    let n = v.len();
    proof {
        text@.index_of_first_ensures('[');
        text@.index_of_last_ensures(']');
    }
    let mut start: usize = 0;
    while start < n && v[start] != '['
        invariant
            start <= n == v.len(),
            v@ == text@,
            forall|j: int| 0 <= j < start ==> v@[j] != '[',
        decreases n - start,
    {
        start += 1;
    }
    if start == n {
        assert(!text@.contains('['));
        return text;
    }
    let mut end: usize = n;
    while end > 0 && v[end - 1] != ']'
        invariant
            end <= n == v.len(),
            v@ == text@,
            forall|j: int| end <= j < n ==> v@[j] != ']',
        decreases end,
    {
        end -= 1;
    }
    if end == 0 {
        assert(!text@.contains(']'));
        return text;
    }
    assert(text@.index_of_first('[') == Some(start as int));
    assert(text@.index_of_last(']') == Some(end - 1));
    text.substring_char(start, end)
}

/// The names of the fields after the labels are applied in order: a label
/// numbered `k` names the `k`-th field of the page (`field_indices[k - 1]`),
/// a later label for the same field replacing an earlier one, and a number
/// outside `1..=field_indices.len()` changing nothing.
pub open spec fn labeled_names(
    names: Seq<Option<Seq<char>>>,
    field_indices: Seq<usize>,
    labels: Seq<(usize, Seq<char>)>,
) -> Seq<Option<Seq<char>>>
    decreases labels.len(),
{
    if labels.len() == 0 {
        names
    } else {
        let before = labeled_names(names, field_indices, labels.drop_last());
        let (number, name) = labels.last();
        if 1 <= number && number <= field_indices.len() {
            before.update(field_indices[number - 1] as int, Some(name))
        } else {
            before
        }
    }
}

/// Applying labels keeps the number of fields, and leaves the name of every
/// field that is not on the page (not in `field_indices`) as it was.
pub proof fn lemma_labels_stay_on_page(
    names: Seq<Option<Seq<char>>>,
    field_indices: Seq<usize>,
    labels: Seq<(usize, Seq<char>)>,
    k: int,
)
    requires
        forall|j: int| 0 <= j < field_indices.len() ==> #[trigger] field_indices[j] < names.len(),
    ensures
        labeled_names(names, field_indices, labels).len() == names.len(),
        0 <= k < names.len() && !field_indices.contains(k as usize) ==> labeled_names(
            names,
            field_indices,
            labels,
        )[k] == names[k],
    decreases labels.len(),
{
    if labels.len() > 0 {
        lemma_labels_stay_on_page(names, field_indices, labels.drop_last(), k);
        let (number, name) = labels.last();
        if 1 <= number && number <= field_indices.len() && 0 <= k < names.len() && !field_indices.contains(k as usize) {
            assert(field_indices[number - 1] != k as usize);
        }
    }
}

/// Whether `label` names the field at position `k`: its number `n` is in
/// `1..=field_indices.len()` and `field_indices[n - 1]` is `k`.
pub open spec fn label_names_field(label: (usize, Seq<char>), field_indices: Seq<usize>, k: int) -> bool {
    1 <= label.0 && label.0 <= field_indices.len() && field_indices[label.0 - 1] as int == k
}

/// After the labels are applied, a field that no label names keeps its name,
/// and a field that some label names has the name of the last such label.
pub proof fn law_labels_applied(
    names: Seq<Option<Seq<char>>>,
    field_indices: Seq<usize>,
    labels: Seq<(usize, Seq<char>)>,
    k: int,
)
    requires
        forall|j: int| 0 <= j < field_indices.len() ==> #[trigger] field_indices[j] < names.len(),
        0 <= k < names.len(),
    ensures
        labeled_names(names, field_indices, labels).len() == names.len(),
        (forall|j: int| 0 <= j < labels.len() ==> !label_names_field(#[trigger] labels[j], field_indices, k))
            ==> labeled_names(names, field_indices, labels)[k] == names[k],
        forall|j: int|
            0 <= j < labels.len() && label_names_field(#[trigger] labels[j], field_indices, k) && (forall|i: int|
                j < i < labels.len() ==> !label_names_field(#[trigger] labels[i], field_indices, k))
                ==> labeled_names(names, field_indices, labels)[k] == Some(labels[j].1),
    decreases labels.len(),
{
    lemma_labels_stay_on_page(names, field_indices, labels, k);
    if labels.len() > 0 {
        let rest = labels.drop_last();
        let n = labels.len() - 1;
        law_labels_applied(names, field_indices, rest, k);
        lemma_labels_stay_on_page(names, field_indices, rest, k);
        let result = labeled_names(names, field_indices, labels);
        let before = labeled_names(names, field_indices, rest);
        if label_names_field(labels[n], field_indices, k) {
            assert(result[k] == Some(labels[n].1));
            assert forall|j: int|
                0 <= j < labels.len() && label_names_field(#[trigger] labels[j], field_indices, k) && (forall|i: int|
                    j < i < labels.len() ==> !label_names_field(#[trigger] labels[i], field_indices, k))
                    implies result[k] == Some(labels[j].1) by {
                if j < n {
                    assert(!label_names_field(labels[n], field_indices, k));
                }
            }
        } else {
            assert(result[k] == before[k]);
            if forall|j: int| 0 <= j < labels.len() ==> !label_names_field(#[trigger] labels[j], field_indices, k) {
                assert forall|j: int| 0 <= j < rest.len() implies !label_names_field(#[trigger] rest[j], field_indices, k) by {
                    assert(rest[j] == labels[j]);
                }
            }
            assert forall|j: int|
                0 <= j < labels.len() && label_names_field(#[trigger] labels[j], field_indices, k) && (forall|i: int|
                    j < i < labels.len() ==> !label_names_field(#[trigger] labels[i], field_indices, k))
                    implies result[k] == Some(labels[j].1) by {
                assert(j < n);
                assert(rest[j] == labels[j]);
                assert forall|i: int| j < i < rest.len() implies !label_names_field(#[trigger] rest[i], field_indices, k) by {
                    assert(rest[i] == labels[i]);
                }
            }
        }
    }
}

/// Field names as optional character sequences.
pub open spec fn names_view(names: Seq<Option<String>>) -> Seq<Option<Seq<char>>> {
    names.map_values(|o: Option<String>| opt_string_view(o))
}

/// Labels as numbers with character sequences.
pub open spec fn labels_view(labels: Seq<(usize, String)>) -> Seq<(usize, Seq<char>)> {
    labels.map_values(|l: (usize, String)| (l.0, l.1@))
}

/// Applies the labels that came back for one page: a label numbered `k`
/// (counting from 1) names the field at `field_indices[k - 1]`; numbers out
/// of range are ignored, and of two labels for one field the later wins.
pub fn apply_labels(
    names: &mut Vec<Option<String>>,
    field_indices: &Vec<usize>,
    labels: &Vec<(usize, String)>,
)
    requires
        forall|k: int| 0 <= k < field_indices.len() ==> #[trigger] field_indices@[k] < old(names).len(),
    ensures
        names_view(final(names)@) == labeled_names(
            names_view(old(names)@),
            field_indices@,
            labels_view(labels@),
        ),
        final(names).len() == old(names).len(),
        forall|k: int|
            0 <= k < old(names).len() && (forall|j: int|
                0 <= j < labels.len() ==> !label_names_field(
                    #[trigger] labels_view(labels@)[j],
                    field_indices@,
                    k,
                )) ==> #[trigger] names_view(final(names)@)[k] == names_view(old(names)@)[k],
{
    let ghost start = names_view(names@);
    let mut i: usize = 0;
    while i < labels.len()
        invariant
            i <= labels.len(),
            names.len() == old(names).len(),
            forall|k: int| 0 <= k < field_indices.len() ==> #[trigger] field_indices@[k] < names.len(),
            start == names_view(old(names)@),
            names_view(names@) == labeled_names(
                start,
                field_indices@,
                labels_view(labels@).take(i as int),
            ),
        decreases labels.len() - i,
    {
        let number = labels[i].0;
        assert(labels_view(labels@).take(i + 1).drop_last() =~= labels_view(labels@).take(i as int));
        if number >= 1 && number <= field_indices.len() {
            let target = field_indices[number - 1];
            let name = labels[i].1.clone();
            let ghost before = names_view(names@);
            names.set(target, Some(name));
            assert(names_view(names@) =~= before.update(target as int, Some(labels@[i as int].1@)));
        }
        i += 1;
    }
    assert(labels_view(labels@).take(labels.len() as int) =~= labels_view(labels@));
    proof {
        assert forall|k: int|
            0 <= k < old(names).len() && (forall|j: int|
                0 <= j < labels.len() ==> !label_names_field(
                    #[trigger] labels_view(labels@)[j],
                    field_indices@,
                    k,
                )) implies #[trigger] names_view(names@)[k] == start[k] by {
            law_labels_applied(start, field_indices@, labels_view(labels@), k);
        }
    }
}

/// Whether the field at position `k` is on `page`.
pub open spec fn on_page(pages: Seq<usize>, page: usize) -> spec_fn(usize) -> bool {
    |k: usize| pages[k as int] == page
}

/// The positions below `n` of the fields on `page`, in order.
pub open spec fn positions_on_page(pages: Seq<usize>, n: int, page: usize) -> Seq<usize> {
    Seq::new(n as nat, |k: int| k as usize).filter(on_page(pages, page))
}

/// Groups as pages with sequences of positions.
pub open spec fn page_groups_view(groups: Seq<(usize, Vec<usize>)>) -> Seq<(usize, Seq<usize>)> {
    groups.map_values(|g: (usize, Vec<usize>)| (g.0, g.1@))
}

/// `groups` groups the first `n` fields by page: one group per page that
/// occurs, holding the positions of that page's fields in order, the groups
/// ordered by where their page first occurs.
pub open spec fn groups_fields_by_page(
    groups: Seq<(usize, Seq<usize>)>,
    pages: Seq<usize>,
    n: int,
) -> bool {
    &&& forall|g: int| 0 <= g < groups.len() ==> #[trigger] groups[g].1 == positions_on_page(pages, n, groups[g].0)
    &&& forall|g: int| 0 <= g < groups.len() ==> #[trigger] groups[g].1.len() > 0
    &&& forall|g1: int, g2: int| 0 <= g1 < g2 < groups.len() ==> #[trigger] groups[g1].0 != #[trigger] groups[g2].0
    &&& forall|g1: int, g2: int| 0 <= g1 < g2 < groups.len() ==> #[trigger] groups[g1].1[0] < #[trigger] groups[g2].1[0]
    &&& forall|k: int| 0 <= k < n ==> has_group(groups, #[trigger] pages[k])
}

/// Some group is for `page`.
pub open spec fn has_group(groups: Seq<(usize, Seq<usize>)>, page: usize) -> bool {
    exists|g: int| 0 <= g < groups.len() && #[trigger] groups[g].0 == page
}

/// The positions of a prefix that satisfy a predicate, one position longer.
proof fn lemma_positions_step(pages: Seq<usize>, n: int, page: usize)
    requires
        0 <= n < pages.len(),
        n <= usize::MAX,
    ensures
        positions_on_page(pages, n + 1, page) == if pages[n] == page {
            positions_on_page(pages, n, page).push(n as usize)
        } else {
            positions_on_page(pages, n, page)
        },
{
    let prefix = Seq::new(n as nat, |k: int| k as usize);
    assert(Seq::new((n + 1) as nat, |k: int| k as usize) =~= prefix.push(n as usize));
    prefix.lemma_filter_push(n as usize, on_page(pages, page));
}

/// Groups the fields by the page they are on, for one request per page.
pub fn group_by_page(pages: &Vec<usize>) -> (groups: Vec<(usize, Vec<usize>)>)
    ensures
        groups_fields_by_page(page_groups_view(groups@), pages@, pages.len() as int),
{
    let n = pages.len();
    let mut groups: Vec<(usize, Vec<usize>)> = Vec::new();
    let mut i: usize = 0;
    while i < n
        invariant
            i <= n == pages.len(),
            groups_fields_by_page(page_groups_view(groups@), pages@, i as int),
            forall|g: int| 0 <= g < groups.len() ==> #[trigger] groups@[g].1@[0] < i,
        decreases n - i,
    {
        let p = pages[i];
        let ghost before = page_groups_view(groups@);
        let mut g: usize = 0;
        while g < groups.len() && groups[g].0 != p
            invariant
                g <= groups.len(),
                forall|h: int| 0 <= h < g ==> #[trigger] groups@[h].0 != p,
            decreases groups.len() - g,
        {
            g += 1;
        }
        proof {
            assert forall|h: int| 0 <= h < before.len() implies #[trigger] positions_on_page(pages@, i + 1, before[h].0) == if before[h].0
                == p {
                before[h].1.push(i)
            } else {
                before[h].1
            } by {
                lemma_positions_step(pages@, i as int, before[h].0);
            }
        }
        if g < groups.len() {
            let mut members = groups[g].1.clone();
            assert(members@ =~= groups@[g as int].1@);
            members.push(i);
            groups.set(g, (p, members));
            proof {
                let after = page_groups_view(groups@);
                assert(before[g as int].0 == p);
                assert(after =~= before.update(g as int, (p, before[g as int].1.push(i))));
                assert forall|h: int| 0 <= h < after.len() implies #[trigger] after[h].1
                    == positions_on_page(pages@, i + 1, after[h].0) by {
                    lemma_positions_step(pages@, i as int, after[h].0);
                }
                assert forall|k: int| 0 <= k < i + 1 implies has_group(after, #[trigger] pages@[k]) by {
                    if k < i {
                        assert(has_group(before, pages@[k]));
                        let h = choose|h: int| 0 <= h < before.len() && #[trigger] before[h].0 == pages@[k];
                        assert(after[h].0 == pages@[k]);
                    } else {
                        assert(after[g as int].0 == pages@[k]);
                    }
                }
                assert forall|g1: int, g2: int| 0 <= g1 < g2 < after.len() implies #[trigger] after[g1].1[0]
                    < #[trigger] after[g2].1[0] by {
                    assert(after[g1].1[0] == before[g1].1[0]);
                    assert(after[g2].1[0] == before[g2].1[0]);
                }
            }
        } else {
            let mut members: Vec<usize> = Vec::new();
            members.push(i);
            groups.push((p, members));
            proof {
                let after = page_groups_view(groups@);
                assert(members@ =~= seq![i]);
                assert(after =~= before.push((p, seq![i])));
                assert(forall|h: int| 0 <= h < before.len() ==> #[trigger] before[h].0 != p);
                lemma_positions_step(pages@, i as int, p);
                let prefix = Seq::new(i as nat, |k: int| k as usize);
                if positions_on_page(pages@, i as int, p).len() > 0 {
                    let q = positions_on_page(pages@, i as int, p)[0];
                    prefix.lemma_filter_pred(on_page(pages@, p), 0);
                    assert(prefix.filter(on_page(pages@, p)).contains(q));
                    prefix.lemma_filter_contains_rev(on_page(pages@, p), q);
                    let j = choose|j: int| 0 <= j < prefix.len() && prefix[j] == q;
                    assert(has_group(before, pages@[j]));
                    let h = choose|h: int| 0 <= h < before.len() && #[trigger] before[h].0 == pages@[j];
                    assert(false);
                }
                assert(positions_on_page(pages@, i + 1, p) =~= seq![i]);
                assert forall|h: int| 0 <= h < after.len() implies #[trigger] after[h].1
                    == positions_on_page(pages@, i + 1, after[h].0) by {
                    lemma_positions_step(pages@, i as int, after[h].0);
                }
                assert forall|k: int| 0 <= k < i + 1 implies has_group(after, #[trigger] pages@[k]) by {
                    if k < i {
                        assert(has_group(before, pages@[k]));
                        let h = choose|h: int| 0 <= h < before.len() && #[trigger] before[h].0 == pages@[k];
                        assert(after[h].0 == pages@[k]);
                    } else {
                        assert(after[before.len() as int].0 == pages@[k]);
                    }
                }
            }
        }
        i += 1;
    }
    groups
}

/// The character that stands for the six-bit value `v` in standard base64.
pub open spec fn base64_digit(v: int) -> char {
    if v < 26 {
        (65 + v) as char
    } else if v < 52 {
        (97 + v - 26) as char
    } else if v < 62 {
        (48 + v - 52) as char
    } else if v == 62 {
        '+'
    } else {
        '/'
    }
}

/// Standard base64 with padding: each group of three bytes becomes four
/// characters, a last group of one or two bytes is padded with `=`.
pub open spec fn base64_standard(d: Seq<u8>) -> Seq<char>
    decreases d.len(),
{
    let a = d[0] as int;
    let b = d[1] as int;
    let c = d[2] as int;
    if d.len() == 0 {
        Seq::empty()
    } else if d.len() == 1 {
        seq![base64_digit(a / 4), base64_digit((a % 4) * 16), '=', '=']
    } else if d.len() == 2 {
        seq![base64_digit(a / 4), base64_digit((a % 4) * 16 + b / 16), base64_digit((b % 16) * 4), '=']
    } else {
        seq![
            base64_digit(a / 4),
            base64_digit((a % 4) * 16 + b / 16),
            base64_digit((b % 16) * 4 + c / 64),
            base64_digit(c % 64),
        ] + base64_standard(d.skip(3))
    }
}

/// `base64::engine::general_purpose::STANDARD.encode`: standard base64 with
/// padding. It panics when the encoded length overflows `usize`, which the
/// `requires` rules out.
#[verifier::external_body]
fn base64_encode(data: &[u8]) -> (s: String)
    requires
        (data@.len() + 2) / 3 * 4 <= usize::MAX,
    ensures
        s@ == base64_standard(data@),
{
    base64::engine::general_purpose::STANDARD.encode(data)
}

/// Encodes an annotated page for the labelling request: the canvas as a PNG
/// file, in standard base64. It succeeds for every canvas of positive width
/// and height (whose encoding's base64 length fits in `usize`); a canvas of
/// zero width or height gives an image-processing error.
pub fn encode_png_base64(canvas: &Canvas) -> (r: Result<String, Error>)
    ensures
        (canvas_size(*canvas).0 > 0 && canvas_size(*canvas).1 > 0 && (png_encoding(
            canvas_pixels(*canvas),
            canvas_size(*canvas),
        ).len() + 2) / 3 * 4 <= usize::MAX) ==> r is Ok,
        !(canvas_size(*canvas).0 > 0 && canvas_size(*canvas).1 > 0) ==> r is Err,
        r matches Ok(s) ==> s@ == base64_standard(png_encoding(canvas_pixels(*canvas), canvas_size(*canvas))),
        r matches Err(e) ==> e is ImageProcess,
{
    match canvas.encode_png() {
        Ok(bytes) => {
            if (bytes.len() as u128 + 2) / 3 * 4 > usize::MAX as u128 {
                return Err(Error::ImageProcess(String::from_str("PNG encode: output too large")));
            }
            Ok(base64_encode(bytes.as_slice()))
        },
        Err(e) => {
            let detail = e.to_string();
            Err(Error::ImageProcess(String::from_str("PNG encode: ").concat(detail.as_str())))
        },
    }
}

/// The text of a reply: the texts of its content blocks, in order, blocks
/// without text contributing nothing.
pub open spec fn joined_texts(parts: Seq<Option<Seq<char>>>) -> Seq<char>
    decreases parts.len(),
{
    if parts.len() == 0 {
        Seq::empty()
    } else {
        joined_texts(parts.drop_last()) + match parts.last() {
            Some(t) => t,
            None => Seq::empty(),
        }
    }
}

/// Joins the texts of a reply's content blocks, skipping blocks that carry
/// no text.
pub fn reply_text(parts: &Vec<Option<String>>) -> (text: String)
    ensures
        text@ == joined_texts(names_view(parts@)),
{
    let mut text = String::new();
    let mut i: usize = 0;
    while i < parts.len()
        invariant
            i <= parts.len(),
            text@ == joined_texts(names_view(parts@).take(i as int)),
        decreases parts.len() - i,
    {
        assert(names_view(parts@).take(i + 1).drop_last() =~= names_view(parts@).take(i as int));
        match &parts[i] {
            Some(t) => text.append(t.as_str()),
            None => {},
        }
        assert(text@ =~= joined_texts(names_view(parts@).take(i + 1)));
        i += 1;
    }
    assert(names_view(parts@).take(parts.len() as int) =~= names_view(parts@));
    text
}

} // verus!
