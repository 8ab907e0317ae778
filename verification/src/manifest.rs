//! The project manifest: a compact JSON text holding the folders, the used
//! labels and the annotations, with a verified encoder and parser.
//!
//! The encoder emits one canonical form:
//! `{"video_folder":…,"labels_folder":…,"used_labels":[…],"annotations":{…}}`,
//! each annotation as `{"start_frame":N,"end_frame":N,"label":S}`. The parser
//! reads exactly that canonical form — the shape the encoder and the usual
//! compact JSON writers produce — and rejects anything else, including
//! annotations whose range runs backward or whose label is empty, and
//! repeated video keys. Parsing what the encoder wrote gives the original
//! configuration back exactly.

use vstd::prelude::*;

use crate::annotation::{AnnotationModel, FrameAnnotation};
use crate::project::{spec_project_from, ConfigModel, Project, ProjectConfig, ProjectModel};
use crate::store::{AnnotationStore, VideoAnnotations, VideoModel};
use crate::text::{chars_vec, dec_digits, digit_char, join_with, push_char, u32_to_dec};

verus! {

// ---------------------------------------------------------------------------
// Encoding
// ---------------------------------------------------------------------------

/// How one character appears inside a quoted string: quote, backslash,
/// newline, carriage return and tab are escaped, everything else stands as
/// itself.
pub open spec fn esc_char(c: char) -> Seq<char> {
    if c == '"' {
        seq!['\\', '"']
    } else if c == '\\' {
        seq!['\\', '\\']
    } else if c == '\n' {
        seq!['\\', 'n']
    } else if c == '\r' {
        seq!['\\', 'r']
    } else if c == '\t' {
        seq!['\\', 't']
    } else {
        seq![c]
    }
}

/// A string's characters, each escaped.
pub open spec fn esc_str(s: Seq<char>) -> Seq<char>
    decreases s.len(),
{
    if s.len() == 0 {
        Seq::empty()
    } else {
        esc_str(s.drop_last()) + esc_char(s.last())
    }
}

/// A quoted, escaped string.
pub open spec fn enc_str(s: Seq<char>) -> Seq<char> {
    seq!['"'] + esc_str(s) + seq!['"']
}

/// One annotation as an object with its three fields.
pub open spec fn enc_ann(a: AnnotationModel) -> Seq<char> {
    "{\"start_frame\":"@ + dec_digits(a.start_frame as int) + ",\"end_frame\":"@ + dec_digits(
        a.end_frame as int,
    ) + ",\"label\":"@ + enc_str(a.label) + "}"@
}

/// The used labels as an array of strings.
pub open spec fn enc_label_list(l: Seq<Seq<char>>) -> Seq<char> {
    seq!['['] + join_with(l.map_values(|s: Seq<char>| enc_str(s)), ","@) + seq![']']
}

/// One video's annotations as an array of objects.
pub open spec fn enc_ann_list(anns: Seq<AnnotationModel>) -> Seq<char> {
    seq!['['] + join_with(anns.map_values(|a: AnnotationModel| enc_ann(a)), ","@) + seq![']']
}

/// One store entry: the quoted video name, a colon, its annotation array.
pub open spec fn enc_entry(e: VideoModel) -> Seq<char> {
    enc_str(e.video) + seq![':'] + enc_ann_list(e.annotations)
}

/// The whole store as an object keyed by video name.
pub open spec fn enc_entries(s: Seq<VideoModel>) -> Seq<char> {
    seq!['{'] + join_with(s.map_values(|e: VideoModel| enc_entry(e)), ","@) + seq!['}']
}

/// The manifest text of a configuration.
pub open spec fn spec_encode_manifest(c: ConfigModel) -> Seq<char> {
    "{\"video_folder\":"@ + enc_str(c.video_folder) + ",\"labels_folder\":"@ + enc_str(
        c.labels_folder,
    ) + ",\"used_labels\":"@ + enc_label_list(c.used_labels) + ",\"annotations\":"@ + enc_entries(
        c.annotations,
    ) + "}"@
}

/// Appends the escaped characters of `s`.
fn append_escaped(out: &mut String, s: &String)
    ensures
        final(out)@ == old(out)@ + esc_str(s@),
{
    let cs = chars_vec(s.as_str());
    let mut i: usize = 0;
    while i < cs.len()
        invariant
            cs@ == s@,
            i <= cs@.len(),
            out@ =~= old(out)@ + esc_str(s@.take(i as int)),
        decreases cs.len() - i,
    {
        let c = cs[i];
        if c == '"' {
            out.append("\\\"");
        } else if c == '\\' {
            out.append("\\\\");
        } else if c == '\n' {
            out.append("\\n");
        } else if c == '\r' {
            out.append("\\r");
        } else if c == '\t' {
            out.append("\\t");
        } else {
            push_char(out, c);
        }
        proof {
            reveal_strlit("\\\"");
            reveal_strlit("\\\\");
            reveal_strlit("\\n");
            reveal_strlit("\\r");
            reveal_strlit("\\t");
            let cur = s@.take(i as int + 1);
            assert(cur.drop_last() =~= s@.take(i as int));
            assert(cur.last() == s@[i as int]);
            assert(out@ =~= old(out)@ + esc_str(cur));
        }
        i = i + 1;
    }
    proof {
        assert(s@.take(s@.len() as int) =~= s@);
    }
}

/// Appends `s` quoted and escaped.
fn append_enc_str(out: &mut String, s: &String)
    ensures
        final(out)@ == old(out)@ + enc_str(s@),
{
    push_char(out, '"');
    append_escaped(out, s);
    push_char(out, '"');
    proof {
        assert(out@ =~= old(out)@ + enc_str(s@));
    }
}

/// Appends one annotation object.
fn append_ann(out: &mut String, a: &FrameAnnotation)
    ensures
        final(out)@ == old(out)@ + enc_ann(a@),
{
    out.append("{\"start_frame\":");
    let start = u32_to_dec(a.start_frame);
    out.append(start.as_str());
    out.append(",\"end_frame\":");
    let end = u32_to_dec(a.end_frame);
    out.append(end.as_str());
    out.append(",\"label\":");
    append_enc_str(out, &a.label);
    out.append("}");
    proof {
        assert(out@ =~= old(out)@ + enc_ann(a@));
    }
}

/// Appends the annotation array of one video.
fn append_ann_list(out: &mut String, anns: &Vec<FrameAnnotation>)
    ensures
        final(out)@ == old(out)@ + enc_ann_list(anns.deep_view()),
{
    let ghost items = anns.deep_view().map_values(|a: AnnotationModel| enc_ann(a));
    push_char(out, '[');
    let mut i: usize = 0;
    while i < anns.len()
        invariant
            items == anns.deep_view().map_values(|a: AnnotationModel| enc_ann(a)),
            i <= anns@.len(),
            out@ =~= old(out)@ + seq!['['] + join_with(items.take(i as int), ","@),
        decreases anns.len() - i,
    {
        if i > 0 {
            out.append(",");
        }
        append_ann(out, &anns[i]);
        proof {
            reveal_strlit(",");
            let pre = items.take(i as int);
            let cur = items.take(i as int + 1);
            assert(cur.drop_last() =~= pre);
            assert(cur.last() == items[i as int]);
            assert(items[i as int] == enc_ann(anns.deep_view()[i as int]));
            assert(out@ =~= old(out)@ + seq!['['] + join_with(cur, ","@));
        }
        i = i + 1;
    }
    push_char(out, ']');
    proof {
        assert(items.take(anns@.len() as int) =~= items);
        assert(out@ =~= old(out)@ + enc_ann_list(anns.deep_view()));
    }
}

/// Appends the used-labels array.
fn append_label_list(out: &mut String, labels: &Vec<String>)
    ensures
        final(out)@ == old(out)@ + enc_label_list(labels.deep_view()),
{
    let ghost items = labels.deep_view().map_values(|s: Seq<char>| enc_str(s));
    push_char(out, '[');
    let mut i: usize = 0;
    while i < labels.len()
        invariant
            items == labels.deep_view().map_values(|s: Seq<char>| enc_str(s)),
            i <= labels@.len(),
            out@ =~= old(out)@ + seq!['['] + join_with(items.take(i as int), ","@),
        decreases labels.len() - i,
    {
        if i > 0 {
            out.append(",");
        }
        append_enc_str(out, &labels[i]);
        proof {
            reveal_strlit(",");
            let pre = items.take(i as int);
            let cur = items.take(i as int + 1);
            assert(cur.drop_last() =~= pre);
            assert(cur.last() == items[i as int]);
            assert(out@ =~= old(out)@ + seq!['['] + join_with(cur, ","@));
        }
        i = i + 1;
    }
    push_char(out, ']');
    proof {
        assert(items.take(labels@.len() as int) =~= items);
        assert(out@ =~= old(out)@ + enc_label_list(labels.deep_view()));
    }
}

/// Appends the annotations object.
fn append_entries(out: &mut String, store: &AnnotationStore)
    ensures
        final(out)@ == old(out)@ + enc_entries(store@),
{
    let ghost items = store@.map_values(|e: VideoModel| enc_entry(e));
    push_char(out, '{');
    let mut i: usize = 0;
    while i < store.entries.len()
        invariant
            items == store@.map_values(|e: VideoModel| enc_entry(e)),
            i <= store@.len(),
            out@ =~= old(out)@ + seq!['{'] + join_with(items.take(i as int), ","@),
        decreases store.entries.len() - i,
    {
        if i > 0 {
            out.append(",");
        }
        let entry = &store.entries[i];
        append_enc_str(out, &entry.video);
        push_char(out, ':');
        append_ann_list(out, &entry.annotations);
        proof {
            reveal_strlit(",");
            let pre = items.take(i as int);
            let cur = items.take(i as int + 1);
            assert(cur.drop_last() =~= pre);
            assert(cur.last() == items[i as int]);
            assert(items[i as int] == enc_entry(store@[i as int]));
            assert(out@ =~= old(out)@ + seq!['{'] + join_with(cur, ","@));
        }
        i = i + 1;
    }
    push_char(out, '}');
    proof {
        assert(items.take(store@.len() as int) =~= items);
        assert(out@ =~= old(out)@ + enc_entries(store@));
    }
}

// ---------------------------------------------------------------------------
// Parsing, at the spec level
// ---------------------------------------------------------------------------

/// A decimal digit.
pub open spec fn is_digit(c: char) -> bool {
    '0' <= c && c <= '9'
}

/// The value of a decimal digit.
pub open spec fn digit_val(c: char) -> int {
    (c as u32) as int - ('0' as u32) as int
}

/// What an escape code stands for, if it is one the encoder uses.
pub open spec fn unescape_char(c: char) -> Option<char> {
    if c == '"' {
        Some('"')
    } else if c == '\\' {
        Some('\\')
    } else if c == 'n' {
        Some('\n')
    } else if c == 'r' {
        Some('\r')
    } else if c == 't' {
        Some('\t')
    } else {
        None
    }
}

/// Consumes `lit` verbatim at `pos`.
pub open spec fn spec_expect(s: Seq<char>, pos: int, lit: Seq<char>) -> Option<int> {
    if 0 <= pos && pos + lit.len() <= s.len() && s.subrange(pos, pos + lit.len()) == lit {
        Some(pos + lit.len())
    } else {
        None
    }
}

/// The string characters from `pos` (just after an opening quote) up to the
/// closing quote, escapes decoded; `None` when the text ends first or an
/// unknown escape appears.
pub open spec fn spec_parse_string_body(s: Seq<char>, pos: int) -> Option<(Seq<char>, int)>
    decreases s.len() - pos,
{
    if pos < 0 || pos >= s.len() {
        None
    } else if s[pos] == '"' {
        Some((Seq::empty(), pos + 1))
    } else if s[pos] == '\\' {
        if pos + 1 < s.len() {
            match unescape_char(s[pos + 1]) {
                Some(c) => match spec_parse_string_body(s, pos + 2) {
                    Some(r) => Some((seq![c] + r.0, r.1)),
                    None => None,
                },
                None => None,
            }
        } else {
            None
        }
    } else {
        match spec_parse_string_body(s, pos + 1) {
            Some(r) => Some((seq![s[pos]] + r.0, r.1)),
            None => None,
        }
    }
}

/// A quoted string at `pos`.
pub open spec fn spec_parse_string(s: Seq<char>, pos: int) -> Option<(Seq<char>, int)> {
    if 0 <= pos < s.len() && s[pos] == '"' {
        spec_parse_string_body(s, pos + 1)
    } else {
        None
    }
}

/// How many decimal digits stand at `pos`.
pub open spec fn digit_run(s: Seq<char>, pos: int) -> int
    decreases s.len() - pos,
{
    if 0 <= pos < s.len() && is_digit(s[pos]) {
        1 + digit_run(s, pos + 1)
    } else {
        0
    }
}

/// The value of a digit sequence, most significant first.
pub open spec fn digits_value(d: Seq<char>) -> int
    decreases d.len(),
{
    if d.len() == 0 {
        0
    } else {
        digits_value(d.drop_last()) * 10 + digit_val(d.last())
    }
}

/// A decimal `u32` at `pos`: one or more digits whose value fits.
pub open spec fn spec_parse_u32(s: Seq<char>, pos: int) -> Option<(u32, int)> {
    let k = digit_run(s, pos);
    if k >= 1 && digits_value(s.subrange(pos, pos + k)) <= u32::MAX as int {
        Some((digits_value(s.subrange(pos, pos + k)) as u32, pos + k))
    } else {
        None
    }
}

/// One annotation object at `pos`; an empty label or a backward range is
/// malformed.
pub open spec fn spec_parse_annotation(s: Seq<char>, pos: int) -> Option<(AnnotationModel, int)> {
    match spec_expect(s, pos, "{\"start_frame\":"@) {
        Some(p1) => match spec_parse_u32(s, p1) {
            Some((start, p2)) => match spec_expect(s, p2, ",\"end_frame\":"@) {
                Some(p3) => match spec_parse_u32(s, p3) {
                    Some((end, p4)) => match spec_expect(s, p4, ",\"label\":"@) {
                        Some(p5) => match spec_parse_string(s, p5) {
                            Some((label, p6)) => match spec_expect(s, p6, "}"@) {
                                Some(p7) => if start <= end && label.len() > 0 {
                                    Some((AnnotationModel { start_frame: start, end_frame: end, label }, p7))
                                } else {
                                    None
                                },
                                None => None,
                            },
                            None => None,
                        },
                        None => None,
                    },
                    None => None,
                },
                None => None,
            },
            None => None,
        },
        None => None,
    }
}

/// A parsed string always ends past where it began and inside the text.
pub proof fn lemma_parse_string_body_progress(s: Seq<char>, pos: int)
    ensures
        spec_parse_string_body(s, pos) matches Some(r) ==> pos < r.1 <= s.len(),
    decreases s.len() - pos,
{
    if 0 <= pos < s.len() {
        lemma_parse_string_body_progress(s, pos + 1);
        if pos + 1 < s.len() {
            lemma_parse_string_body_progress(s, pos + 2);
        }
    }
}

/// A parsed annotation always ends past where it began and inside the text.
pub proof fn lemma_parse_annotation_progress(s: Seq<char>, pos: int)
    ensures
        spec_parse_annotation(s, pos) matches Some(r) ==> pos < r.1 <= s.len(),
{
    if let Some(p1) = spec_expect(s, pos, "{\"start_frame\":"@) {
        if let Some((_, p2)) = spec_parse_u32(s, p1) {
            lemma_digit_run_bounds(s, p1);
            if let Some(p3) = spec_expect(s, p2, ",\"end_frame\":"@) {
                if let Some((_, p4)) = spec_parse_u32(s, p3) {
                    lemma_digit_run_bounds(s, p3);
                    if let Some(p5) = spec_expect(s, p4, ",\"label\":"@) {
                        lemma_parse_string_body_progress(s, p5 + 1);
                    }
                }
            }
        }
    }
}

/// A digit run stays inside the text.
pub proof fn lemma_digit_run_bounds(s: Seq<char>, pos: int)
    requires
        0 <= pos <= s.len(),
    ensures
        0 <= digit_run(s, pos),
        pos + digit_run(s, pos) <= s.len(),
    decreases s.len() - pos,
{
    if pos < s.len() && is_digit(s[pos]) {
        lemma_digit_run_bounds(s, pos + 1);
    }
}

/// The annotation objects of one video's array, comma-separated.
pub open spec fn spec_parse_ann_items(s: Seq<char>, pos: int) -> Option<(Seq<AnnotationModel>, int)>
    decreases s.len() - pos,
    when 0 <= pos
    via spec_parse_ann_items_decreases
{
    match spec_parse_annotation(s, pos) {
        Some((a, p)) => if p < s.len() && s[p] == ',' {
            match spec_parse_ann_items(s, p + 1) {
                Some((rest, p2)) => Some((seq![a] + rest, p2)),
                None => None,
            }
        } else {
            Some((seq![a], p))
        },
        None => None,
    }
}

#[via_fn]
proof fn spec_parse_ann_items_decreases(s: Seq<char>, pos: int) {
    lemma_parse_annotation_progress(s, pos);
}

/// A (possibly empty) annotation array at `pos`.
pub open spec fn spec_parse_ann_list(s: Seq<char>, pos: int) -> Option<(Seq<AnnotationModel>, int)> {
    match spec_expect(s, pos, "["@) {
        Some(p) => if p < s.len() && s[p] == ']' {
            Some((Seq::empty(), p + 1))
        } else {
            match spec_parse_ann_items(s, p) {
                Some((items, p2)) => match spec_expect(s, p2, "]"@) {
                    Some(p3) => Some((items, p3)),
                    None => None,
                },
                None => None,
            }
        },
        None => None,
    }
}

/// The strings of the used-labels array, comma-separated.
pub open spec fn spec_parse_label_items(s: Seq<char>, pos: int) -> Option<(Seq<Seq<char>>, int)>
    decreases s.len() - pos,
    when 0 <= pos
    via spec_parse_label_items_decreases
{
    match spec_parse_string(s, pos) {
        Some((l, p)) => if p < s.len() && s[p] == ',' {
            match spec_parse_label_items(s, p + 1) {
                Some((rest, p2)) => Some((seq![l] + rest, p2)),
                None => None,
            }
        } else {
            Some((seq![l], p))
        },
        None => None,
    }
}

#[via_fn]
proof fn spec_parse_label_items_decreases(s: Seq<char>, pos: int) {
    lemma_parse_string_body_progress(s, pos + 1);
}

/// A (possibly empty) array of strings at `pos`.
pub open spec fn spec_parse_label_list(s: Seq<char>, pos: int) -> Option<(Seq<Seq<char>>, int)> {
    match spec_expect(s, pos, "["@) {
        Some(p) => if p < s.len() && s[p] == ']' {
            Some((Seq::empty(), p + 1))
        } else {
            match spec_parse_label_items(s, p) {
                Some((items, p2)) => match spec_expect(s, p2, "]"@) {
                    Some(p3) => Some((items, p3)),
                    None => None,
                },
                None => None,
            }
        },
        None => None,
    }
}

/// One `"video":[…]` entry at `pos`.
pub open spec fn spec_parse_entry(s: Seq<char>, pos: int) -> Option<(VideoModel, int)> {
    match spec_parse_string(s, pos) {
        Some((video, p)) => match spec_expect(s, p, ":"@) {
            Some(p2) => match spec_parse_ann_list(s, p2) {
                Some((anns, p3)) => Some((VideoModel { video, annotations: anns }, p3)),
                None => None,
            },
            None => None,
        },
        None => None,
    }
}

/// A parsed entry always ends past where it began and inside the text.
pub proof fn lemma_parse_entry_progress(s: Seq<char>, pos: int)
    ensures
        spec_parse_entry(s, pos) matches Some(r) ==> pos < r.1 <= s.len(),
{
    lemma_parse_string_body_progress(s, pos + 1);
    if let Some((video, p)) = spec_parse_string(s, pos) {
        if let Some(p2) = spec_expect(s, p, ":"@) {
            if let Some(pb) = spec_expect(s, p2, "["@) {
                if !(pb < s.len() && s[pb] == ']') {
                    if let Some((items, p3)) = spec_parse_ann_items(s, pb) {
                        lemma_parse_ann_items_progress(s, pb);
                    }
                }
            }
        }
    }
}

/// Parsed annotation items always end past where they began and inside the
/// text.
pub proof fn lemma_parse_ann_items_progress(s: Seq<char>, pos: int)
    requires
        0 <= pos,
    ensures
        spec_parse_ann_items(s, pos) matches Some(r) ==> pos < r.1 <= s.len(),
    decreases s.len() - pos,
{
    lemma_parse_annotation_progress(s, pos);
    if let Some((a, p)) = spec_parse_annotation(s, pos) {
        if p < s.len() && s[p] == ',' {
            lemma_parse_ann_items_progress(s, p + 1);
        }
    }
}

/// The store entries, comma-separated.
pub open spec fn spec_parse_entry_items(s: Seq<char>, pos: int) -> Option<(Seq<VideoModel>, int)>
    decreases s.len() - pos,
    when 0 <= pos
    via spec_parse_entry_items_decreases
{
    match spec_parse_entry(s, pos) {
        Some((e, p)) => if p < s.len() && s[p] == ',' {
            match spec_parse_entry_items(s, p + 1) {
                Some((rest, p2)) => Some((seq![e] + rest, p2)),
                None => None,
            }
        } else {
            Some((seq![e], p))
        },
        None => None,
    }
}

#[via_fn]
proof fn spec_parse_entry_items_decreases(s: Seq<char>, pos: int) {
    lemma_parse_entry_progress(s, pos);
}

/// A (possibly empty) annotations object at `pos`.
pub open spec fn spec_parse_entries(s: Seq<char>, pos: int) -> Option<(Seq<VideoModel>, int)> {
    match spec_expect(s, pos, "{"@) {
        Some(p) => if p < s.len() && s[p] == '}' {
            Some((Seq::empty(), p + 1))
        } else {
            match spec_parse_entry_items(s, p) {
                Some((items, p2)) => match spec_expect(s, p2, "}"@) {
                    Some(p3) => Some((items, p3)),
                    None => None,
                },
                None => None,
            }
        },
        None => None,
    }
}

/// The whole manifest: all four fields in order, the entire text consumed,
/// the video keys pairwise distinct.
pub open spec fn spec_parse_manifest(s: Seq<char>) -> Option<ConfigModel> {
    match spec_expect(s, 0, "{\"video_folder\":"@) {
        Some(p1) => match spec_parse_string(s, p1) {
            Some((video_folder, p2)) => match spec_expect(s, p2, ",\"labels_folder\":"@) {
                Some(p3) => match spec_parse_string(s, p3) {
                    Some((labels_folder, p4)) => match spec_expect(s, p4, ",\"used_labels\":"@) {
                        Some(p5) => match spec_parse_label_list(s, p5) {
                            Some((used_labels, p6)) => match spec_expect(s, p6, ",\"annotations\":"@) {
                                Some(p7) => match spec_parse_entries(s, p7) {
                                    Some((entries, p8)) => match spec_expect(s, p8, "}"@) {
                                        Some(p9) => if p9 == s.len()
                                            && crate::store::distinct_videos(entries) {
                                            Some(
                                                ConfigModel {
                                                    video_folder,
                                                    labels_folder,
                                                    used_labels,
                                                    annotations: entries,
                                                },
                                            )
                                        } else {
                                            None
                                        },
                                        None => None,
                                    },
                                    None => None,
                                },
                                None => None,
                            },
                            None => None,
                        },
                        None => None,
                    },
                    None => None,
                },
                None => None,
            },
            None => None,
        },
        None => None,
    }
}

// ---------------------------------------------------------------------------
// Round trip: parsing what the encoder wrote gives the original back
// ---------------------------------------------------------------------------

/// A subrange equal to a concatenation splits into subranges equal to the
/// parts.
proof fn lemma_subrange_split(s: Seq<char>, pos: int, a: Seq<char>, b: Seq<char>)
    requires
        0 <= pos,
        pos + a.len() + b.len() <= s.len(),
        s.subrange(pos, pos + a.len() + b.len()) == a + b,
    ensures
        s.subrange(pos, pos + a.len()) == a,
        s.subrange(pos + a.len(), pos + a.len() + b.len()) == b,
{
    assert forall|i: int| 0 <= i < a.len() implies s.subrange(pos, pos + a.len())[i] == a[i] by {
        assert(s.subrange(pos, pos + a.len() + b.len())[i] == (a + b)[i]);
    }
    assert(s.subrange(pos, pos + a.len()) =~= a);
    assert forall|i: int| 0 <= i < b.len() implies s.subrange(
        pos + a.len(),
        pos + a.len() + b.len(),
    )[i] == b[i] by {
        assert(s.subrange(pos + a.len(), pos + a.len() + b.len())[i] == s[pos + a.len() + i]);
        assert(s.subrange(pos, pos + a.len() + b.len())[a.len() + i] == s[pos + a.len() + i]);
        assert((a + b)[a.len() + i] == b[i]);
    }
    assert(s.subrange(pos + a.len(), pos + a.len() + b.len()) =~= b);
}

/// `join_with` unfolded at the front.
proof fn lemma_join_front(parts: Seq<Seq<char>>, sep: Seq<char>)
    requires
        parts.len() >= 1,
    ensures
        parts.len() == 1 ==> join_with(parts, sep) == parts[0],
        parts.len() >= 2 ==> join_with(parts, sep) == parts[0] + sep + join_with(
            parts.drop_first(),
            sep,
        ),
    decreases parts.len(),
{
    if parts.len() >= 2 {
        let dl = parts.drop_last();
        let df = parts.drop_first();
        lemma_join_front(dl, sep);
        lemma_join_front(df, sep);
        assert(dl.drop_first() =~= df.drop_last());
        assert(df.last() == parts.last());
        assert(dl[0] == parts[0]);
        assert(df[0] == parts[1]);
        if parts.len() == 2 {
            assert(join_with(dl, sep) == dl[0]);
            assert(join_with(df, sep) == df[0]);
            assert(join_with(parts, sep) =~= parts[0] + sep + join_with(df, sep));
        } else {
            assert(join_with(dl, sep) == dl[0] + sep + join_with(dl.drop_first(), sep));
            assert(join_with(df, sep) == join_with(df.drop_last(), sep) + sep + df.last());
            assert(join_with(parts, sep) =~= parts[0] + sep + join_with(df, sep));
        }
    }
}

/// `esc_str` unfolded at the front.
proof fn lemma_esc_str_front(v: Seq<char>)
    requires
        v.len() >= 1,
    ensures
        esc_str(v) == esc_char(v[0]) + esc_str(v.drop_first()),
    decreases v.len(),
{
    if v.len() == 1 {
        assert(v.drop_last() =~= Seq::<char>::empty());
        assert(v.drop_first() =~= Seq::<char>::empty());
        assert(esc_str(Seq::<char>::empty()) =~= Seq::<char>::empty());
        assert(v.last() == v[0]);
        assert(esc_str(v) =~= esc_char(v[0]) + esc_str(v.drop_first()));
    } else {
        let dl = v.drop_last();
        let df = v.drop_first();
        lemma_esc_str_front(dl);
        assert(dl.drop_first() =~= df.drop_last());
        assert(df.last() == v.last());
        assert(dl[0] == v[0]);
        assert(esc_str(df) == esc_str(df.drop_last()) + esc_char(df.last()));
        assert(esc_str(v) =~= esc_char(v[0]) + esc_str(df));
    }
}

/// Parsing a string body over `esc_str(v)` followed by a closing quote gives
/// back `v` and stops just past the quote.
proof fn lemma_parse_string_body_enc(s: Seq<char>, pos: int, v: Seq<char>)
    requires
        0 <= pos,
        pos + esc_str(v).len() + 1 <= s.len(),
        s.subrange(pos, pos + esc_str(v).len() + 1) == esc_str(v) + seq!['"'],
    ensures
        spec_parse_string_body(s, pos) == Some((v, pos + esc_str(v).len() + 1)),
    decreases v.len(),
{
    if v.len() == 0 {
        assert(s.subrange(pos, pos + 1)[0] == (esc_str(v) + seq!['"'])[0]);
        assert(s[pos] == '"');
        assert(spec_parse_string_body(s, pos) == Some((Seq::<char>::empty(), pos + 1)));
        assert(v =~= Seq::<char>::empty());
    } else {
        let c0 = v[0];
        let e0 = esc_char(c0);
        let rest = v.drop_first();
        lemma_esc_str_front(v);
        assert(esc_str(v) + seq!['"'] =~= e0 + (esc_str(rest) + seq!['"']));
        lemma_subrange_split(s, pos, e0, esc_str(rest) + seq!['"']);
        let p2 = pos + e0.len();
        lemma_parse_string_body_enc(s, p2, rest);
        if c0 == '"' || c0 == '\\' || c0 == '\n' || c0 == '\r' || c0 == '\t' {
            assert(e0.len() == 2);
            assert(s.subrange(pos, pos + 2)[0] == e0[0]);
            assert(s.subrange(pos, pos + 2)[1] == e0[1]);
            assert(s[pos] == '\\');
            assert(unescape_char(s[pos + 1]) == Some(c0));
            assert(spec_parse_string_body(s, pos) == Some(
                (seq![c0] + rest, pos + esc_str(v).len() + 1),
            ));
            assert(seq![c0] + rest =~= v);
        } else {
            assert(e0.len() == 1);
            assert(s.subrange(pos, pos + 1)[0] == e0[0]);
            assert(s[pos] == c0);
            assert(spec_parse_string_body(s, pos) == Some(
                (seq![c0] + rest, pos + esc_str(v).len() + 1),
            ));
            assert(seq![c0] + rest =~= v);
        }
    }
}

/// Parsing at an encoded string gives back exactly that string.
proof fn lemma_parse_string_enc(s: Seq<char>, pos: int, v: Seq<char>)
    requires
        0 <= pos,
        pos + enc_str(v).len() <= s.len(),
        s.subrange(pos, pos + enc_str(v).len()) == enc_str(v),
    ensures
        spec_parse_string(s, pos) == Some((v, pos + enc_str(v).len())),
{
    assert(enc_str(v) =~= seq!['"'] + (esc_str(v) + seq!['"']));
    lemma_subrange_split(s, pos, seq!['"'], esc_str(v) + seq!['"']);
    assert(s.subrange(pos, pos + 1)[0] == '"');
    assert(s[pos] == '"');
    lemma_parse_string_body_enc(s, pos + 1, v);
}

/// The decimal digits of `n` are digits, their value is `n`, and there is at
/// least one of them.
proof fn lemma_dec_digits(n: int)
    requires
        n >= 0,
    ensures
        dec_digits(n).len() >= 1,
        forall|j: int| 0 <= j < dec_digits(n).len() ==> is_digit(#[trigger] dec_digits(n)[j]),
        digits_value(dec_digits(n)) == n,
    decreases n,
{
    if n < 10 {
        assert(is_digit(digit_char(n)));
        assert(digit_val(digit_char(n)) == n);
        assert(dec_digits(n).drop_last() =~= Seq::<char>::empty());
        assert(digits_value(dec_digits(n)) == digits_value(Seq::<char>::empty()) * 10 + n);
    } else {
        lemma_dec_digits(n / 10);
        let d = dec_digits(n);
        assert(d.drop_last() =~= dec_digits(n / 10));
        assert(d.last() == digit_char(n % 10));
        assert(is_digit(digit_char(n % 10)));
        assert(digit_val(digit_char(n % 10)) == n % 10);
        assert(digits_value(d) == (n / 10) * 10 + n % 10);
        assert forall|j: int| 0 <= j < d.len() implies is_digit(#[trigger] d[j]) by {
            if j < d.len() - 1 {
                assert(d[j] == dec_digits(n / 10)[j]);
            }
        }
    }
}

/// Parsing at the decimal digits of `n`, with no digit following them, gives
/// back exactly `n`.
proof fn lemma_parse_u32_enc(s: Seq<char>, pos: int, n: u32)
    requires
        0 <= pos,
        pos + dec_digits(n as int).len() <= s.len(),
        s.subrange(pos, pos + dec_digits(n as int).len()) == dec_digits(n as int),
        pos + dec_digits(n as int).len() == s.len() || !is_digit(
            s[pos + dec_digits(n as int).len()],
        ),
    ensures
        spec_parse_u32(s, pos) == Some((n, pos + dec_digits(n as int).len())),
{
    let d = dec_digits(n as int);
    lemma_dec_digits(n as int);
    assert forall|j: int| pos <= j < pos + d.len() implies is_digit(s[j]) by {
        assert(s.subrange(pos, pos + d.len())[j - pos] == d[j - pos]);
    }
    lemma_digit_run_split(s, pos, pos + d.len());
    assert(digit_run(s, pos + d.len()) == 0);
    assert(digit_run(s, pos) == d.len());
    assert(digits_value(s.subrange(pos, pos + d.len())) == n);
}

/// Parsing at an encoded annotation gives back exactly that annotation.
proof fn lemma_parse_annotation_enc(s: Seq<char>, pos: int, a: AnnotationModel)
    requires
        a.wf(),
        0 <= pos,
        pos + enc_ann(a).len() <= s.len(),
        s.subrange(pos, pos + enc_ann(a).len()) == enc_ann(a),
    ensures
        spec_parse_annotation(s, pos) == Some((a, pos + enc_ann(a).len())),
{
    let k1 = "{\"start_frame\":"@;
    let d1 = dec_digits(a.start_frame as int);
    let k2 = ",\"end_frame\":"@;
    let d2 = dec_digits(a.end_frame as int);
    let k3 = ",\"label\":"@;
    let l = enc_str(a.label);
    let k4 = "}"@;
    reveal_strlit("{\"start_frame\":");
    reveal_strlit(",\"end_frame\":");
    reveal_strlit(",\"label\":");
    reveal_strlit("}");
    assert(enc_ann(a) =~= k1 + (d1 + (k2 + (d2 + (k3 + (l + k4))))));
    lemma_subrange_split(s, pos, k1, d1 + (k2 + (d2 + (k3 + (l + k4)))));
    let p1 = pos + k1.len();
    assert(spec_expect(s, pos, k1) == Some(p1));
    lemma_subrange_split(s, p1, d1, k2 + (d2 + (k3 + (l + k4))));
    let p2 = p1 + d1.len();
    assert(s.subrange(p2, p2 + k2.len())[0] == k2[0]);
    assert(s[p2] == ',');
    assert(!is_digit(','));
    lemma_parse_u32_enc(s, p1, a.start_frame);
    lemma_subrange_split(s, p2, k2, d2 + (k3 + (l + k4)));
    assert(spec_expect(s, p2, k2) == Some(p2 + k2.len()));
    let p3 = p2 + k2.len();
    lemma_subrange_split(s, p3, d2, k3 + (l + k4));
    let p4 = p3 + d2.len();
    assert(s.subrange(p4, p4 + k3.len())[0] == k3[0]);
    assert(s[p4] == ',');
    lemma_parse_u32_enc(s, p3, a.end_frame);
    lemma_subrange_split(s, p4, k3, l + k4);
    assert(spec_expect(s, p4, k3) == Some(p4 + k3.len()));
    let p5 = p4 + k3.len();
    lemma_subrange_split(s, p5, l, k4);
    lemma_parse_string_enc(s, p5, a.label);
    let p6 = p5 + l.len();
    assert(spec_expect(s, p6, k4) == Some(p6 + k4.len()));
    let p7 = p6 + k4.len();
    assert(p7 == pos + enc_ann(a).len());
    assert(spec_parse_annotation(s, pos) == Some((a, p7)));
}

/// Parsing at encoded, comma-joined annotations, with no comma directly
/// after them, gives back exactly those annotations.
proof fn lemma_parse_ann_items_enc(s: Seq<char>, pos: int, items: Seq<AnnotationModel>)
    requires
        items.len() >= 1,
        forall|j: int| 0 <= j < items.len() ==> (#[trigger] items[j]).wf(),
        0 <= pos,
        pos + join_with(items.map_values(|a: AnnotationModel| enc_ann(a)), ","@).len() <= s.len(),
        s.subrange(
            pos,
            pos + join_with(items.map_values(|a: AnnotationModel| enc_ann(a)), ","@).len(),
        ) == join_with(items.map_values(|a: AnnotationModel| enc_ann(a)), ","@),
        pos + join_with(items.map_values(|a: AnnotationModel| enc_ann(a)), ","@).len() == s.len()
            || s[pos + join_with(items.map_values(|a: AnnotationModel| enc_ann(a)), ","@).len()]
            != ',',
    ensures
        spec_parse_ann_items(s, pos) == Some(
            (items, pos + join_with(items.map_values(|a: AnnotationModel| enc_ann(a)), ","@).len()),
        ),
    decreases items.len(),
{
    reveal_strlit(",");
    let parts = items.map_values(|a: AnnotationModel| enc_ann(a));
    let j = join_with(parts, ","@);
    lemma_join_front(parts, ","@);
    assert(parts[0] == enc_ann(items[0]));
    if items.len() == 1 {
        lemma_parse_annotation_enc(s, pos, items[0]);
        let p = pos + enc_ann(items[0]).len();
        assert(spec_parse_ann_items(s, pos) == Some((seq![items[0]], p)));
        assert(seq![items[0]] =~= items);
    } else {
        let rest = items.drop_first();
        let parts_rest = rest.map_values(|a: AnnotationModel| enc_ann(a));
        assert(parts.drop_first() =~= parts_rest);
        let j2 = join_with(parts_rest, ","@);
        assert(j =~= enc_ann(items[0]) + (","@ + j2));
        lemma_subrange_split(s, pos, enc_ann(items[0]), ","@ + j2);
        let p = pos + enc_ann(items[0]).len();
        lemma_parse_annotation_enc(s, pos, items[0]);
        lemma_subrange_split(s, p, ","@, j2);
        assert(s.subrange(p, p + 1)[0] == ","@[0]);
        assert(s[p] == ',');
        assert(p < s.len());
        lemma_parse_ann_items_enc(s, p + 1, rest);
        assert(spec_parse_ann_items(s, pos) == Some((seq![items[0]] + rest, pos + j.len())));
        assert(seq![items[0]] + rest =~= items);
    }
}

/// Parsing at an encoded annotation array gives back exactly its
/// annotations.
proof fn lemma_parse_ann_list_enc(s: Seq<char>, pos: int, anns: Seq<AnnotationModel>)
    requires
        forall|j: int| 0 <= j < anns.len() ==> (#[trigger] anns[j]).wf(),
        0 <= pos,
        pos + enc_ann_list(anns).len() <= s.len(),
        s.subrange(pos, pos + enc_ann_list(anns).len()) == enc_ann_list(anns),
    ensures
        spec_parse_ann_list(s, pos) == Some((anns, pos + enc_ann_list(anns).len())),
{
    reveal_strlit("[");
    reveal_strlit("]");
    reveal_strlit("{\"start_frame\":");
    assert("["@ =~= seq!['[']);
    assert("]"@ =~= seq![']']);
    let parts = anns.map_values(|a: AnnotationModel| enc_ann(a));
    let j = join_with(parts, ","@);
    assert(enc_ann_list(anns) =~= seq!['['] + (j + seq![']']));
    lemma_subrange_split(s, pos, seq!['['], j + seq![']']);
    assert(s.subrange(pos, pos + 1)[0] == '[');
    assert(s[pos] == '[');
    assert(spec_expect(s, pos, "["@) == Some(pos + 1));
    let p = pos + 1;
    lemma_subrange_split(s, p, j, seq![']']);
    assert(s.subrange(p + j.len(), p + j.len() + 1)[0] == ']');
    assert(s[p + j.len()] == ']');
    if anns.len() == 0 {
        assert(j =~= Seq::<char>::empty());
        assert(s[p] == ']');
        assert(spec_parse_ann_list(s, pos) == Some(
            (Seq::<AnnotationModel>::empty(), p + 1),
        ));
        assert(anns =~= Seq::<AnnotationModel>::empty());
    } else {
        lemma_join_front(parts, ","@);
        assert(parts[0] == enc_ann(anns[0]));
        assert(j.subrange(0, parts[0].len() as int) =~= parts[0]) by {
            if parts.len() == 1 {
            } else {
                assert(j == parts[0] + ","@ + join_with(parts.drop_first(), ","@));
            }
            assert forall|i: int| 0 <= i < parts[0].len() implies j[i] == parts[0][i] by {}
        }
        assert(j[0] == enc_ann(anns[0])[0]);
        assert(enc_ann(anns[0])[0] == '{');
        assert(s.subrange(p, p + j.len())[0] == j[0]);
        assert(s[p] == '{');
        assert(s[p] != ']');
        assert(p + j.len() == s.len() || s[p + j.len()] != ',');
        lemma_parse_ann_items_enc(s, p, anns);
        assert(spec_expect(s, p + j.len(), "]"@) == Some(p + j.len() + 1));
        assert(spec_parse_ann_list(s, pos) == Some((anns, pos + enc_ann_list(anns).len())));
    }
}

/// Parsing at encoded, comma-joined strings, with no comma directly after
/// them, gives back exactly those strings.
proof fn lemma_parse_label_items_enc(s: Seq<char>, pos: int, items: Seq<Seq<char>>)
    requires
        items.len() >= 1,
        0 <= pos,
        pos + join_with(items.map_values(|l: Seq<char>| enc_str(l)), ","@).len() <= s.len(),
        s.subrange(
            pos,
            pos + join_with(items.map_values(|l: Seq<char>| enc_str(l)), ","@).len(),
        ) == join_with(items.map_values(|l: Seq<char>| enc_str(l)), ","@),
        pos + join_with(items.map_values(|l: Seq<char>| enc_str(l)), ","@).len() == s.len() || s[pos
            + join_with(items.map_values(|l: Seq<char>| enc_str(l)), ","@).len()] != ',',
    ensures
        spec_parse_label_items(s, pos) == Some(
            (items, pos + join_with(items.map_values(|l: Seq<char>| enc_str(l)), ","@).len()),
        ),
    decreases items.len(),
{
    reveal_strlit(",");
    let parts = items.map_values(|l: Seq<char>| enc_str(l));
    let j = join_with(parts, ","@);
    lemma_join_front(parts, ","@);
    assert(parts[0] == enc_str(items[0]));
    if items.len() == 1 {
        lemma_parse_string_enc(s, pos, items[0]);
        let p = pos + enc_str(items[0]).len();
        assert(spec_parse_label_items(s, pos) == Some((seq![items[0]], p)));
        assert(seq![items[0]] =~= items);
    } else {
        let rest = items.drop_first();
        let parts_rest = rest.map_values(|l: Seq<char>| enc_str(l));
        assert(parts.drop_first() =~= parts_rest);
        let j2 = join_with(parts_rest, ","@);
        assert(j =~= enc_str(items[0]) + (","@ + j2));
        lemma_subrange_split(s, pos, enc_str(items[0]), ","@ + j2);
        let p = pos + enc_str(items[0]).len();
        lemma_parse_string_enc(s, pos, items[0]);
        lemma_subrange_split(s, p, ","@, j2);
        assert(s.subrange(p, p + 1)[0] == ","@[0]);
        assert(s[p] == ',');
        assert(p < s.len());
        lemma_parse_label_items_enc(s, p + 1, rest);
        assert(spec_parse_label_items(s, pos) == Some((seq![items[0]] + rest, pos + j.len())));
        assert(seq![items[0]] + rest =~= items);
    }
}

/// Parsing at an encoded string array gives back exactly its strings.
proof fn lemma_parse_label_list_enc(s: Seq<char>, pos: int, labels: Seq<Seq<char>>)
    requires
        0 <= pos,
        pos + enc_label_list(labels).len() <= s.len(),
        s.subrange(pos, pos + enc_label_list(labels).len()) == enc_label_list(labels),
    ensures
        spec_parse_label_list(s, pos) == Some((labels, pos + enc_label_list(labels).len())),
{
    reveal_strlit("[");
    reveal_strlit("]");
    assert("["@ =~= seq!['[']);
    assert("]"@ =~= seq![']']);
    let parts = labels.map_values(|l: Seq<char>| enc_str(l));
    let j = join_with(parts, ","@);
    assert(enc_label_list(labels) =~= seq!['['] + (j + seq![']']));
    lemma_subrange_split(s, pos, seq!['['], j + seq![']']);
    assert(s.subrange(pos, pos + 1)[0] == '[');
    assert(s[pos] == '[');
    assert(spec_expect(s, pos, "["@) == Some(pos + 1));
    let p = pos + 1;
    lemma_subrange_split(s, p, j, seq![']']);
    assert(s.subrange(p + j.len(), p + j.len() + 1)[0] == ']');
    assert(s[p + j.len()] == ']');
    if labels.len() == 0 {
        assert(j =~= Seq::<char>::empty());
        assert(s[p] == ']');
        assert(spec_parse_label_list(s, pos) == Some((Seq::<Seq<char>>::empty(), p + 1)));
        assert(labels =~= Seq::<Seq<char>>::empty());
    } else {
        lemma_join_front(parts, ","@);
        assert(parts[0] == enc_str(labels[0]));
        assert(j.subrange(0, parts[0].len() as int) =~= parts[0]) by {
            if parts.len() == 1 {
            } else {
                assert(j == parts[0] + ","@ + join_with(parts.drop_first(), ","@));
            }
            assert forall|i: int| 0 <= i < parts[0].len() implies j[i] == parts[0][i] by {}
        }
        assert(j[0] == enc_str(labels[0])[0]);
        assert(enc_str(labels[0])[0] == '"');
        assert(s.subrange(p, p + j.len())[0] == j[0]);
        assert(s[p] == '"');
        assert(s[p] != ']');
        assert(p + j.len() == s.len() || s[p + j.len()] != ',');
        lemma_parse_label_items_enc(s, p, labels);
        assert(spec_expect(s, p + j.len(), "]"@) == Some(p + j.len() + 1));
        assert(spec_parse_label_list(s, pos) == Some(
            (labels, pos + enc_label_list(labels).len()),
        ));
    }
}

/// Parsing at an encoded entry gives back exactly that entry.
proof fn lemma_parse_entry_enc(s: Seq<char>, pos: int, e: VideoModel)
    requires
        forall|j: int| 0 <= j < e.annotations.len() ==> (#[trigger] e.annotations[j]).wf(),
        0 <= pos,
        pos + enc_entry(e).len() <= s.len(),
        s.subrange(pos, pos + enc_entry(e).len()) == enc_entry(e),
    ensures
        spec_parse_entry(s, pos) == Some((e, pos + enc_entry(e).len())),
{
    reveal_strlit(":");
    assert(":"@ =~= seq![':']);
    assert(enc_entry(e) =~= enc_str(e.video) + (seq![':'] + enc_ann_list(e.annotations)));
    lemma_subrange_split(s, pos, enc_str(e.video), seq![':'] + enc_ann_list(e.annotations));
    lemma_parse_string_enc(s, pos, e.video);
    let p = pos + enc_str(e.video).len();
    lemma_subrange_split(s, p, seq![':'], enc_ann_list(e.annotations));
    assert(s.subrange(p, p + 1) =~= ":"@);
    assert(spec_expect(s, p, ":"@) == Some(p + 1));
    lemma_parse_ann_list_enc(s, p + 1, e.annotations);
    assert(spec_parse_entry(s, pos) == Some(
        (VideoModel { video: e.video, annotations: e.annotations }, pos + enc_entry(e).len()),
    ));
    assert(VideoModel { video: e.video, annotations: e.annotations } =~~= e);
}

/// Parsing at encoded, comma-joined entries, with no comma directly after
/// them, gives back exactly those entries.
proof fn lemma_parse_entry_items_enc(s: Seq<char>, pos: int, items: Seq<VideoModel>)
    requires
        items.len() >= 1,
        crate::store::all_annotations_wf(items),
        0 <= pos,
        pos + join_with(items.map_values(|e: VideoModel| enc_entry(e)), ","@).len() <= s.len(),
        s.subrange(
            pos,
            pos + join_with(items.map_values(|e: VideoModel| enc_entry(e)), ","@).len(),
        ) == join_with(items.map_values(|e: VideoModel| enc_entry(e)), ","@),
        pos + join_with(items.map_values(|e: VideoModel| enc_entry(e)), ","@).len() == s.len()
            || s[pos + join_with(items.map_values(|e: VideoModel| enc_entry(e)), ","@).len()]
            != ',',
    ensures
        spec_parse_entry_items(s, pos) == Some(
            (items, pos + join_with(items.map_values(|e: VideoModel| enc_entry(e)), ","@).len()),
        ),
    decreases items.len(),
{
    reveal_strlit(",");
    let parts = items.map_values(|e: VideoModel| enc_entry(e));
    let j = join_with(parts, ","@);
    lemma_join_front(parts, ","@);
    assert(parts[0] == enc_entry(items[0]));
    assert(forall|k: int| 0 <= k < items[0].annotations.len() ==> (#[trigger] items[0].annotations[k]).wf());
    if items.len() == 1 {
        lemma_parse_entry_enc(s, pos, items[0]);
        let p = pos + enc_entry(items[0]).len();
        assert(spec_parse_entry_items(s, pos) == Some((seq![items[0]], p)));
        assert(seq![items[0]] =~= items);
    } else {
        let rest = items.drop_first();
        let parts_rest = rest.map_values(|e: VideoModel| enc_entry(e));
        assert(parts.drop_first() =~= parts_rest);
        let j2 = join_with(parts_rest, ","@);
        assert(j =~= enc_entry(items[0]) + (","@ + j2));
        lemma_subrange_split(s, pos, enc_entry(items[0]), ","@ + j2);
        let p = pos + enc_entry(items[0]).len();
        lemma_parse_entry_enc(s, pos, items[0]);
        lemma_subrange_split(s, p, ","@, j2);
        assert(s.subrange(p, p + 1)[0] == ","@[0]);
        assert(s[p] == ',');
        assert(p < s.len());
        assert(crate::store::all_annotations_wf(rest)) by {
            assert forall|a: int, b: int|
                0 <= a < rest.len() && 0 <= b < rest[a].annotations.len() implies (
            #[trigger] rest[a].annotations[b]).wf() by {
                assert(items[a + 1].annotations[b].wf());
            }
        }
        lemma_parse_entry_items_enc(s, p + 1, rest);
        assert(spec_parse_entry_items(s, pos) == Some((seq![items[0]] + rest, pos + j.len())));
        assert(seq![items[0]] + rest =~= items);
    }
}

/// Parsing at an encoded annotations object gives back exactly its entries.
proof fn lemma_parse_entries_enc(s: Seq<char>, pos: int, entries: Seq<VideoModel>)
    requires
        crate::store::all_annotations_wf(entries),
        0 <= pos,
        pos + enc_entries(entries).len() <= s.len(),
        s.subrange(pos, pos + enc_entries(entries).len()) == enc_entries(entries),
    ensures
        spec_parse_entries(s, pos) == Some((entries, pos + enc_entries(entries).len())),
{
    reveal_strlit("{");
    reveal_strlit("}");
    assert("{"@ =~= seq!['{']);
    assert("}"@ =~= seq!['}']);
    let parts = entries.map_values(|e: VideoModel| enc_entry(e));
    let j = join_with(parts, ","@);
    assert(enc_entries(entries) =~= seq!['{'] + (j + seq!['}']));
    lemma_subrange_split(s, pos, seq!['{'], j + seq!['}']);
    assert(s.subrange(pos, pos + 1)[0] == '{');
    assert(s[pos] == '{');
    assert(spec_expect(s, pos, "{"@) == Some(pos + 1));
    let p = pos + 1;
    lemma_subrange_split(s, p, j, seq!['}']);
    assert(s.subrange(p + j.len(), p + j.len() + 1)[0] == '}');
    assert(s[p + j.len()] == '}');
    if entries.len() == 0 {
        assert(j =~= Seq::<char>::empty());
        assert(s[p] == '}');
        assert(spec_parse_entries(s, pos) == Some((Seq::<VideoModel>::empty(), p + 1)));
        assert(entries =~= Seq::<VideoModel>::empty());
    } else {
        lemma_join_front(parts, ","@);
        assert(parts[0] == enc_entry(entries[0]));
        assert(j.subrange(0, parts[0].len() as int) =~= parts[0]) by {
            if parts.len() == 1 {
            } else {
                assert(j == parts[0] + ","@ + join_with(parts.drop_first(), ","@));
            }
            assert forall|i: int| 0 <= i < parts[0].len() implies j[i] == parts[0][i] by {}
        }
        assert(j[0] == enc_entry(entries[0])[0]);
        assert(enc_entry(entries[0])[0] == enc_str(entries[0].video)[0]);
        assert(enc_str(entries[0].video)[0] == '"');
        assert(s.subrange(p, p + j.len())[0] == j[0]);
        assert(s[p] == '"');
        assert(s[p] != '}');
        assert(p + j.len() == s.len() || s[p + j.len()] != ',');
        lemma_parse_entry_items_enc(s, p, entries);
        assert(spec_expect(s, p + j.len(), "}"@) == Some(p + j.len() + 1));
        assert(spec_parse_entries(s, pos) == Some(
            (entries, pos + enc_entries(entries).len()),
        ));
    }
}

/// The manifest text splits into its nine segments: each stands verbatim at
/// its position.
#[verifier::spinoff_prover]
#[verifier::rlimit(100)]
proof fn lemma_manifest_segments(c: ConfigModel)
    ensures
        ({
            let s = spec_encode_manifest(c);
            let k1 = "{\"video_folder\":"@;
            let e1 = enc_str(c.video_folder);
            let k2 = ",\"labels_folder\":"@;
            let e2 = enc_str(c.labels_folder);
            let k3 = ",\"used_labels\":"@;
            let e3 = enc_label_list(c.used_labels);
            let k4 = ",\"annotations\":"@;
            let e4 = enc_entries(c.annotations);
            let k5 = "}"@;
            let p1 = k1.len() as int;
            let p2 = p1 + e1.len();
            let p3 = p2 + k2.len();
            let p4 = p3 + e2.len();
            let p5 = p4 + k3.len();
            let p6 = p5 + e3.len();
            let p7 = p6 + k4.len();
            let p8 = p7 + e4.len();
            &&& s.len() == p8 + k5.len()
            &&& s.subrange(0, p1) == k1
            &&& s.subrange(p1, p2) == e1
            &&& s.subrange(p2, p3) == k2
            &&& s.subrange(p3, p4) == e2
            &&& s.subrange(p4, p5) == k3
            &&& s.subrange(p5, p6) == e3
            &&& s.subrange(p6, p7) == k4
            &&& s.subrange(p7, p8) == e4
            &&& s.subrange(p8, p8 + k5.len()) == k5
        }),
{
    let s = spec_encode_manifest(c);
    let k1 = "{\"video_folder\":"@;
    let e1 = enc_str(c.video_folder);
    let k2 = ",\"labels_folder\":"@;
    let e2 = enc_str(c.labels_folder);
    let k3 = ",\"used_labels\":"@;
    let e3 = enc_label_list(c.used_labels);
    let k4 = ",\"annotations\":"@;
    let e4 = enc_entries(c.annotations);
    let k5 = "}"@;
    assert(s =~= k1 + (e1 + (k2 + (e2 + (k3 + (e3 + (k4 + (e4 + k5))))))));
    assert(s.subrange(0, s.len() as int) =~= s);
    lemma_subrange_split(s, 0, k1, e1 + (k2 + (e2 + (k3 + (e3 + (k4 + (e4 + k5)))))));
    let p1 = k1.len() as int;
    lemma_subrange_split(s, p1, e1, k2 + (e2 + (k3 + (e3 + (k4 + (e4 + k5))))));
    let p2 = p1 + e1.len();
    lemma_subrange_split(s, p2, k2, e2 + (k3 + (e3 + (k4 + (e4 + k5)))));
    let p3 = p2 + k2.len();
    lemma_subrange_split(s, p3, e2, k3 + (e3 + (k4 + (e4 + k5))));
    let p4 = p3 + e2.len();
    lemma_subrange_split(s, p4, k3, e3 + (k4 + (e4 + k5)));
    let p5 = p4 + k3.len();
    lemma_subrange_split(s, p5, e3, k4 + (e4 + k5));
    let p6 = p5 + e3.len();
    lemma_subrange_split(s, p6, k4, e4 + k5);
    let p7 = p6 + k4.len();
    lemma_subrange_split(s, p7, e4, k5);
}

/// Round trip at the text level: parsing the manifest the encoder wrote for
/// a well-formed configuration gives exactly that configuration back.
#[verifier::spinoff_prover]
#[verifier::rlimit(100)]
pub proof fn lemma_manifest_round_trip(c: ConfigModel)
    requires
        c.wf(),
    ensures
        spec_parse_manifest(spec_encode_manifest(c)) == Some(c),
{
    let s = spec_encode_manifest(c);
    let k1 = "{\"video_folder\":"@;
    let e1 = enc_str(c.video_folder);
    let k2 = ",\"labels_folder\":"@;
    let e2 = enc_str(c.labels_folder);
    let k3 = ",\"used_labels\":"@;
    let e3 = enc_label_list(c.used_labels);
    let k4 = ",\"annotations\":"@;
    let e4 = enc_entries(c.annotations);
    let k5 = "}"@;
    lemma_manifest_segments(c);
    let p1 = k1.len() as int;
    let p2 = p1 + e1.len();
    let p3 = p2 + k2.len();
    let p4 = p3 + e2.len();
    let p5 = p4 + k3.len();
    let p6 = p5 + e3.len();
    let p7 = p6 + k4.len();
    let p8 = p7 + e4.len();
    let p9 = p8 + k5.len();
    assert(spec_expect(s, 0, k1) == Some(p1));
    lemma_parse_string_enc(s, p1, c.video_folder);
    assert(spec_expect(s, p2, k2) == Some(p3));
    lemma_parse_string_enc(s, p3, c.labels_folder);
    assert(spec_expect(s, p4, k3) == Some(p5));
    lemma_parse_label_list_enc(s, p5, c.used_labels);
    assert(spec_expect(s, p6, k4) == Some(p7));
    lemma_parse_entries_enc(s, p7, c.annotations);
    assert(spec_expect(s, p8, k5) == Some(p9));
    assert(p9 == s.len());
    assert(spec_parse_manifest(s) == Some(
        ConfigModel {
            video_folder: c.video_folder,
            labels_folder: c.labels_folder,
            used_labels: c.used_labels,
            annotations: c.annotations,
        },
    ));
    assert(ConfigModel {
        video_folder: c.video_folder,
        labels_folder: c.labels_folder,
        used_labels: c.used_labels,
        annotations: c.annotations,
    } =~~= c);
}

// ---------------------------------------------------------------------------
// Parsing, executable
// ---------------------------------------------------------------------------

/// Why a manifest could not be loaded.
#[derive(Debug, PartialEq, Eq)]
pub enum ProjectLoadError {
    /// The manifest file could not be read at all.
    Missing,
    /// The manifest text is not a well-formed canonical manifest.
    Malformed,
}

/// Consumes `lit` verbatim at `pos`.
fn expect_lit(cs: &Vec<char>, pos: usize, lit: &str) -> (r: Option<usize>)
    ensures
        match r {
            Some(p) => spec_expect(cs@, pos as int, lit@) == Some(p as int),
            None => spec_expect(cs@, pos as int, lit@) is None,
        },
{
    let lit_cs = chars_vec(lit);
    let n = cs.len();
    if pos > n || lit_cs.len() > n - pos {
        return None;
    }
    let mut j: usize = 0;
    while j < lit_cs.len()
        invariant
            lit_cs@ == lit@,
            n == cs@.len(),
            pos + lit_cs@.len() <= n,
            j <= lit_cs@.len(),
            forall|k: int| 0 <= k < j ==> cs@[pos + k] == lit@[k],
        decreases lit_cs.len() - j,
    {
        if cs[pos + j] != lit_cs[j] {
            proof {
                let sub = cs@.subrange(pos as int, pos as int + lit@.len());
                assert(sub[j as int] == cs@[pos + j as int]);
                assert(sub != lit@);
            }
            return None;
        }
        j = j + 1;
    }
    proof {
        assert(cs@.subrange(pos as int, pos as int + lit@.len()) =~= lit@);
    }
    Some(pos + lit_cs.len())
}

/// A quoted string at `pos`, escapes decoded.
fn parse_string_at(cs: &Vec<char>, pos: usize) -> (r: Option<(String, usize)>)
    ensures
        match r {
            Some(v) => spec_parse_string(cs@, pos as int) == Some((v.0@, v.1 as int)),
            None => spec_parse_string(cs@, pos as int) is None,
        },
{
    if pos >= cs.len() || cs[pos] != '"' {
        return None;
    }
    let mut buf = String::new();
    let mut cur: usize = pos + 1;
    loop
        invariant
            pos < cs@.len(),
            cs@[pos as int] == '"',
            pos < cur <= cs@.len(),
            spec_parse_string_body(cs@, pos as int + 1) == (match spec_parse_string_body(
                cs@,
                cur as int,
            ) {
                Some(r2) => Some((buf@ + r2.0, r2.1)),
                None => None::<(Seq<char>, int)>,
            }),
        decreases cs@.len() - cur,
    {
        if cur >= cs.len() {
            return None;
        }
        let c = cs[cur];
        if c == '"' {
            proof {
                assert(spec_parse_string_body(cs@, cur as int) == Some(
                    (Seq::<char>::empty(), cur as int + 1),
                ));
                assert(buf@ + Seq::<char>::empty() =~= buf@);
                assert(spec_parse_string_body(cs@, pos as int + 1) == Some(
                    (buf@, cur as int + 1),
                ));
            }
            return Some((buf, cur + 1));
        } else if c == '\\' {
            if cur + 1 >= cs.len() {
                return None;
            }
            let e = cs[cur + 1];
            let decoded: char = if e == '"' {
                '"'
            } else if e == '\\' {
                '\\'
            } else if e == 'n' {
                '\n'
            } else if e == 'r' {
                '\r'
            } else if e == 't' {
                '\t'
            } else {
                return None;
            };
            let ghost pre = buf@;
            push_char(&mut buf, decoded);
            proof {
                assert(unescape_char(cs@[cur as int + 1]) == Some(decoded));
                assert(buf@ =~= pre.push(decoded));
                if let Some(r2) = spec_parse_string_body(cs@, cur as int + 2) {
                    assert(pre + (seq![decoded] + r2.0) =~= buf@ + r2.0);
                }
            }
            cur = cur + 2;
        } else {
            let ghost pre = buf@;
            push_char(&mut buf, c);
            proof {
                assert(buf@ =~= pre.push(c));
                if let Some(r2) = spec_parse_string_body(cs@, cur as int + 1) {
                    assert(pre + (seq![c] + r2.0) =~= buf@ + r2.0);
                }
            }
            cur = cur + 1;
        }
    }
}

/// Every position of a digit run holds a digit, and the run ends at the end
/// of the text or before a non-digit.
proof fn lemma_digit_run_split(s: Seq<char>, pos: int, t: int)
    requires
        0 <= pos <= t <= s.len(),
        forall|j: int| pos <= j < t ==> is_digit(s[j]),
    ensures
        digit_run(s, pos) == t - pos + digit_run(s, t),
    decreases t - pos,
{
    if pos < t {
        assert(is_digit(s[pos]));
        lemma_digit_run_split(s, pos + 1, t);
    }
}

/// The value of a digit sequence is never negative and never shrinks as the
/// sequence extends.
proof fn lemma_digits_value_extend(s: Seq<char>, pos: int, a: int, b: int)
    requires
        0 <= pos <= a <= b <= s.len(),
        forall|j: int| pos <= j < b ==> is_digit(s[j]),
    ensures
        digits_value(s.subrange(pos, a)) >= 0,
        digits_value(s.subrange(pos, b)) >= digits_value(s.subrange(pos, a)),
    decreases b - a,
{
    lemma_digits_value_nonneg(s, pos, a);
    if a < b {
        lemma_digits_value_extend(s, pos, a + 1, b);
        let da = s.subrange(pos, a);
        let db = s.subrange(pos, a + 1);
        assert(db.drop_last() =~= da);
        assert(is_digit(db.last()));
        lemma_digits_value_nonneg(s, pos, a);
    }
}

proof fn lemma_digits_value_nonneg(s: Seq<char>, pos: int, a: int)
    requires
        0 <= pos <= a <= s.len(),
        forall|j: int| pos <= j < a ==> is_digit(s[j]),
    ensures
        digits_value(s.subrange(pos, a)) >= 0,
    decreases a - pos,
{
    if pos < a {
        lemma_digits_value_nonneg(s, pos, a - 1);
        let d = s.subrange(pos, a);
        assert(d.drop_last() =~= s.subrange(pos, a - 1));
        assert(is_digit(d.last()));
    }
}

/// A decimal `u32` at `pos`.
fn parse_u32_at(cs: &Vec<char>, pos: usize) -> (r: Option<(u32, usize)>)
    ensures
        match r {
            Some(v) => spec_parse_u32(cs@, pos as int) == Some((v.0, v.1 as int)),
            None => spec_parse_u32(cs@, pos as int) is None,
        },
{
    if pos >= cs.len() || !(cs[pos] >= '0' && cs[pos] <= '9') {
        proof {
            assert(digit_run(cs@, pos as int) == 0);
        }
        return None;
    }
    let mut acc: u64 = 0;
    let mut cur: usize = pos;
    while cur < cs.len() && cs[cur] >= '0' && cs[cur] <= '9'
        invariant
            pos <= cur <= cs@.len(),
            forall|j: int| pos <= j < cur ==> is_digit(cs@[j]),
            acc == digits_value(cs@.subrange(pos as int, cur as int)),
            acc <= u32::MAX,
        decreases cs@.len() - cur,
    {
        let d: u64 = (cs[cur] as u32 - '0' as u32) as u64;
        let acc2: u64 = acc * 10 + d;
        proof {
            let dd = cs@.subrange(pos as int, cur as int + 1);
            assert(dd.drop_last() =~= cs@.subrange(pos as int, cur as int));
            assert(dd.last() == cs@[cur as int]);
            assert(digit_val(cs@[cur as int]) == d);
        }
        if acc2 > u32::MAX as u64 {
            proof {
                let run = digit_run(cs@, pos as int);
                lemma_digit_run_split(cs@, pos as int, cur as int + 1);
                lemma_digit_run_bounds(cs@, cur as int + 1);
                lemma_digit_run_chars(cs@, pos as int);
                lemma_digits_value_extend(cs@, pos as int, cur as int + 1, pos as int + run);
                assert(digits_value(cs@.subrange(pos as int, pos as int + run)) > u32::MAX as int);
            }
            return None;
        }
        acc = acc2;
        cur = cur + 1;
    }
    proof {
        lemma_digit_run_split(cs@, pos as int, cur as int);
        assert(digit_run(cs@, cur as int) == 0);
        assert(digit_run(cs@, pos as int) == cur - pos);
        assert(cur > pos);
    }
    Some((acc as u32, cur))
}

/// Every position inside a digit run holds a digit.
proof fn lemma_digit_run_chars(s: Seq<char>, pos: int)
    requires
        0 <= pos <= s.len(),
    ensures
        forall|j: int| pos <= j < pos + digit_run(s, pos) ==> is_digit(s[j]),
    decreases s.len() - pos,
{
    if pos < s.len() && is_digit(s[pos]) {
        lemma_digit_run_chars(s, pos + 1);
    }
}

/// One annotation object at `pos`.
fn parse_annotation_at(cs: &Vec<char>, pos: usize) -> (r: Option<(FrameAnnotation, usize)>)
    ensures
        match r {
            Some(v) => spec_parse_annotation(cs@, pos as int) == Some((v.0@, v.1 as int))
                && v.0.wf(),
            None => spec_parse_annotation(cs@, pos as int) is None,
        },
{
    let p1 = match expect_lit(cs, pos, "{\"start_frame\":") {
        Some(p) => p,
        None => {
            return None;
        },
    };
    let (start_frame, p2) = match parse_u32_at(cs, p1) {
        Some(v) => v,
        None => {
            return None;
        },
    };
    let p3 = match expect_lit(cs, p2, ",\"end_frame\":") {
        Some(p) => p,
        None => {
            return None;
        },
    };
    let (end_frame, p4) = match parse_u32_at(cs, p3) {
        Some(v) => v,
        None => {
            return None;
        },
    };
    let p5 = match expect_lit(cs, p4, ",\"label\":") {
        Some(p) => p,
        None => {
            return None;
        },
    };
    let (label, p6) = match parse_string_at(cs, p5) {
        Some(v) => v,
        None => {
            return None;
        },
    };
    let p7 = match expect_lit(cs, p6, "}") {
        Some(p) => p,
        None => {
            return None;
        },
    };
    if start_frame <= end_frame && label.as_str().unicode_len() > 0 {
        Some((FrameAnnotation { start_frame, end_frame, label }, p7))
    } else {
        None
    }
}

/// The comma-separated annotation objects of one array.
fn parse_ann_items_at(cs: &Vec<char>, pos: usize) -> (r: Option<(Vec<FrameAnnotation>, usize)>)
    ensures
        match r {
            Some(v) => spec_parse_ann_items(cs@, pos as int) == Some((v.0.deep_view(), v.1 as int))
                && (forall|j: int| 0 <= j < v.0.deep_view().len() ==> (#[trigger] v.0.deep_view()[j]).wf()),
            None => spec_parse_ann_items(cs@, pos as int) is None,
        },
{
    let mut items: Vec<FrameAnnotation> = Vec::new();
    let mut cur: usize = pos;
    loop
        invariant
            pos <= cur,
            cur <= cs@.len() || cur == pos,
            spec_parse_ann_items(cs@, pos as int) == (match spec_parse_ann_items(cs@, cur as int) {
                Some(r2) => Some((items.deep_view() + r2.0, r2.1)),
                None => None::<(Seq<AnnotationModel>, int)>,
            }),
            forall|j: int| 0 <= j < items.deep_view().len() ==> (#[trigger] items.deep_view()[j]).wf(),
        decreases cs@.len() + 1 - cur,
    {
        let (a, p) = match parse_annotation_at(cs, cur) {
            Some(v) => v,
            None => {
                return None;
            },
        };
        proof {
            lemma_parse_annotation_progress(cs@, cur as int);
        }
        let ghost pre = items.deep_view();
        let ghost av = a@;
        items.push(a);
        proof {
            assert(items.deep_view() =~= pre.push(av));
        }
        if p < cs.len() && cs[p] == ',' {
            proof {
                if let Some(r2) = spec_parse_ann_items(cs@, p as int + 1) {
                    assert(pre + (seq![av] + r2.0) =~= items.deep_view() + r2.0);
                }
            }
            cur = p + 1;
        } else {
            proof {
                assert(pre + seq![av] =~= items.deep_view());
            }
            return Some((items, p));
        }
    }
}

/// A (possibly empty) annotation array at `pos`.
fn parse_ann_list_at(cs: &Vec<char>, pos: usize) -> (r: Option<(Vec<FrameAnnotation>, usize)>)
    ensures
        match r {
            Some(v) => spec_parse_ann_list(cs@, pos as int) == Some((v.0.deep_view(), v.1 as int))
                && (forall|j: int| 0 <= j < v.0.deep_view().len() ==> (#[trigger] v.0.deep_view()[j]).wf()),
            None => spec_parse_ann_list(cs@, pos as int) is None,
        },
{
    let p = match expect_lit(cs, pos, "[") {
        Some(p) => p,
        None => {
            return None;
        },
    };
    if p < cs.len() && cs[p] == ']' {
        let empty: Vec<FrameAnnotation> = Vec::new();
        proof {
            assert(empty.deep_view() =~= Seq::<AnnotationModel>::empty());
        }
        return Some((empty, p + 1));
    }
    let (items, p2) = match parse_ann_items_at(cs, p) {
        Some(v) => v,
        None => {
            return None;
        },
    };
    match expect_lit(cs, p2, "]") {
        Some(p3) => Some((items, p3)),
        None => None,
    }
}

/// The comma-separated strings of the used-labels array.
fn parse_label_items_at(cs: &Vec<char>, pos: usize) -> (r: Option<(Vec<String>, usize)>)
    ensures
        match r {
            Some(v) => spec_parse_label_items(cs@, pos as int) == Some(
                (v.0.deep_view(), v.1 as int),
            ),
            None => spec_parse_label_items(cs@, pos as int) is None,
        },
{
    let mut items: Vec<String> = Vec::new();
    let mut cur: usize = pos;
    loop
        invariant
            pos <= cur,
            cur <= cs@.len() || cur == pos,
            spec_parse_label_items(cs@, pos as int) == (match spec_parse_label_items(
                cs@,
                cur as int,
            ) {
                Some(r2) => Some((items.deep_view() + r2.0, r2.1)),
                None => None::<(Seq<Seq<char>>, int)>,
            }),
        decreases cs@.len() + 1 - cur,
    {
        let (l, p) = match parse_string_at(cs, cur) {
            Some(v) => v,
            None => {
                return None;
            },
        };
        proof {
            lemma_parse_string_body_progress(cs@, cur as int + 1);
        }
        let ghost pre = items.deep_view();
        let ghost lv = l@;
        items.push(l);
        proof {
            assert(items.deep_view() =~= pre.push(lv));
        }
        if p < cs.len() && cs[p] == ',' {
            proof {
                if let Some(r2) = spec_parse_label_items(cs@, p as int + 1) {
                    assert(pre + (seq![lv] + r2.0) =~= items.deep_view() + r2.0);
                }
            }
            cur = p + 1;
        } else {
            proof {
                assert(pre + seq![lv] =~= items.deep_view());
            }
            return Some((items, p));
        }
    }
}

/// A (possibly empty) array of strings at `pos`.
fn parse_label_list_at(cs: &Vec<char>, pos: usize) -> (r: Option<(Vec<String>, usize)>)
    ensures
        match r {
            Some(v) => spec_parse_label_list(cs@, pos as int) == Some(
                (v.0.deep_view(), v.1 as int),
            ),
            None => spec_parse_label_list(cs@, pos as int) is None,
        },
{
    let p = match expect_lit(cs, pos, "[") {
        Some(p) => p,
        None => {
            return None;
        },
    };
    if p < cs.len() && cs[p] == ']' {
        let empty: Vec<String> = Vec::new();
        proof {
            assert(empty.deep_view() =~= Seq::<Seq<char>>::empty());
        }
        return Some((empty, p + 1));
    }
    let (items, p2) = match parse_label_items_at(cs, p) {
        Some(v) => v,
        None => {
            return None;
        },
    };
    match expect_lit(cs, p2, "]") {
        Some(p3) => Some((items, p3)),
        None => None,
    }
}

/// One `"video":[…]` entry at `pos`.
fn parse_entry_at(cs: &Vec<char>, pos: usize) -> (r: Option<(VideoAnnotations, usize)>)
    ensures
        match r {
            Some(v) => spec_parse_entry(cs@, pos as int) == Some((v.0@, v.1 as int)) && (forall|
                j: int,
            |
                0 <= j < v.0@.annotations.len() ==> (#[trigger] v.0@.annotations[j]).wf()),
            None => spec_parse_entry(cs@, pos as int) is None,
        },
{
    let (video, p) = match parse_string_at(cs, pos) {
        Some(v) => v,
        None => {
            return None;
        },
    };
    let p2 = match expect_lit(cs, p, ":") {
        Some(v) => v,
        None => {
            return None;
        },
    };
    let (annotations, p3) = match parse_ann_list_at(cs, p2) {
        Some(v) => v,
        None => {
            return None;
        },
    };
    Some((VideoAnnotations { video, annotations }, p3))
}

/// The comma-separated entries of the annotations object.
fn parse_entry_items_at(cs: &Vec<char>, pos: usize) -> (r: Option<(Vec<VideoAnnotations>, usize)>)
    ensures
        match r {
            Some(v) => spec_parse_entry_items(cs@, pos as int) == Some(
                (v.0.deep_view(), v.1 as int),
            ) && crate::store::all_annotations_wf(v.0.deep_view()),
            None => spec_parse_entry_items(cs@, pos as int) is None,
        },
{
    let mut items: Vec<VideoAnnotations> = Vec::new();
    let mut cur: usize = pos;
    loop
        invariant
            pos <= cur,
            cur <= cs@.len() || cur == pos,
            spec_parse_entry_items(cs@, pos as int) == (match spec_parse_entry_items(
                cs@,
                cur as int,
            ) {
                Some(r2) => Some((items.deep_view() + r2.0, r2.1)),
                None => None::<(Seq<VideoModel>, int)>,
            }),
            crate::store::all_annotations_wf(items.deep_view()),
        decreases cs@.len() + 1 - cur,
    {
        let (e, p) = match parse_entry_at(cs, cur) {
            Some(v) => v,
            None => {
                return None;
            },
        };
        proof {
            lemma_parse_entry_progress(cs@, cur as int);
        }
        let ghost pre = items.deep_view();
        let ghost ev = e@;
        items.push(e);
        proof {
            assert(items.deep_view() =~= pre.push(ev));
        }
        if p < cs.len() && cs[p] == ',' {
            proof {
                if let Some(r2) = spec_parse_entry_items(cs@, p as int + 1) {
                    assert(pre + (seq![ev] + r2.0) =~= items.deep_view() + r2.0);
                }
            }
            cur = p + 1;
        } else {
            proof {
                assert(pre + seq![ev] =~= items.deep_view());
            }
            return Some((items, p));
        }
    }
}

/// A (possibly empty) annotations object at `pos`.
fn parse_entries_at(cs: &Vec<char>, pos: usize) -> (r: Option<(Vec<VideoAnnotations>, usize)>)
    ensures
        match r {
            Some(v) => spec_parse_entries(cs@, pos as int) == Some((v.0.deep_view(), v.1 as int))
                && crate::store::all_annotations_wf(v.0.deep_view()),
            None => spec_parse_entries(cs@, pos as int) is None,
        },
{
    let p = match expect_lit(cs, pos, "{") {
        Some(p) => p,
        None => {
            return None;
        },
    };
    if p < cs.len() && cs[p] == '}' {
        let empty: Vec<VideoAnnotations> = Vec::new();
        proof {
            assert(empty.deep_view() =~= Seq::<VideoModel>::empty());
        }
        return Some((empty, p + 1));
    }
    let (items, p2) = match parse_entry_items_at(cs, p) {
        Some(v) => v,
        None => {
            return None;
        },
    };
    match expect_lit(cs, p2, "}") {
        Some(p3) => Some((items, p3)),
        None => None,
    }
}

/// Whether the entries carry pairwise-distinct video names.
fn videos_distinct(entries: &Vec<VideoAnnotations>) -> (r: bool)
    ensures
        r == crate::store::distinct_videos(entries.deep_view()),
{
    let mut i: usize = 0;
    while i < entries.len()
        invariant
            i <= entries@.len(),
            forall|a: int, b: int|
                0 <= a < b < i ==> entries.deep_view()[a].video != entries.deep_view()[b].video,
        decreases entries.len() - i,
    {
        let mut j: usize = 0;
        while j < i
            invariant
                j <= i < entries@.len(),
                forall|b: int| 0 <= b < j ==> entries.deep_view()[b].video != entries.deep_view()[i as int].video,
            decreases i - j,
        {
            if entries[j].video == entries[i].video {
                proof {
                    assert(entries.deep_view()[j as int].video == entries.deep_view()[i as int].video);
                }
                return false;
            }
            j = j + 1;
        }
        i = i + 1;
    }
    true
}

/// Reads a manifest text in the canonical form the encoder writes.
///
/// Anything else — wrong shape, trailing text, a number out of range, a
/// backward or unlabeled annotation, a repeated video key — is malformed.
pub fn parse_manifest(text: &String) -> (r: Result<ProjectConfig, ProjectLoadError>)
    ensures
        match r {
            Ok(c) => spec_parse_manifest(text@) == Some(c@) && c@.wf(),
            Err(e) => spec_parse_manifest(text@) is None && e == ProjectLoadError::Malformed,
        },
{
    let cs = chars_vec(text.as_str());
    let p1 = match expect_lit(&cs, 0, "{\"video_folder\":") {
        Some(p) => p,
        None => {
            return Err(ProjectLoadError::Malformed);
        },
    };
    let (video_folder, p2) = match parse_string_at(&cs, p1) {
        Some(v) => v,
        None => {
            return Err(ProjectLoadError::Malformed);
        },
    };
    let p3 = match expect_lit(&cs, p2, ",\"labels_folder\":") {
        Some(p) => p,
        None => {
            return Err(ProjectLoadError::Malformed);
        },
    };
    let (labels_folder, p4) = match parse_string_at(&cs, p3) {
        Some(v) => v,
        None => {
            return Err(ProjectLoadError::Malformed);
        },
    };
    let p5 = match expect_lit(&cs, p4, ",\"used_labels\":") {
        Some(p) => p,
        None => {
            return Err(ProjectLoadError::Malformed);
        },
    };
    let (used_labels, p6) = match parse_label_list_at(&cs, p5) {
        Some(v) => v,
        None => {
            return Err(ProjectLoadError::Malformed);
        },
    };
    let p7 = match expect_lit(&cs, p6, ",\"annotations\":") {
        Some(p) => p,
        None => {
            return Err(ProjectLoadError::Malformed);
        },
    };
    let (entries, p8) = match parse_entries_at(&cs, p7) {
        Some(v) => v,
        None => {
            return Err(ProjectLoadError::Malformed);
        },
    };
    let p9 = match expect_lit(&cs, p8, "}") {
        Some(p) => p,
        None => {
            return Err(ProjectLoadError::Malformed);
        },
    };
    if p9 != cs.len() {
        return Err(ProjectLoadError::Malformed);
    }
    if !videos_distinct(&entries) {
        return Err(ProjectLoadError::Malformed);
    }
    let config = ProjectConfig {
        video_folder,
        labels_folder,
        used_labels,
        annotations: AnnotationStore { entries },
    };
    Ok(config)
}

/// Writes the manifest text of a configuration.
pub fn encode_manifest(c: &ProjectConfig) -> (r: String)
    ensures
        r@ == spec_encode_manifest(c@),
{
    let mut out = String::new();
    out.append("{\"video_folder\":");
    append_enc_str(&mut out, &c.video_folder);
    out.append(",\"labels_folder\":");
    append_enc_str(&mut out, &c.labels_folder);
    out.append(",\"used_labels\":");
    append_label_list(&mut out, &c.used_labels);
    out.append(",\"annotations\":");
    append_entries(&mut out, &c.annotations);
    out.append("}");
    proof {
        assert(out@ =~= spec_encode_manifest(c@));
    }
    out
}

/// Writes the manifest text of a project, as saving it to
/// `project.json` does.
pub fn save_manifest(p: &Project) -> (r: String)
    ensures
        r@ == spec_encode_manifest(p@.config_model()),
{
    let config = p.config();
    encode_manifest(&config)
}

/// Rebuilds a project from a manifest text and the root it was read from.
///
/// Fails with [`ProjectLoadError::Malformed`] on anything but a well-formed
/// canonical manifest; there is no partial recovery.
pub fn load_project(text: &String, root: String) -> (r: Result<Project, ProjectLoadError>)
    ensures
        match r {
            Ok(p) => {
                &&& spec_parse_manifest(text@) is Some
                &&& p@ == spec_project_from(spec_parse_manifest(text@)->0, root@)
                &&& p.wf()
            },
            Err(e) => spec_parse_manifest(text@) is None && e == ProjectLoadError::Malformed,
        },
{
    match parse_manifest(text) {
        Ok(config) => Ok(Project::from(config, root)),
        Err(e) => Err(e),
    }
}

/// Round trip: loading what save wrote restores the project exactly — its
/// annotations, folder paths, and used labels (required as a set; here even
/// their order is kept).
pub proof fn lemma_save_load_round_trip(p: ProjectModel)
    requires
        p.wf(),
    ensures
        spec_parse_manifest(spec_encode_manifest(p.config_model())) == Some(p.config_model()),
        spec_project_from(p.config_model(), p.path) == p,
{
    lemma_manifest_round_trip(p.config_model());
    crate::project::lemma_config_round_trip(p);
}

} // verus!
