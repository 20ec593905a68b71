//! What the files of the gallery say, read back; and how pixels and names are
//! told apart.

use crate::gallery::{
    colour_bytes, entry_start, image_name, is_fill, is_item, is_listed, is_marked, joined,
    ppm_has_three_bytes_per_pixel, ppm_header, unsupported_text, Mode, RenderReport, Sample,
    Surface,
};
use crate::reading::{
    after, after_reads, decimal_reads_back, denotes, number_reads, read_number, until, until_reads,
};
use crate::text::decimal;
use vstd::prelude::*;

verus! {

// ---------------------------------------------------------------------------
// The summary
// ---------------------------------------------------------------------------

/// Where the entry `k` starts, if every entry is followed by two characters.
pub open spec fn offset(entries: Seq<String>, k: int) -> int
    decreases k,
{
    if k <= 0 {
        0
    } else {
        offset(entries, k - 1) + entries[k - 1]@.len() + 2
    }
}

/// One entry is listed as it is; a further one follows after a comma and a new
/// line, and changes nothing before.
pub proof fn entries_follow_each_other(entries: Seq<String>, e: String)
    ensures
        joined(Seq::empty()).len() == 0,
        joined(seq![e]) == e@,
        entries.len() > 0 ==> joined(entries.push(e)) == joined(entries) + seq![',', '\n'] + e@,
{
    reveal_strlit(",\n");
    assert(",\n"@ =~= seq![',', '\n']);
    assert(entries.push(e).drop_last() =~= entries);
    if entries.len() > 0 {
        assert(entries.push(e).last() == e);
    }
}

/// Every entry stands in the summary, in order, with a comma and a new line
/// between it and the next; and there is nothing else.
pub proof fn every_entry_is_listed(entries: Seq<String>)
    ensures
        entries.len() > 0 ==> joined(entries).len() == offset(entries, entries.len() as int) - 2,
        forall|k: int|
            0 <= k < entries.len() ==> {
                let from = #[trigger] offset(entries, k);
                let to = from + entries[k]@.len();
                &&& 0 <= from <= to <= joined(entries).len()
                &&& joined(entries).subrange(from, to) == entries[k]@
                &&& k + 1 < entries.len() ==> to + 2 <= joined(entries).len()
                    && joined(entries)[to] == ',' && joined(entries)[to + 1] == '\n'
            },
    decreases entries.len(),
{
    if entries.len() > 0 {
        let n = entries.len() as int;
        let rest = entries.drop_last();
        let e = entries.last();
        let all = joined(entries);
        every_entry_is_listed(rest);
        entries_follow_each_other(rest, e);
        assert(rest.push(e) =~= entries);
        assert forall|k: int| 0 <= k <= n - 1 implies offset(rest, k) == #[trigger] offset(
            entries,
            k,
        ) by {
            same_offset(rest, entries, k);
        }
        if n == 1 {
            assert(entries =~= seq![e]);
            assert(all.subrange(0, all.len() as int) =~= all);
            assert(offset(entries, 0) == 0);
            assert(offset(entries, 1) == offset(entries, 0) + e@.len() + 2);
        } else {
            let before = joined(rest);
            assert(all == before + seq![',', '\n'] + e@);
            assert(before.len() == offset(rest, n - 1) - 2);
            assert(offset(entries, n) == offset(entries, n - 1) + e@.len() + 2);
            assert forall|k: int| 0 <= k < n implies {
                let from = #[trigger] offset(entries, k);
                let to = from + entries[k]@.len();
                &&& 0 <= from <= to <= all.len()
                &&& all.subrange(from, to) == entries[k]@
                &&& k + 1 < n ==> to + 2 <= all.len() && all[to] == ',' && all[to + 1] == '\n'
            } by {
                let from = offset(entries, k);
                let to = from + entries[k]@.len();
                if k < n - 1 {
                    assert(offset(rest, k) == from);
                    assert(rest[k] == entries[k]);
                    assert(all.subrange(from, to) =~= before.subrange(from, to));
                    if k + 1 == n - 1 {
                        assert(offset(entries, n - 1) == from + entries[k]@.len() + 2);
                        assert(to == before.len());
                    }
                } else {
                    assert(from == before.len() + 2);
                    assert(all.subrange(from, to) =~= e@);
                }
            }
        }
    }
}

proof fn same_offset(rest: Seq<String>, entries: Seq<String>, k: int)
    requires
        0 <= k <= rest.len(),
        rest == entries.drop_last(),
        entries.len() > 0,
    ensures
        offset(rest, k) == offset(entries, k),
    decreases k,
{
    if k > 0 {
        same_offset(rest, entries, k - 1);
        assert(rest[k - 1] == entries[k - 1]);
    }
}

/// What stands between `key` and the next `stop`, and what is left from there on.
pub open spec fn field(s: Seq<char>, key: Seq<char>, stop: char) -> Option<
    (Seq<char>, Seq<char>),
> {
    match after(s, key) {
        Some(r) => Some(until(r, stop)),
        None => None,
    }
}

proof fn field_reads(key: Seq<char>, value: Seq<char>, stop: char, rest: Seq<char>)
    requires
        !value.contains(stop),
        rest.len() > 0,
        rest[0] == stop,
    ensures
        field(key + (value + rest), key, stop) == Some((value, rest)),
{
    after_reads(key, value + rest);
    until_reads(value, stop, rest);
}

/// What the entry of a render says.
pub struct Entry {
    /// The name of the model
    pub model: Seq<char>,
    /// How it was evaluated
    pub mode: Seq<char>,
    /// The number of 2D pixels that were decided as part of a tile
    pub fills: Seq<char>,
    /// The number of 2D pixels that were decided on their own
    pub points: Seq<char>,
    /// The number of 3D pixels whose normal differs
    pub differ: Seq<char>,
    /// The time of the first 2D render
    pub first_2d: Seq<char>,
    /// The time of the first 3D render
    pub first_3d: Seq<char>,
}

/// Reads the model and the mode that an entry starts with.
pub open spec fn read_start(s: Seq<char>) -> Option<(Seq<char>, Seq<char>, Seq<char>)> {
    match field(s, "{\"model\":\""@, '"') {
        Some((model, r)) => match field(r, "\",\"mode\":\""@, '"') {
            Some((mode, rest)) => Some((model, mode, rest)),
            None => None,
        },
        None => None,
    }
}

/// Reads the counts of an entry.
pub open spec fn read_counts(s: Seq<char>) -> Option<
    (Seq<char>, Seq<char>, Seq<char>, Seq<char>),
> {
    match field(s, "\",\"fills\":"@, ',') {
        Some((fills, r)) => match field(r, ",\"points\":"@, ',') {
            Some((points, r)) => match field(r, ",\"normals_differ\":"@, ',') {
                Some((differ, rest)) => Some((fills, points, differ, rest)),
                None => None,
            },
            None => None,
        },
        None => None,
    }
}

/// Reads the entry of a render.
pub open spec fn read_entry(s: Seq<char>) -> Option<Entry> {
    match read_start(s) {
        Some((model, mode, r)) => match read_counts(r) {
            Some((fills, points, differ, r)) => match field(r, ",\"first_2d\":"@, ',') {
                Some((first_2d, r)) => match field(r, ",\"first_3d\":"@, '}') {
                    Some((first_3d, r)) => if r == "}"@ {
                        Some(Entry { model, mode, fills, points, differ, first_2d, first_3d })
                    } else {
                        None
                    },
                    None => None,
                },
                None => None,
            },
            None => None,
        },
        None => None,
    }
}

/// The word for a mode.
pub open spec fn word_for(mode: Mode) -> Seq<char> {
    match mode {
        Mode::Interpreted => "interpreted"@,
        Mode::Compiled => "compiled"@,
        Mode::Leaves => "leaves"@,
    }
}

proof fn start_reads(model: Seq<char>, mode: Mode, rest: Seq<char>)
    requires
        !model.contains('"'),
    ensures
        read_start(entry_start(model, mode) + rest) == Some(
            (model, word_for(mode), "\","@ + rest),
        ),
{
    let word = word_for(mode);
    let tail = "\","@ + rest;
    let second = "\",\"mode\":\""@ + (word + tail);
    reveal_strlit("interpreted");
    reveal_strlit("compiled");
    reveal_strlit("leaves");
    reveal_strlit("\",");
    reveal_strlit("\",\"mode\":\"");
    assert(entry_start(model, mode) + rest =~= "{\"model\":\""@ + (model + second));
    assert(second[0] == '"' && tail[0] == '"');
    field_reads("{\"model\":\""@, model, '"', second);
    field_reads("\",\"mode\":\""@, word, '"', tail);
}

proof fn digits_only(n: nat, c: char)
    requires
        !('0' <= c <= '9'),
    ensures
        !decimal(n).contains(c),
{
    decimal_reads_back(n);
}

/// The entry of a render says what was reported: the model and the mode, the
/// counts, and the times.
pub proof fn entries_say_what_was_reported<'a>(report: RenderReport<'a>)
    requires
        !report.model@.contains('"'),
        !report.first_2d@.contains(','),
        !report.first_3d@.contains('}'),
    ensures
        read_entry(report.text()) matches Some(entry) && {
            &&& entry.model == report.model@
            &&& entry.mode == word_for(report.mode)
            &&& denotes(entry.fills, report.fills as int)
            &&& denotes(entry.points, report.points as int)
            &&& denotes(entry.differ, report.differ as int)
            &&& entry.first_2d == report.first_2d@
            &&& entry.first_3d == report.first_3d@
        },
{
    let fills = decimal(report.fills as nat);
    let points = decimal(report.points as nat);
    let differ = decimal(report.differ as nat);
    reveal_strlit("\"fills\":");
    reveal_strlit("\",");
    reveal_strlit("\",\"fills\":");
    reveal_strlit(",\"points\":");
    reveal_strlit(",\"normals_differ\":");
    reveal_strlit(",\"first_2d\":");
    reveal_strlit(",\"first_3d\":");
    reveal_strlit("}");
    let r7 = "}"@;
    let r6 = ",\"first_3d\":"@ + (report.first_3d@ + r7);
    let r5 = ",\"first_2d\":"@ + (report.first_2d@ + r6);
    let r4 = ",\"normals_differ\":"@ + (differ + r5);
    let r3 = ",\"points\":"@ + (points + r4);
    let r2 = "\"fills\":"@ + (fills + r3);
    assert(report.text() =~= entry_start(report.model@, report.mode) + r2);
    start_reads(report.model@, report.mode, r2);
    assert("\","@ + "\"fills\":"@ =~= "\",\"fills\":"@);
    assert("\","@ + r2 =~= "\",\"fills\":"@ + (fills + r3));
    digits_only(report.fills as nat, ',');
    digits_only(report.points as nat, ',');
    digits_only(report.differ as nat, ',');
    assert(r3[0] == ',' && r4[0] == ',' && r5[0] == ',' && r6[0] == ',' && r7[0] == '}');
    field_reads("\",\"fills\":"@, fills, ',', r3);
    field_reads(",\"points\":"@, points, ',', r4);
    field_reads(",\"normals_differ\":"@, differ, ',', r5);
    field_reads(",\"first_2d\":"@, report.first_2d@, ',', r6);
    field_reads(",\"first_3d\":"@, report.first_3d@, '}', r7);
    decimal_reads_back(report.fills as nat);
    decimal_reads_back(report.points as nat);
    decimal_reads_back(report.differ as nat);
}

/// Reads three counts, with the names of the second and the third between them.
pub open spec fn read_three(s: Seq<char>) -> Option<(nat, nat, nat, Seq<char>)> {
    match read_number(s) {
        Some((fills, r)) => match after(r, ",\"points\":"@) {
            Some(r) => match read_number(r) {
                Some((points, r)) => match after(r, ",\"normals_differ\":"@) {
                    Some(r) => match read_number(r) {
                        Some((differ, rest)) => Some((fills, points, differ, rest)),
                        None => None,
                    },
                    None => None,
                },
                None => None,
            },
            None => None,
        },
        None => None,
    }
}

/// The entry of a render spells out the model, the mode and the times as they are
/// given, whatever they hold, with the counts between them.
pub proof fn entries_spell_out_the_report<'a>(report: RenderReport<'a>)
    ensures
        after(
            report.text(),
            "{\"model\":\""@ + report.model@ + "\",\"mode\":\""@ + word_for(report.mode)
                + "\",\"fills\":"@,
        ) matches Some(r) && read_three(r) == Some(
            (
                report.fills as nat,
                report.points as nat,
                report.differ as nat,
                ",\"first_2d\":"@ + report.first_2d@ + ",\"first_3d\":"@ + report.first_3d@ + "}"@,
            ),
        ),
{
    let fills = decimal(report.fills as nat);
    let points = decimal(report.points as nat);
    let differ = decimal(report.differ as nat);
    let r5 = ",\"first_2d\":"@ + report.first_2d@ + ",\"first_3d\":"@ + report.first_3d@ + "}"@;
    let r4 = ",\"normals_differ\":"@ + (differ + r5);
    let r3 = ",\"points\":"@ + (points + r4);
    let head = "{\"model\":\""@ + report.model@ + "\",\"mode\":\""@ + word_for(report.mode)
        + "\",\"fills\":"@;
    assert("\","@ + "\"fills\":"@ =~= "\",\"fills\":"@) by {
        reveal_strlit("\"fills\":");
        reveal_strlit("\",");
        reveal_strlit("\",\"fills\":");
    }
    assert(report.text() =~= head + (fills + r3)) by {
        assert(report.text() =~= "{\"model\":\""@ + report.model@ + "\",\"mode\":\""@ + word_for(
            report.mode,
        ) + ("\","@ + "\"fills\":"@) + (fills + r3));
    }
    reveal_strlit(",\"points\":");
    reveal_strlit(",\"normals_differ\":");
    reveal_strlit(",\"first_2d\":");
    assert(r3[0] == ',' && r4[0] == ',' && r5[0] == ',');
    after_reads(head, fills + r3);
    number_reads(report.fills as nat, r3);
    after_reads(",\"points\":"@, points + r4);
    number_reads(report.points as nat, r4);
    after_reads(",\"normals_differ\":"@, differ + r5);
    number_reads(report.differ as nat, r5);
}

/// The entry of a model that a mode does not support says which model and which
/// mode, and that it is not supported.
pub proof fn unsupported_entries_say_so(model: Seq<char>, mode: Mode)
    ensures
        after(
            unsupported_text(model, mode),
            "{\"model\":\""@ + model + "\",\"mode\":\""@ + word_for(mode),
        ) == Some("\",\"unsupported\":true}"@),
        !model.contains('"') ==> read_start(unsupported_text(model, mode)) == Some(
            (model, word_for(mode), "\",\"unsupported\":true}"@),
        ),
{
    let head = "{\"model\":\""@ + model + "\",\"mode\":\""@ + word_for(mode);
    let end = "\"unsupported\":true}"@;
    assert("\","@ + end =~= "\",\"unsupported\":true}"@) by {
        reveal_strlit("\",");
        reveal_strlit("\"unsupported\":true}");
        reveal_strlit("\",\"unsupported\":true}");
    }
    assert(unsupported_text(model, mode) =~= head + ("\","@ + end));
    after_reads(head, "\","@ + end);
    if !model.contains('"') {
        start_reads(model, mode, end);
    }
}

// ---------------------------------------------------------------------------
// Images
// ---------------------------------------------------------------------------

/// Reads the width and the height of a PPM image from its header.
pub open spec fn read_header(s: Seq<char>) -> Option<(nat, nat)> {
    match after(s, "P6\n"@) {
        Some(r) => match read_number(r) {
            Some((w, r)) => match after(r, " "@) {
                Some(r) => match read_number(r) {
                    Some((h, r)) => if r == "\n255\n"@ {
                        Some((w, h))
                    } else {
                        None
                    },
                    None => None,
                },
                None => None,
            },
            None => None,
        },
        None => None,
    }
}

/// The header of a PPM image gives its width and its height.
pub proof fn headers_read_back(w: u32, h: u32)
    ensures
        read_header(ppm_header(w, h)) == Some((w as nat, h as nat)),
{
    let end = "\n255\n"@;
    let second = " "@ + (decimal(h as nat) + end);
    reveal_strlit("\n255\n");
    reveal_strlit(" ");
    assert(ppm_header(w, h) =~= "P6\n"@ + (decimal(w as nat) + second));
    after_reads("P6\n"@, decimal(w as nat) + second);
    assert(second[0] == ' ' && end[0] == '\n');
    number_reads(w as nat, second);
    after_reads(" "@, decimal(h as nat) + end);
    number_reads(h as nat, end);
}

/// The pixels of a PPM image follow each other, and each is its red, its green
/// and its blue.
pub proof fn pixels_follow_each_other(rgb: Seq<[u8; 3]>, i: int)
    requires
        0 <= i < rgb.len(),
    ensures
        colour_bytes(rgb).len() == 3 * rgb.len(),
        colour_bytes(rgb)[3 * i] == rgb[i]@[0],
        colour_bytes(rgb)[3 * i + 1] == rgb[i]@[1],
        colour_bytes(rgb)[3 * i + 2] == rgb[i]@[2],
    decreases rgb.len(),
{
    let rest = rgb.drop_last();
    ppm_has_three_bytes_per_pixel(rgb);
    ppm_has_three_bytes_per_pixel(rest);
    if i < rest.len() {
        pixels_follow_each_other(rest, i);
    }
}

/// The name of an image starts with the model, goes on with the mode, and ends
/// with the kind of image; the images of a model differ in their names.
pub proof fn image_names_tell_modes_apart(
    model: Seq<char>,
    mode: Mode,
    three_d: bool,
    other_mode: Mode,
    other_three_d: bool,
)
    ensures
        after(image_name(model, mode, three_d), model) == Some(
            "_"@ + word_for(mode) + (if three_d {
                "_3d.ppm"@
            } else {
                "_2d.ppm"@
            }),
        ),
        image_name(model, mode, three_d) == image_name(model, other_mode, other_three_d) ==> mode
            == other_mode && three_d == other_three_d,
{
    reveal_strlit("_");
    reveal_strlit("interpreted");
    reveal_strlit("compiled");
    reveal_strlit("leaves");
    reveal_strlit("_3d.ppm");
    reveal_strlit("_2d.ppm");
    let kind = if three_d {
        "_3d.ppm"@
    } else {
        "_2d.ppm"@
    };
    let one = image_name(model, mode, three_d);
    let other = image_name(model, other_mode, other_three_d);
    let n = model.len() as int;
    assert(one =~= model + ("_"@ + word_for(mode) + kind));
    after_reads(model, "_"@ + word_for(mode) + kind);
    if one == other {
        assert(one[n + 1] == other[n + 1]);
        assert(one[one.len() - 6] == other[other.len() - 6]);
    }
}

// ---------------------------------------------------------------------------
// Pixels
// ---------------------------------------------------------------------------

/// Pixels that were decided in different ways look different, and only those that
/// are part of a tile count as such.
pub proof fn decisions_look_different(p: Sample, q: Sample)
    ensures
        p.shown()@ == q.shown()@ ==> p == q,
        is_fill(p) <==> p == Sample::Fill(true) || p == Sample::Fill(false),
{
    let a = p.shown()@;
    let b = q.shown()@;
    if a == b {
        assert(a[0] == b[0] && a[1] == b[1] && a[2] == b[2]);
    }
}

/// Where something is there, the depth makes no difference to the colour: it is
/// the shade, or the colour of the mark, which does not depend on the shade.
/// Where nothing is there, it is always the same.  Only what is there is marked.
pub proof fn surfaces_show_their_shade(p: Surface)
    ensures
        p.depth > 0 && !p.differs ==> p.shown() == p.shade && !is_marked(p),
        p.depth > 0 && p.differs ==> is_marked(p) && p.shown()@ == seq![255u8, 30, 30],
        p.depth == 0 ==> !is_marked(p) && p.shown()@ == seq![30u8, 30, 36],
{
    assert(p.depth > 0 && p.differs ==> p.shown()@ =~= seq![255u8, 30, 30]);
    assert(p.depth == 0 ==> p.shown()@ =~= seq![30u8, 30, 36]);
}

// ---------------------------------------------------------------------------
// Lists of names
// ---------------------------------------------------------------------------

/// A list that starts with a name and a comma holds that name, and what the rest
/// of it holds, and nothing else; a list without a comma holds just itself.
pub proof fn lists_hold_what_stands_between_commas(
    first: Seq<char>,
    rest: Seq<char>,
    name: Seq<char>,
)
    requires
        !first.contains(','),
    ensures
        is_listed(first, name) <==> name == first,
        is_listed(first + seq![','] + rest, name) <==> name == first || is_listed(rest, name),
{
    let list = first + seq![','] + rest;
    let n = first.len() as int;
    assert forall|k: int| 0 <= k < n implies first[k] != ',' by {
        assert(first.contains(first[k]));
    }
    assert(is_item(first, 0, n));
    assert(first.subrange(0, n) =~= first);
    if is_listed(first, name) {
        let (i, j) = choose|i: int, j: int| #[trigger]
            is_item(first, i, j) && first.subrange(i, j) == name;
        assert(i == 0 && j == n);
    }
    assert(is_item(list, 0, n));
    assert(list.subrange(0, n) =~= first);
    if is_listed(rest, name) {
        let (i, j) = choose|i: int, j: int| #[trigger]
            is_item(rest, i, j) && rest.subrange(i, j) == name;
        let from = i + n + 1;
        let to = j + n + 1;
        assert forall|k: int| from <= k < to implies #[trigger] list[k] != ',' by {
            assert(rest[k - n - 1] != ',');
        }
        assert(is_item(list, from, to));
        assert(list.subrange(from, to) =~= rest.subrange(i, j));
    }
    if is_listed(list, name) {
        let (i, j) = choose|i: int, j: int| #[trigger]
            is_item(list, i, j) && list.subrange(i, j) == name;
        assert(list[n] == ',');
        if i <= n {
            assert(j <= n);
            if j < n {
                assert(list[j] == first[j]);
            }
            if i > 0 {
                assert(list[i - 1] == first[i - 1]);
            }
            assert(name == first);
        } else {
            let from = i - n - 1;
            let to = j - n - 1;
            assert forall|k: int| from <= k < to implies #[trigger] rest[k] != ',' by {
                assert(list[k + n + 1] != ',');
            }
            if from > 0 {
                assert(rest[from - 1] == list[i - 1]);
            }
            if to < rest.len() {
                assert(rest[to] == list[j]);
            }
            assert(is_item(rest, from, to));
            assert(rest.subrange(from, to) =~= list.subrange(i, j));
        }
    }
}

} // verus!
