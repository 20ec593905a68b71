//! The gallery of models: which are rendered and how, what their pixels look
//! like, and the files that are written.

use crate::leaves::filter_step;
use crate::outside::{
    bytecode_mem_count, is_shape_of, moves_slot, shape_bytecode, shape_of_tree, shape_words,
};
use crate::text::{decimal, push_decimal};
use fidget_bytecode::ReservedRegister;
use fidget_core::context::Tree;
use fidget_core::vm::VmShape;
use vstd::prelude::*;
use vstd::string::{StrSliceExecFns, StringExecFns};
use vstd::utf8::encode_utf8;

verus! {

// ---------------------------------------------------------------------------
// What is rendered
// ---------------------------------------------------------------------------

/// A way to evaluate a model.
#[derive(Clone, Copy, Debug, PartialEq, Eq)]
pub enum Mode {
    /// The tape interpreter
    Interpreted,
    /// The whole shape as a single kernel
    Compiled,
    /// The choice-free leaves as kernels, and the rest interpreted
    Leaves,
}

impl Mode {
    /// The name of the mode.
    pub open spec fn spelled(self) -> Seq<char> {
        match self {
            Mode::Interpreted => "interpreted"@,
            Mode::Compiled => "compiled"@,
            Mode::Leaves => "leaves"@,
        }
    }

    /// Returns the name of the mode.
    pub fn name(self) -> (name: &'static str)
        ensures
            name@ == self.spelled(),
    {
        match self {
            Mode::Interpreted => "interpreted",
            Mode::Compiled => "compiled",
            Mode::Leaves => "leaves",
        }
    }

    /// Checks whether a tape can be rendered: the interpreter does not support
    /// one that spills registers.
    pub fn supports(self, spills: bool) -> (supported: bool)
        ensures
            supported == !(spills && self == Mode::Interpreted),
    {
        match self {
            Mode::Interpreted => !spills,
            _ => true,
        }
    }
}

/// A tape has an operation that moves a value to or from memory.
pub open spec fn uses_memory(words: Seq<u32>) -> bool {
    exists|k: int, slot: u32| #[trigger] moves_slot(words, k, slot)
}

/// Checks whether the tape of a shape spills registers.
pub fn spills(shape: &VmShape) -> (spills: Result<bool, ReservedRegister>)
    ensures
        spills == Ok::<bool, ReservedRegister>(uses_memory(shape_words(*shape))),
{
    let bytecode = match shape_bytecode(shape) {
        Ok(bytecode) => bytecode,
        Err(e) => return Err(e),
    };
    Ok(bytecode_mem_count(&bytecode) > 0)
}

/// Checks whether the tape of a tree's shape spills registers.
pub fn tree_spills(tree: &Tree) -> (r: Result<bool, ReservedRegister>)
    ensures
        exists|s: VmShape| #[trigger]
            is_shape_of(*tree, s) && r == Ok::<bool, ReservedRegister>(uses_memory(shape_words(s))),
{
    let shape = shape_of_tree(tree);
    spills(&shape)
}

/// `list[i..j]` is an item of a comma-separated list.
pub open spec fn is_item(list: Seq<char>, i: int, j: int) -> bool {
    &&& 0 <= i <= j <= list.len()
    &&& i == 0 || list[i - 1] == ','
    &&& j == list.len() || list[j] == ','
    &&& forall|k: int| i <= k < j ==> #[trigger] list[k] != ','
}

/// `name` is an item of a comma-separated list.
pub open spec fn is_listed(list: Seq<char>, name: Seq<char>) -> bool {
    exists|i: int, j: int| #[trigger] is_item(list, i, j) && list.subrange(i, j) == name
}

/// Checks whether a name is on a comma-separated list.
fn lists(list: &str, name: &str) -> (listed: bool)
    ensures
        listed == is_listed(list@, name@),
{
    let n: usize = list.unicode_len();
    let m: usize = name.unicode_len();
    let mut start: usize = 0;
    let mut k: usize = 0;
    let mut same: bool = true;
    while k < n
        invariant
            start <= k <= n == list@.len(),
            m == name@.len(),
            start == 0 || list@[start - 1] == ',',
            forall|i: int| start <= i < k ==> #[trigger] list@[i] != ',',
            same == list@.subrange(start as int, k as int).is_prefix_of(name@),
            forall|i: int, j: int| #[trigger]
                is_item(list@, i, j) && j < start ==> list@.subrange(i, j) != name@,
        decreases n - k,
    {
        let c = list.get_char(k);
        if c == ',' {
            if same && k - start == m {
                proof {
                    assert(is_item(list@, start as int, k as int));
                    assert(list@.subrange(start as int, k as int) =~= name@);
                }
                return true;
            }
            proof {
                assert forall|i: int, j: int| #[trigger]
                    is_item(list@, i, j) && j < k + 1 implies list@.subrange(i, j) != name@ by {
                    only_one_item_ends(list@, start as int, k as int, i, j);
                    if j == k {
                        assert(list@.subrange(i, j) == list@.subrange(start as int, k as int));
                        assert(list@.subrange(i, j).len() == k - start);
                    }
                }
                assert(list@.subrange(k + 1, k + 1) =~= Seq::<char>::empty());
            }
            start = k + 1;
            same = true;
        } else {
            let ghost before = list@.subrange(start as int, k as int);
            assert(list@.subrange(start as int, k + 1) =~= before.push(c));
            let fits = k - start < m && name.get_char(k - start) == c;
            proof {
                let after = before.push(c);
                if same && fits {
                    assert forall|i: int| 0 <= i < after.len() implies after[i] == name@[i] by {
                        if i < before.len() {
                            assert(before[i] == name@[i]);
                        }
                    }
                    assert(after =~= name@.subrange(0, after.len() as int));
                }
                if after.is_prefix_of(name@) {
                    assert(after[before.len() as int] == name@[before.len() as int]);
                    assert(before =~= name@.subrange(0, before.len() as int)) by {
                        assert forall|i: int| 0 <= i < before.len() implies before[i]
                            == name@[i] by {
                            assert(after[i] == name@[i]);
                        }
                    }
                }
            }
            same = same && fits;
        }
        k += 1;
    }
    proof {
        let last = list@.subrange(start as int, n as int);
        assert(is_item(list@, start as int, n as int));
        if same && n - start == m {
            assert(last =~= name@);
        } else {
            assert forall|i: int, j: int| #[trigger] is_item(list@, i, j) implies list@.subrange(
                i,
                j,
            ) != name@ by {
                if j >= start {
                    only_one_item_ends(list@, start as int, n as int, i, j);
                    assert(list@.subrange(i, j) == last);
                    assert(last.len() == n - start);
                    if last == name@ {
                        assert(last.is_prefix_of(name@));
                    }
                }
            }
        }
    }
    same && n - start == m
}

/// The item that starts at `start` and goes up to `k` is the only one that ends
/// from there on up to `k`.
proof fn only_one_item_ends(list: Seq<char>, start: int, k: int, i: int, j: int)
    requires
        0 <= start <= k <= list.len(),
        start == 0 || list[start - 1] == ',',
        forall|l: int| start <= l < k ==> #[trigger] list[l] != ',',
        is_item(list, i, j),
        j <= k,
        k < list.len() ==> list[k] == ',',
    ensures
        j < start || (i == start && j == k),
{
    if j >= start {
        if j < k {
            assert(list[j] == ',');
        }
        if i < start {
            assert(list[start - 1] != ',');
        }
        if i > start {
            assert(list[i - 1] != ',');
        }
    }
}

/// Checks whether a model is rendered: all are, or those on a comma-separated
/// list.
pub fn is_selected(only: Option<&str>, name: &str) -> (selected: bool)
    ensures
        selected == match only {
            None => true,
            Some(list) => is_listed(list@, name@),
        },
{
    match only {
        None => true,
        Some(list) => lists(list, name),
    }
}

// ---------------------------------------------------------------------------
// Pixels
// ---------------------------------------------------------------------------

/// How a pixel of a 2D image was decided.
#[derive(Clone, Copy, Debug, PartialEq, Eq)]
pub enum Sample {
    /// As part of a tile, which interval arithmetic proved inside or outside
    Fill(bool),
    /// On its own, with a value that is not a number
    NotANumber,
    /// On its own, with a negative value
    Negative,
    /// On its own, with any other value
    NonNegative,
}

/// A pixel of a 2D image that is part of a tile.
pub open spec fn is_fill(p: Sample) -> bool {
    p is Fill
}

impl Sample {
    /// The colour that shows how a pixel was decided.
    pub open spec fn shown(self) -> [u8; 3] {
        match self {
            Sample::Fill(true) => [40, 60, 110],
            Sample::Fill(false) => [236, 236, 236],
            Sample::NotANumber => [255, 0, 255],
            Sample::Negative => [70, 110, 190],
            Sample::NonNegative => [255, 214, 150],
        }
    }

    /// Returns the colour that shows how the pixel was decided.
    pub fn colour(self) -> (rgb: [u8; 3])
        ensures
            rgb == self.shown(),
    {
        match self {
            Sample::Fill(inside) => if inside {
                [40, 60, 110]
            } else {
                [236, 236, 236]
            },
            Sample::NotANumber => [255, 0, 255],
            Sample::Negative => [70, 110, 190],
            Sample::NonNegative => [255, 214, 150],
        }
    }
}

/// A 2D image that shows how its pixels were decided.
pub struct DecisionImage {
    /// The colours
    pub rgb: Vec<[u8; 3]>,
    /// The number of pixels that were decided as part of a tile
    pub fills: usize,
    /// The number of pixels that were decided on their own
    pub points: usize,
}

/// Draws how the pixels of an image were decided.
pub fn draw_decisions(pixels: &[Sample]) -> (image: DecisionImage)
    ensures
        image.rgb@.len() == pixels@.len(),
        forall|i: int|
            0 <= i < pixels@.len() ==> #[trigger] image.rgb@[i] == pixels@[i].shown(),
        image.fills == pixels@.filter(|p: Sample| is_fill(p)).len(),
        image.fills + image.points == pixels@.len(),
{
    let ghost test = |p: Sample| is_fill(p);
    let n: usize = pixels.len();
    let mut rgb: Vec<[u8; 3]> = Vec::new();
    let mut fills: usize = 0;
    let mut points: usize = 0;
    let mut i: usize = 0;
    assert(pixels@.take(0).filter(test).len() == 0) by {
        reveal(Seq::filter);
    }
    while i < n
        invariant
            i <= n == pixels@.len(),
            test == (|p: Sample| is_fill(p)),
            rgb@.len() == i,
            forall|j: int| 0 <= j < i ==> #[trigger] rgb@[j] == pixels@[j].shown(),
            fills == pixels@.take(i as int).filter(test).len(),
            fills + points == i,
        decreases n - i,
    {
        let p = pixels[i];
        proof {
            filter_step(pixels@, test, i as int);
        }
        match p {
            Sample::Fill(_) => {
                fills += 1;
            },
            _ => {
                points += 1;
            },
        }
        rgb.push(p.colour());
        i += 1;
    }
    assert(pixels@.take(n as int) == pixels@);
    DecisionImage { rgb, fills, points }
}

/// A pixel of a 3D image.
#[derive(Clone, Copy, Debug, PartialEq, Eq)]
pub struct Surface {
    /// The depth, or 0 if nothing is there
    pub depth: u32,
    /// Whether the normal differs from that of the interpreter
    pub differs: bool,
    /// The shaded colour
    pub shade: [u8; 3],
}

/// Something is there, with a normal that differs.
pub open spec fn is_marked(p: Surface) -> bool {
    p.depth != 0 && p.differs
}

impl Surface {
    /// The colour of the pixel: the background, or red for a normal that
    /// differs, or the shaded colour.
    pub open spec fn shown(self) -> [u8; 3] {
        if self.depth == 0 {
            [30, 30, 36]
        } else if self.differs {
            [255, 30, 30]
        } else {
            self.shade
        }
    }
}

/// A 3D image of shaded normals.
pub struct ShadedImage {
    /// The colours
    pub rgb: Vec<[u8; 3]>,
    /// The number of pixels whose normal differs
    pub differ: usize,
}

/// Draws shaded normals, and marks those that differ in red.
pub fn draw_surface(pixels: &[Surface]) -> (image: ShadedImage)
    ensures
        image.rgb@.len() == pixels@.len(),
        forall|i: int|
            0 <= i < pixels@.len() ==> #[trigger] image.rgb@[i] == pixels@[i].shown(),
        image.differ == pixels@.filter(|p: Surface| is_marked(p)).len(),
{
    let ghost test = |p: Surface| is_marked(p);
    let n: usize = pixels.len();
    let mut rgb: Vec<[u8; 3]> = Vec::new();
    let mut differ: usize = 0;
    let mut i: usize = 0;
    assert(pixels@.take(0).filter(test).len() == 0) by {
        reveal(Seq::filter);
    }
    while i < n
        invariant
            i <= n == pixels@.len(),
            test == (|p: Surface| is_marked(p)),
            rgb@.len() == i,
            forall|j: int| 0 <= j < i ==> #[trigger] rgb@[j] == pixels@[j].shown(),
            differ == pixels@.take(i as int).filter(test).len(),
            differ <= i,
        decreases n - i,
    {
        let p = pixels[i];
        proof {
            filter_step(pixels@, test, i as int);
        }
        if p.depth == 0 {
            rgb.push([30, 30, 36]);
        } else if p.differs {
            differ += 1;
            rgb.push([255, 30, 30]);
        } else {
            rgb.push(p.shade);
        }
        i += 1;
    }
    assert(pixels@.take(n as int) == pixels@);
    ShadedImage { rgb, differ }
}

// ---------------------------------------------------------------------------
// Files
// ---------------------------------------------------------------------------

/// The header of a PPM image.
pub open spec fn ppm_header(w: u32, h: u32) -> Seq<char> {
    "P6\n"@ + decimal(w as nat) + " "@ + decimal(h as nat) + "\n255\n"@
}

/// The bytes of colours, in order.
pub open spec fn colour_bytes(rgb: Seq<[u8; 3]>) -> Seq<u8>
    decreases rgb.len(),
{
    if rgb.len() == 0 {
        Seq::empty()
    } else {
        colour_bytes(rgb.drop_last()) + rgb.last()@
    }
}

/// Returns the bytes of a PPM image.
pub fn ppm(w: u32, h: u32, rgb: &[[u8; 3]]) -> (bytes: Vec<u8>)
    ensures
        bytes@ == encode_utf8(ppm_header(w, h)) + colour_bytes(rgb@),
{
    let mut header = "P6\n".to_owned();
    push_decimal(&mut header, w as usize);
    header.append(" ");
    push_decimal(&mut header, h as usize);
    header.append("\n255\n");
    assert(header@ =~= ppm_header(w, h));
    let mut bytes: Vec<u8> = header.as_str().as_bytes_vec();
    let ghost head = bytes@;
    let mut i: usize = 0;
    assert(rgb@.take(0) == Seq::<[u8; 3]>::empty());
    while i < rgb.len()
        invariant
            i <= rgb@.len(),
            head == encode_utf8(ppm_header(w, h)),
            bytes@ == head + colour_bytes(rgb@.take(i as int)),
        decreases rgb@.len() - i,
    {
        let p = rgb[i];
        bytes.push(p[0]);
        bytes.push(p[1]);
        bytes.push(p[2]);
        proof {
            assert(rgb@.take(i + 1).drop_last() == rgb@.take(i as int));
            assert(p@ =~= seq![p[0], p[1], p[2]]);
            assert(bytes@ =~= head + (colour_bytes(rgb@.take(i as int)) + p@));
        }
        i += 1;
    }
    assert(rgb@.take(i as int) == rgb@);
    bytes
}

/// Every pixel of a PPM image takes three bytes.
pub proof fn ppm_has_three_bytes_per_pixel(rgb: Seq<[u8; 3]>)
    ensures
        colour_bytes(rgb).len() == 3 * rgb.len(),
    decreases rgb.len(),
{
    if rgb.len() > 0 {
        ppm_has_three_bytes_per_pixel(rgb.drop_last());
    }
}

/// The name of an image of a model in some mode.
pub open spec fn image_name(model: Seq<char>, mode: Mode, three_d: bool) -> Seq<char> {
    model + "_"@ + mode.spelled() + (if three_d {
        "_3d.ppm"@
    } else {
        "_2d.ppm"@
    })
}

/// Returns the name of the image of a model in some mode, in 2D or 3D.
pub fn image_file(model: &str, mode: Mode, three_d: bool) -> (name: String)
    ensures
        name@ == image_name(model@, mode, three_d),
{
    let mut name = model.to_owned();
    name.append("_");
    name.append(mode.name());
    if three_d {
        name.append("_3d.ppm");
    } else {
        name.append("_2d.ppm");
    }
    name
}

/// What is said of a render in the summary.  The times are given as text.
pub struct RenderReport<'a> {
    /// The name of the model
    pub model: &'a str,
    /// How it was evaluated
    pub mode: Mode,
    /// The number of 2D pixels that were decided as part of a tile
    pub fills: usize,
    /// The number of 2D pixels that were decided on their own
    pub points: usize,
    /// The number of 3D pixels whose normal differs
    pub differ: usize,
    /// The time of the first 2D render
    pub first_2d: &'a str,
    /// The time of the first 3D render
    pub first_3d: &'a str,
}

/// The start of an entry of the summary.
pub open spec fn entry_start(model: Seq<char>, mode: Mode) -> Seq<char> {
    "{\"model\":\""@ + model + "\",\"mode\":\""@ + mode.spelled() + "\","@
}

/// The entry of a model that a mode does not support.
pub open spec fn unsupported_text(model: Seq<char>, mode: Mode) -> Seq<char> {
    entry_start(model, mode) + "\"unsupported\":true}"@
}

impl<'a> RenderReport<'a> {
    /// The entry of a render.
    pub open spec fn text(self) -> Seq<char> {
        entry_start(self.model@, self.mode) + "\"fills\":"@ + decimal(self.fills as nat)
            + ",\"points\":"@ + decimal(self.points as nat) + ",\"normals_differ\":"@ + decimal(
            self.differ as nat,
        ) + ",\"first_2d\":"@ + self.first_2d@ + ",\"first_3d\":"@ + self.first_3d@ + "}"@
    }

    /// Returns the entry of a render.
    pub fn entry(&self) -> (entry: String)
        ensures
            entry@ == self.text(),
    {
        let mut out = start_entry(self.model, self.mode);
        out.append("\"fills\":");
        push_decimal(&mut out, self.fills);
        out.append(",\"points\":");
        push_decimal(&mut out, self.points);
        out.append(",\"normals_differ\":");
        push_decimal(&mut out, self.differ);
        out.append(",\"first_2d\":");
        out.append(self.first_2d);
        out.append(",\"first_3d\":");
        out.append(self.first_3d);
        out.append("}");
        assert(out@ =~= self.text());
        out
    }
}

fn start_entry(model: &str, mode: Mode) -> (out: String)
    ensures
        out@ == entry_start(model@, mode),
{
    let mut out = "{\"model\":\"".to_owned();
    out.append(model);
    out.append("\",\"mode\":\"");
    out.append(mode.name());
    out.append("\",");
    assert(out@ =~= entry_start(model@, mode));
    out
}

/// Returns the entry of a model that a mode does not support.
pub fn unsupported_entry(model: &str, mode: Mode) -> (entry: String)
    ensures
        entry@ == unsupported_text(model@, mode),
{
    let mut out = start_entry(model, mode);
    out.append("\"unsupported\":true}");
    assert(out@ =~= unsupported_text(model@, mode));
    out
}

/// Entries with a comma and a new line between them.
pub open spec fn joined(entries: Seq<String>) -> Seq<char>
    decreases entries.len(),
{
    if entries.len() == 0 {
        Seq::empty()
    } else if entries.len() == 1 {
        entries[0]@
    } else {
        joined(entries.drop_last()) + ",\n"@ + entries.last()@
    }
}

/// Returns the summary: the entries as a list.
pub fn summary(entries: &[String]) -> (text: String)
    ensures
        text@ == "["@ + joined(entries@) + "]"@,
{
    let mut out = "[".to_owned();
    let mut i: usize = 0;
    assert(entries@.take(0) == Seq::<String>::empty());
    assert(out@ =~= "["@ + joined(entries@.take(0)));
    while i < entries.len()
        invariant
            i <= entries@.len(),
            out@ == "["@ + joined(entries@.take(i as int)),
        decreases entries@.len() - i,
    {
        let ghost before = joined(entries@.take(i as int));
        if i > 0 {
            out.append(",\n");
        }
        out.append(entries[i].as_str());
        assert(entries@.take(i + 1).drop_last() == entries@.take(i as int));
        assert(out@ =~= "["@ + joined(entries@.take(i + 1)));
        i += 1;
    }
    assert(entries@.take(i as int) == entries@);
    out.append("]");
    out
}

} // verus!
