//! Drawing a board: what there is to draw, as plain values, and the picture
//! that the `svg` crate makes of it.

use crate::board::{grid_of, is_square, Input, Op, Output};
use crate::replay::{all_fit, first_misfit, replayed};
use crate::score::{adjacent_matches, compute_score_details, out_of_range_text, score_fits};
use crate::tally::lemma_flat_index;
use crate::text::{decimal, digits, signed_digits};
use svg::node::element::{Group, Rectangle, Style, Text, Title, SVG};
use vstd::prelude::*;
use vstd::string::{StrSliceExecFns, StringExecFns};

verus! {

/// The picture as a whole, of the `svg` crate: the element `svg`. What it
/// holds is spoken of through `document_attributes` and `document_children`.
#[verifier::external_type_specification]
#[verifier::external_body]
pub struct ExDocument(SVG);

/// A group of shapes, of the `svg` crate: the element `g`. What it holds is
/// spoken of through `group_attributes` and `group_children`.
#[verifier::external_type_specification]
#[verifier::external_body]
pub struct ExGroup(Group);

/// A rectangle, of the `svg` crate: the element `rect`. What it holds is
/// spoken of through `rectangle_attributes` and `rectangle_children`.
#[verifier::external_type_specification]
#[verifier::external_body]
pub struct ExRectangle(Rectangle);

/// The attributes of an element: the text of each value, by name.
pub type Attributes = Map<Seq<char>, Seq<char>>;

/// A child of an element: the text that it is written as, and whether it is
/// bare text, which is written without line breaks around it.
pub type Child = (Seq<char>, bool);

/// The attributes that a picture holds.
pub uninterp spec fn document_attributes(doc: SVG) -> Attributes;

/// The children that a picture holds, in order.
pub uninterp spec fn document_children(doc: SVG) -> Seq<Child>;

/// The attributes that a group holds.
pub uninterp spec fn group_attributes(g: Group) -> Attributes;

/// The children that a group holds, in order.
pub uninterp spec fn group_children(g: Group) -> Seq<Child>;

/// The attributes that a rectangle holds.
pub uninterp spec fn rectangle_attributes(r: Rectangle) -> Attributes;

/// The children that a rectangle holds, in order.
pub uninterp spec fn rectangle_children(r: Rectangle) -> Seq<Child>;

/// The text that the `svg` crate writes for an element (`Display` of
/// `Element`): a function of its tag, its attributes, its children and of
/// whether it is written in the alternate form, in which bare text stands on
/// lines of its own.
pub uninterp spec fn element_text(
    tag: Seq<char>,
    attributes: Attributes,
    children: Seq<Child>,
    alternate: bool,
) -> Seq<char>;

/// What stands for a character in bare text: an entity for `&`, `<` and
/// `>`, and the character itself for any other.
pub open spec fn escaped_char(c: char) -> Seq<char> {
    if c == '&' {
        "&amp;"@
    } else if c == '<' {
        "&lt;"@
    } else if c == '>' {
        "&gt;"@
    } else {
        seq![c]
    }
}

/// The text that the `svg` crate writes for bare text (`Display` of
/// `node::Text`): the content with `&`, `<` and `>` escaped.
pub open spec fn text_escaped(content: Seq<char>) -> Seq<char>
    decreases content.len(),
{
    if content.len() == 0 {
        Seq::empty()
    } else {
        text_escaped(content.drop_last()) + escaped_char(content.last())
    }
}

/// No attributes.
pub open spec fn no_attributes() -> Attributes {
    Map::empty()
}

/// No children.
pub open spec fn no_children() -> Seq<Child> {
    Seq::empty()
}

/// Bare text as the one child of an element.
pub open spec fn bare_text(written: Seq<char>) -> Seq<Child> {
    no_children().push((written, true))
}

/// The attributes of a rectangle with its corner, its extent and its fill.
/// A number is held as its text in base ten.
pub open spec fn rect_attributes(x: int, y: int, w: int, h: int, fill: Seq<char>) -> Attributes {
    no_attributes().insert("x"@, digits(x as nat)).insert(
        "y"@,
        digits(y as nat),
    ).insert("width"@, digits(w as nat)).insert("height"@, digits(h as nat)).insert("fill"@, fill)
}

/// The attributes of an empty picture: the name space that every picture
/// has, its name, its view box as four numbers with a blank between them,
/// its width, its height and its style.
pub open spec fn blank_attributes(
    id: Seq<char>,
    origin: int,
    width: int,
    height: int,
    style: Seq<char>,
) -> Attributes {
    no_attributes().insert("xmlns"@, "http://www.w3.org/2000/svg"@).insert(
        "id"@,
        id,
    ).insert(
        "viewBox"@,
        signed_digits(origin) + " "@ + signed_digits(origin) + " "@ + digits(width as nat) + " "@
            + digits(height as nat),
    ).insert("width"@, digits(width as nat)).insert("height"@, digits(height as nat)).insert(
        "style"@,
        style,
    )
}

/// `Rectangle::new` and `set`: a rectangle with no children and with the
/// five attributes given, each number as `to_string` writes it.
#[verifier::external_body]
pub fn rect(x: usize, y: usize, w: usize, h: usize, fill: &str) -> (r: Rectangle)
    ensures
        rectangle_attributes(r) == rect_attributes(x as int, y as int, w as int, h as int, fill@),
        rectangle_children(r) == no_children(),
{
    Rectangle::new().set("x", x).set("y", y).set("width", w).set("height", h).set("fill", fill)
}

/// `Group::new`, `Title::new` and `add`: a group with no attributes whose one
/// child is the element `title` that holds the given text.
#[verifier::external_body]
pub fn group(title: String) -> (g: Group)
    ensures
        group_attributes(g) == no_attributes(),
        group_children(g) == no_children().push(
            (element_text("title"@, no_attributes(), bare_text(text_escaped(title@)), false), false),
        ),
{
    Group::new().add(Title::new(title))
}

/// `Document::new` and `set`: a picture with no children, with the name
/// space that `new` sets and the five attributes given. The view box is set
/// from four numbers, which the crate joins with blanks.
#[verifier::external_body]
fn blank_document(id: &str, origin: i32, width: usize, height: usize, style: &str) -> (doc: SVG)
    ensures
        document_attributes(doc) == blank_attributes(
            id@,
            origin as int,
            width as int,
            height as int,
            style@,
        ),
        document_children(doc) == no_children(),
{
    SVG::new().set("id", id).set("viewBox", (origin, origin, width, height)).set(
        "width",
        width,
    ).set("height", height).set("style", style)
}

/// `Style::new` and `add`: the picture with one more child, the element
/// `style` that holds the given text. A style is written in the alternate
/// form.
#[verifier::external_body]
fn with_style(doc: SVG, css: &str) -> (r: SVG)
    ensures
        document_attributes(r) == document_attributes(doc),
        document_children(r) == document_children(doc).push(
            (element_text("style"@, no_attributes(), bare_text(text_escaped(css@)), true), false),
        ),
{
    doc.add(Style::new(css))
}

/// `add`: the group with one more child, the rectangle as it is written.
#[verifier::external_body]
fn with_rect(g: Group, r: Rectangle) -> (out: Group)
    ensures
        group_attributes(out) == group_attributes(g),
        group_children(out) == group_children(g).push(
            (element_text("rect"@, rectangle_attributes(r), rectangle_children(r), false), false),
        ),
{
    g.add(r)
}

/// The attributes of a text placed at `(x, y)` in a size.
pub open spec fn label_attributes(x: int, y: int, font_size: int) -> Attributes {
    no_attributes().insert("x"@, digits(x as nat)).insert(
        "y"@,
        digits(y as nat),
    ).insert("font-size"@, digits(font_size as nat))
}

/// `Text::new`, `set` and `add`: the group with one more child, the element
/// `text` that holds the given content and the three attributes given. A
/// text is written in the alternate form.
#[verifier::external_body]
fn with_label(g: Group, content: String, x: usize, y: usize, font_size: usize) -> (out: Group)
    ensures
        group_attributes(out) == group_attributes(g),
        group_children(out) == group_children(g).push(
            (
                element_text(
                    "text"@,
                    label_attributes(x as int, y as int, font_size as int),
                    bare_text(text_escaped(content@)),
                    true,
                ),
                false,
            ),
        ),
{
    g.add(Text::new(content).set("x", x).set("y", y).set("font-size", font_size))
}

/// `add`: the picture with one more child, the group as it is written.
#[verifier::external_body]
fn with_group(doc: SVG, g: Group) -> (r: SVG)
    ensures
        document_attributes(r) == document_attributes(doc),
        document_children(r) == document_children(doc).push(
            (element_text("g"@, group_attributes(g), group_children(g), false), false),
        ),
{
    doc.add(g)
}

/// `set` and `add`: the picture with one more child, the rectangle as it is
/// written once the two attributes of its outline are set.
#[verifier::external_body]
fn with_outline(doc: SVG, r: Rectangle, stroke: &str, stroke_width: usize) -> (out: SVG)
    ensures
        document_attributes(out) == document_attributes(doc),
        document_children(out) == document_children(doc).push(
            (
                element_text(
                    "rect"@,
                    rectangle_attributes(r).insert("stroke"@, stroke@).insert(
                        "stroke-width"@,
                        digits(stroke_width as nat),
                    ),
                    rectangle_children(r),
                    false,
                ),
                false,
            ),
        ),
{
    doc.add(r.set("stroke", stroke).set("stroke-width", stroke_width))
}

/// `to_string`, that is `Display` of the picture: the element `svg` with
/// what the picture holds, written in the alternate form.
#[verifier::external_body]
fn document_text(doc: &SVG) -> (r: String)
    ensures
        r@ == element_text("svg"@, document_attributes(*doc), document_children(*doc), true),
{
    doc.to_string()
}

/// The side of a cell in the picture.
pub const UNIT: usize = 10;

/// The width of the rim around the board in the picture.
pub const MARGIN: usize = 5;

/// What there is to draw: the board, which of its cells have an equal
/// neighbour, the block of the last move, and whether the cells show their
/// values.
#[derive(Clone, Debug, PartialEq, Eq)]
pub struct Scene {
    pub size: usize,
    pub cells: Vec<Vec<usize>>,
    pub matched: Vec<Vec<bool>>,
    pub frame: Option<Op>,
    pub show_number: bool,
}

/// A `Scene` as a mathematical value.
pub struct SceneView {
    pub size: usize,
    pub cells: Seq<Seq<usize>>,
    pub matched: Seq<Seq<bool>>,
    pub frame: Option<Op>,
    pub show_number: bool,
}

/// The rows of marks as sequences.
pub open spec fn marks_of(rows: Vec<Vec<bool>>) -> Seq<Seq<bool>> {
    Seq::new(rows@.len(), |r: int| rows@[r]@)
}

impl View for Scene {
    type V = SceneView;

    open spec fn view(&self) -> SceneView {
        SceneView {
            size: self.size,
            cells: grid_of(self.cells),
            matched: marks_of(self.matched),
            frame: self.frame,
            show_number: self.show_number,
        }
    }
}

/// The cell `(r, c)` has a neighbour above, below, to the left or to the
/// right that holds the same value.
pub open spec fn has_equal_neighbour(g: Seq<Seq<usize>>, r: int, c: int) -> bool {
    ||| 0 <= r - 1 && g[r - 1][c] == g[r][c]
    ||| r + 1 < g.len() && g[r + 1][c] == g[r][c]
    ||| 0 <= c - 1 && g[r][c - 1] == g[r][c]
    ||| c + 1 < g[r].len() && g[r][c + 1] == g[r][c]
}

/// The marks of a grid: for each cell, whether it has an equal neighbour.
pub open spec fn marks(g: Seq<Seq<usize>>) -> Seq<Seq<bool>> {
    Seq::new(g.len(), |r: int| Seq::new(g[r].len(), |c: int| has_equal_neighbour(g, r, c)))
}

/// The block to frame: that of the last move, where there is a move.
pub open spec fn frame_of(ops: Seq<Op>) -> Option<Op> {
    if ops.len() > 0 {
        Some(ops.last())
    } else {
        None
    }
}

/// What there is to draw after the moves `ops` on the grid `g`: the board
/// that the moves lead to, or, where a move does not fit, the board reached
/// before the first such move.
pub open spec fn scene_spec(g: Seq<Seq<usize>>, ops: Seq<Op>, show_number: bool) -> SceneView {
    let shown = replayed(g, ops.take(first_misfit(g.len() as int, ops)));
    SceneView {
        size: g.len() as usize,
        cells: shown,
        matched: marks(shown),
        frame: frame_of(ops),
        show_number,
    }
}

/// Marks the cells that have an equal neighbour.
pub fn highlights(rows: &Vec<Vec<usize>>, size: usize) -> (r: Vec<Vec<bool>>)
    requires
        is_square(grid_of(*rows), size as int),
    ensures
        marks_of(r) == marks(grid_of(*rows)),
{
    let ghost g = grid_of(*rows);
    let mut out: Vec<Vec<bool>> = Vec::new();
    let mut i: usize = 0;
    while i < size
        invariant
            i <= size,
            g == grid_of(*rows),
            is_square(g, size as int),
            out@.len() == i,
            forall|k: int| 0 <= k < i ==> (#[trigger] out@[k])@ == marks(g)[k],
        decreases size - i,
    {
        let mut row: Vec<bool> = Vec::new();
        let mut j: usize = 0;
        while j < size
            invariant
                i < size,
                j <= size,
                g == grid_of(*rows),
                is_square(g, size as int),
                row@ == marks(g)[i as int].take(j as int),
            decreases size - j,
        {
            assert(g[i as int].len() == size);
            let v = rows[i][j];
            let mut hit = false;
            if i > 0 {
                assert(g[i as int - 1].len() == size);
                if rows[i - 1][j] == v {
                    hit = true;
                }
            }
            if i + 1 < size {
                assert(g[i as int + 1].len() == size);
                if rows[i + 1][j] == v {
                    hit = true;
                }
            }
            if j > 0 && rows[i][j - 1] == v {
                hit = true;
            }
            if j + 1 < size && rows[i][j + 1] == v {
                hit = true;
            }
            row.push(hit);
            assert(row@ =~= marks(g)[i as int].take(j as int + 1));
            j += 1;
        }
        assert(marks(g)[i as int].take(size as int) =~= marks(g)[i as int]);
        out.push(row);
        i += 1;
    }
    assert(marks_of(out) =~= marks(g));
    out
}

/// Replays the moves, scores the board as `compute_score_details` does, and
/// says what there is to draw.
pub fn scene(input: &Input, out: &[Op], show_number: bool) -> (r: (i64, String, Scene))
    requires
        input.wf(),
        all_fit(input.size as int, out@) ==> score_fits(input.size as int),
    ensures
        r.2@ == scene_spec(input.grid(), out@, show_number),
        is_square(r.2@.cells, input.size as int),
        all_fit(input.size as int, out@) ==> {
            &&& r.0 == adjacent_matches(replayed(input.grid(), out@))
            &&& r.1@.len() == 0
        },
        !all_fit(input.size as int, out@) ==> {
            &&& r.0 == 0
            &&& r.1@ == out_of_range_text()
        },
{
    let (score, err, cells) = compute_score_details(input, out);
    proof {
        crate::replay::lemma_first_misfit(input.size as int, out@);
        if all_fit(input.size as int, out@) {
            assert(out@.take(out@.len() as int) =~= out@);
        }
    }
    let matched = highlights(&cells, input.size);
    let frame = if out.len() > 0 {
        Some(out[out.len() - 1])
    } else {
        None
    };
    (score, err, Scene { size: input.size, cells, matched, frame, show_number })
}

/// The lower-case hexadecimal digit of a value below sixteen.
pub open spec fn hex_char(d: nat) -> char {
    if d < 10 {
        crate::text::digit_char(d)
    } else if d == 10 {
        'a'
    } else if d == 11 {
        'b'
    } else if d == 12 {
        'c'
    } else if d == 13 {
        'd'
    } else if d == 14 {
        'e'
    } else {
        'f'
    }
}

/// A colour as `#rrggbb`: each part as two hexadecimal digits.
pub open spec fn rgb_text(r: u8, g: u8, b: u8) -> Seq<char> {
    seq![
        '#',
        hex_char(r as nat / 16),
        hex_char(r as nat % 16),
        hex_char(g as nat / 16),
        hex_char(g as nat % 16),
        hex_char(b as nat / 16),
        hex_char(b as nat % 16),
    ]
}

/// The colour of a cell: red for the mark 0, blue for any other.
pub open spec fn color_text(val: i32) -> Seq<char> {
    if val == 0 {
        rgb_text(255, 0, 0)
    } else {
        rgb_text(0, 0, 255)
    }
}

/// The text of one hexadecimal digit.
fn hex_text(d: u8) -> (r: &'static str)
    requires
        d < 16,
    ensures
        r@ == seq![hex_char(d as nat)],
{
    proof {
        reveal_strlit("0");
        reveal_strlit("1");
        reveal_strlit("2");
        reveal_strlit("3");
        reveal_strlit("4");
        reveal_strlit("5");
        reveal_strlit("6");
        reveal_strlit("7");
        reveal_strlit("8");
        reveal_strlit("9");
        reveal_strlit("a");
        reveal_strlit("b");
        reveal_strlit("c");
        reveal_strlit("d");
        reveal_strlit("e");
        reveal_strlit("f");
    }
    let r = if d == 0 {
        "0"
    } else if d == 1 {
        "1"
    } else if d == 2 {
        "2"
    } else if d == 3 {
        "3"
    } else if d == 4 {
        "4"
    } else if d == 5 {
        "5"
    } else if d == 6 {
        "6"
    } else if d == 7 {
        "7"
    } else if d == 8 {
        "8"
    } else if d == 9 {
        "9"
    } else if d == 10 {
        "a"
    } else if d == 11 {
        "b"
    } else if d == 12 {
        "c"
    } else if d == 13 {
        "d"
    } else if d == 14 {
        "e"
    } else {
        "f"
    };
    assert(r@ =~= seq![hex_char(d as nat)]);
    r
}

/// Writes a colour as `#rrggbb`.
fn rgb(r: u8, g: u8, b: u8) -> (s: String)
    ensures
        s@ == rgb_text(r, g, b),
{
    proof {
        reveal_strlit("#");
    }
    let mut s = "#".to_owned();
    s.append(hex_text(r / 16));
    s.append(hex_text(r % 16));
    s.append(hex_text(g / 16));
    s.append(hex_text(g % 16));
    s.append(hex_text(b / 16));
    s.append(hex_text(b % 16));
    assert(s@ =~= rgb_text(r, g, b));
    s
}

/// The colour of a cell with the mark `val`: `#ff0000` for 0, `#0000ff` for
/// any other mark.
pub fn color(val: i32) -> (r: String)
    ensures
        r@ == color_text(val),
        val == 0 ==> r@ == "#ff0000"@,
        val != 0 ==> r@ == "#0000ff"@,
{
    proof {
        reveal_strlit("#ff0000");
        reveal_strlit("#0000ff");
        assert("#ff0000"@ =~= rgb_text(255, 0, 0));
        assert("#0000ff"@ =~= rgb_text(0, 0, 255));
    }
    if val == 0 {
        rgb(255, 0, 0)
    } else {
        rgb(0, 0, 255)
    }
}

/// The title of the cell `(i, j)` that holds `v`: `b[i,j] = v`.
pub open spec fn title_text(i: usize, j: usize, v: usize) -> Seq<char> {
    "b["@ + digits(i as nat) + ","@ + digits(j as nat) + "] = "@ + digits(v as nat)
}

/// Writes the title of a cell.
pub fn title(i: usize, j: usize, v: usize) -> (r: String)
    ensures
        r@ == title_text(i, j, v),
{
    let mut r = "b[".to_owned();
    r.append(decimal(i).as_str());
    r.append(",");
    r.append(decimal(j).as_str());
    r.append("] = ");
    r.append(decimal(v).as_str());
    r
}

/// The picture of a board of side `size` can be measured in `usize`.
pub open spec fn drawable(size: int) -> bool {
    UNIT * size + 2 * MARGIN <= usize::MAX
}

/// The frame of a block can be measured in `usize`.
pub open spec fn frame_drawable(frame: Option<Op>) -> bool {
    match frame {
        Some(op) => UNIT * op.0 <= usize::MAX && UNIT * op.1 <= usize::MAX && UNIT * op.2
            <= usize::MAX,
        None => true,
    }
}

/// Whether the frame of a block can be measured in `usize`.
pub fn can_frame(frame: Option<Op>) -> (b: bool)
    ensures
        b == frame_drawable(frame),
{
    match frame {
        Some((x, y, n)) => {
            let most = usize::MAX / UNIT;
            x <= most && y <= most && n <= most
        },
        None => true,
    }
}

impl Scene {
    /// The scene holds a square board and a mark for each of its cells.
    pub open spec fn wf(&self) -> bool {
        &&& is_square(self@.cells, self.size as int)
        &&& self@.matched.len() == self.size
        &&& forall|r: int| 0 <= r < self.size ==> (#[trigger] self@.matched[r]).len() == self.size
    }
}

/// The style sheet of every picture.
pub open spec fn style_sheet() -> Seq<char> {
    "text {text-anchor: middle;dominant-baseline: central;}"@
}

/// The style sheet as a child of the picture.
pub open spec fn style_part() -> Child {
    (element_text("style"@, no_attributes(), bare_text(text_escaped(style_sheet())), true), false)
}

/// What the group of the cell `(i, j)` holds: its title, then a square of
/// side `UNIT` at its place, red for a cell with no equal neighbour and blue
/// for one that has one, then, where values are shown, the value in the
/// middle of the square.
pub open spec fn tile_parts(i: int, j: int, v: usize, matched: bool, show_number: bool) -> Seq<
    Child,
> {
    let titled = no_children().push(
        (
            element_text(
                "title"@,
                no_attributes(),
                bare_text(text_escaped(title_text(i as usize, j as usize, v))),
                false,
            ),
            false,
        ),
    );
    let filled = titled.push(
        (
            element_text(
                "rect"@,
                rect_attributes(
                    j * UNIT,
                    i * UNIT,
                    UNIT as int,
                    UNIT as int,
                    color_text(
                        if matched {
                            1
                        } else {
                            0
                        },
                    ),
                ),
                no_children(),
                false,
            ),
            false,
        ),
    );
    if show_number {
        filled.push(
            (
                element_text(
                    "text"@,
                    label_attributes(j * UNIT + UNIT / 2, i * UNIT + UNIT / 2, UNIT as int / 6),
                    bare_text(text_escaped(digits(v as nat))),
                    true,
                ),
                false,
            ),
        )
    } else {
        filled
    }
}

/// The group of the cell `(i, j)` of a scene, as a child of the picture.
pub open spec fn tile(scene: SceneView, i: int, j: int) -> Child {
    (
        element_text(
            "g"@,
            no_attributes(),
            tile_parts(i, j, scene.cells[i][j], scene.matched[i][j], scene.show_number),
            false,
        ),
        false,
    )
}

/// The groups of the first `k` cells of a scene, row by row.
pub open spec fn tiles(scene: SceneView, k: int) -> Seq<Child> {
    Seq::new(k as nat, |p: int| tile(scene, p / (scene.size as int), p % (scene.size as int)))
}

/// The outline of the block of a move, as a child of the picture: a
/// rectangle over the block, not filled, with a black line of width 3.
pub open spec fn frame_part(op: Op) -> Child {
    (
        element_text(
            "rect"@,
            rect_attributes(op.1 * UNIT, op.0 * UNIT, op.2 * UNIT, op.2 * UNIT, "none"@).insert(
                "stroke"@,
                "black"@,
            ).insert("stroke-width"@, digits(3)),
            no_children(),
            false,
        ),
        false,
    )
}

/// The children of the picture of a scene: the style sheet, the groups of
/// the cells row by row, and the outline of the block to frame where there
/// is one.
pub open spec fn picture_children(scene: SceneView) -> Seq<Child> {
    let cells = no_children().push(style_part()) + tiles(scene, scene.size * scene.size);
    match scene.frame {
        Some(op) => cells.push(frame_part(op)),
        None => cells,
    }
}

/// The attributes of the picture of a board of side `size`: the board with
/// a rim of width `MARGIN` around it, on white.
pub open spec fn picture_attributes(size: int) -> Attributes {
    blank_attributes(
        "vis"@,
        -5,
        UNIT * size + 2 * MARGIN,
        UNIT * size + 2 * MARGIN,
        "background-color:white"@,
    )
}

/// The text of the picture of a scene, as the `svg` crate writes it.
pub open spec fn picture(scene: SceneView) -> Seq<char> {
    element_text("svg"@, picture_attributes(scene.size as int), picture_children(scene), true)
}

/// Draws a scene: every cell as a square of side `UNIT`, red where it has
/// no equal neighbour and blue where it has one, with its title and, where
/// asked for, its value; then the outline of the block to frame. The result
/// is the text of the picture, as the `svg` crate writes it.
pub fn draw(scene: &Scene) -> (r: String)
    requires
        scene.wf(),
        drawable(scene.size as int),
        frame_drawable(scene.frame),
    ensures
        r@ == picture(scene@),
{
    let size = scene.size;
    let extent = UNIT * size + 2 * MARGIN;
    let mut doc = blank_document("vis", -5, extent, extent, "background-color:white");
    doc = with_style(doc, "text {text-anchor: middle;dominant-baseline: central;}");
    let ghost head = no_children().push(style_part());
    let mut i: usize = 0;
    assert(tiles(scene@, 0) =~= no_children());
    assert(head + tiles(scene@, 0) =~= head);
    assert(0 * size == 0);
    while i < size
        invariant
            i <= size,
            size == scene.size,
            scene.wf(),
            drawable(size as int),
            head == no_children().push(style_part()),
            document_attributes(doc) == picture_attributes(size as int),
            document_children(doc) == head + tiles(scene@, i * size),
        decreases size - i,
    {
        let mut j: usize = 0;
        while j < size
            invariant
                i < size,
                j <= size,
                size == scene.size,
                scene.wf(),
                drawable(size as int),
                head == no_children().push(style_part()),
                document_attributes(doc) == picture_attributes(size as int),
                document_children(doc) == head + tiles(scene@, i * size + j),
            decreases size - j,
        {
            assert(scene@.cells[i as int].len() == size);
            assert(scene@.matched[i as int].len() == size);
            let v = scene.cells[i][j];
            let hit = scene.matched[i][j];
            let mark: i32 = if hit {
                1
            } else {
                0
            };
            let fill = color(mark);
            let mut g = group(title(i, j, v));
            g = with_rect(g, rect(j * UNIT, i * UNIT, UNIT, UNIT, fill.as_str()));
            if scene.show_number {
                g = with_label(g, decimal(v), j * UNIT + UNIT / 2, i * UNIT + UNIT / 2, UNIT / 6);
            }
            proof {
                assert(group_children(g) == tile_parts(
                    i as int,
                    j as int,
                    v,
                    hit,
                    scene.show_number,
                ));
                lemma_flat_index(size as int, i as int, j as int);
                let k = i * size + j;
                assert(tiles(scene@, k + 1) =~= tiles(scene@, k).push(
                    tile(scene@, i as int, j as int),
                ));
                assert((head + tiles(scene@, k)).push(tile(scene@, i as int, j as int)) =~= head
                    + tiles(scene@, k + 1));
            }
            doc = with_group(doc, g);
            j += 1;
        }
        i += 1;
        assert(i * size == (i - 1) * size + size) by (nonlinear_arith);
    }
    match scene.frame {
        Some((x, y, n)) => {
            doc = with_outline(doc, rect(y * UNIT, x * UNIT, n * UNIT, n * UNIT, "none"), "black", 3);
        },
        None => {},
    }
    document_text(&doc)
}

/// Replays the moves on the board, scores it and draws it. The result is the
/// score, the error message and the text of the picture.
///
/// The score and the message are those of `compute_score_details`; the
/// picture is that of the scene that `scene` gives.
pub fn vis(input: &Input, out: &[Op], show_number: bool) -> (r: (i64, String, String))
    requires
        input.wf(),
        all_fit(input.size as int, out@) ==> score_fits(input.size as int),
        drawable(input.size as int),
        frame_drawable(frame_of(out@)),
    ensures
        all_fit(input.size as int, out@) ==> {
            &&& r.0 == adjacent_matches(replayed(input.grid(), out@))
            &&& r.1@.len() == 0
        },
        !all_fit(input.size as int, out@) ==> {
            &&& r.0 == 0
            &&& r.1@ == out_of_range_text()
        },
        r.2@ == picture(scene_spec(input.grid(), out@, show_number)),
{
    let (score, err, what) = scene(input, out, show_number);
    proof {
        crate::replay::lemma_replayed_square(
            input.grid(),
            input.size as int,
            out@.take(first_misfit(input.size as int, out@)),
        );
        assert(what@.matched == marks(what@.cells));
    }
    let svg = draw(&what);
    (score, err, svg)
}

/// Replays, scores and draws a list of moves, with the value shown in every
/// cell. Where the message is not empty the score is 0.
pub fn vis_default(input: &Input, out: &Output) -> (r: (i64, String, String))
    requires
        input.wf(),
        all_fit(input.size as int, out@) ==> score_fits(input.size as int),
        drawable(input.size as int),
        frame_drawable(frame_of(out@)),
    ensures
        all_fit(input.size as int, out@) ==> {
            &&& r.0 == adjacent_matches(replayed(input.grid(), out@))
            &&& r.1@.len() == 0
        },
        !all_fit(input.size as int, out@) ==> {
            &&& r.0 == 0
            &&& r.1@ == out_of_range_text()
        },
        r.1@.len() > 0 ==> r.0 == 0,
        r.2@ == picture(scene_spec(input.grid(), out@, true)),
{
    let (score, err, svg) = vis(input, out.out.as_slice(), true);
    if err.as_str().unicode_len() > 0 {
        (0, err, svg)
    } else {
        (score, err, svg)
    }
}

} // verus!
