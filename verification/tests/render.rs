use rotate_pairs::board::{Input, Output};
use rotate_pairs::render::{can_frame, color, draw, group, highlights, rect, scene, title, vis, vis_default, Scene};
use svg::node::element::{Group, Rectangle, Style, Text, Title};

fn board3() -> Input {
    Input { size: 3, board: vec![vec![0, 1, 2], vec![0, 3, 3], vec![1, 2, 4]] }
}

// The picture written with the svg crate directly, cell by cell.
fn picture(cells: &Vec<Vec<usize>>, frame: Option<(usize, usize, usize)>, show: bool) -> String {
    let size = cells.len();
    let d = 10;
    let w = d * size;
    let mut doc = svg::Document::new()
        .set("id", "vis")
        .set("viewBox", (-5, -5, w + 10, w + 10))
        .set("width", w + 10)
        .set("height", w + 10)
        .set("style", "background-color:white");
    doc = doc.add(Style::new("text {text-anchor: middle;dominant-baseline: central;}"));
    for i in 0..size {
        for j in 0..size {
            let mut c = 0;
            let di: [i32; 4] = [-1, 1, 0, 0];
            let dj: [i32; 4] = [0, 0, -1, 1];
            for k in 0..4 {
                let ni = i as i32 + di[k];
                let nj = j as i32 + dj[k];
                if ni >= 0 && ni < size as i32 && nj >= 0 && nj < size as i32 {
                    if cells[i][j] == cells[ni as usize][nj as usize] {
                        c = 1;
                    }
                }
            }
            let fill = if c == 0 { "#ff0000" } else { "#0000ff" };
            let mut g = Group::new()
                .add(Title::new(format!("b[{},{}] = {}", i, j, cells[i][j])))
                .add(
                    Rectangle::new()
                        .set("x", j * d)
                        .set("y", i * d)
                        .set("width", d)
                        .set("height", d)
                        .set("fill", fill),
                );
            if show {
                g = g.add(
                    Text::new(format!("{}", cells[i][j]))
                        .set("x", j * d + d / 2)
                        .set("y", i * d + d / 2)
                        .set("font-size", d / 6),
                );
            }
            doc = doc.add(g);
        }
    }
    if let Some((i, j, n)) = frame {
        doc = doc.add(
            Rectangle::new()
                .set("x", j * d)
                .set("y", i * d)
                .set("width", n * d)
                .set("height", n * d)
                .set("fill", "none")
                .set("stroke", "black")
                .set("stroke-width", 3),
        );
    }
    doc.to_string()
}

#[test]
fn colours_are_red_for_zero_and_blue_otherwise() {
    assert_eq!(color(0), "#ff0000");
    assert_eq!(color(1), "#0000ff");
    assert_eq!(color(-7), "#0000ff");
}

#[test]
fn titles_name_the_cell_and_its_value() {
    assert_eq!(title(0, 0, 0), "b[0,0] = 0");
    assert_eq!(title(12, 3, 145), "b[12,3] = 145");
}

#[test]
fn rect_sets_corner_extent_and_fill() {
    assert_eq!(
        rect(1, 2, 3, 4, "none").to_string(),
        "<rect fill=\"none\" height=\"4\" width=\"3\" x=\"1\" y=\"2\"/>"
    );
}

#[test]
fn group_holds_its_title() {
    assert_eq!(group("a & b".to_string()).to_string(), "<g>\n<title>a &amp; b</title>\n</g>");
    assert_eq!(
        group("<x> && 'y'".to_string()).to_string(),
        "<g>\n<title>&lt;x&gt; &amp;&amp; 'y'</title>\n</g>"
    );
}

#[test]
fn highlights_mark_cells_with_an_equal_neighbour() {
    let b = board3();
    assert_eq!(
        highlights(&b.board, 3),
        vec![vec![true, false, false], vec![true, true, true], vec![false, false, false]]
    );
    assert_eq!(highlights(&vec![vec![9]], 1), vec![vec![false]]);
    assert_eq!(highlights(&vec![], 0), Vec::<Vec<bool>>::new());
    assert_eq!(
        highlights(&vec![vec![1, 2], vec![2, 2]], 2),
        vec![vec![false, true], vec![true, true]]
    );
}

#[test]
fn the_scene_shows_the_board_after_the_moves() {
    let b = board3();
    let (score, err, s) = scene(&b, &[(0, 0, 2)], false);
    assert_eq!((score, err.as_str()), (1, ""));
    assert_eq!(
        s,
        Scene {
            size: 3,
            cells: vec![vec![0, 0, 2], vec![3, 1, 3], vec![1, 2, 4]],
            matched: vec![vec![true, true, false], vec![false; 3], vec![false; 3]],
            frame: Some((0, 0, 2)),
            show_number: false,
        }
    );
    let (score, err, s) = scene(&b, &[], true);
    assert_eq!((score, err.as_str()), (2, ""));
    assert_eq!(s.cells, b.board);
    assert_eq!(s.frame, None);
    assert!(s.show_number);
}

#[test]
fn the_scene_stops_before_a_move_that_does_not_fit() {
    let b = board3();
    let (score, err, s) = scene(&b, &[(0, 0, 2), (2, 2, 2), (0, 0, 1)], true);
    assert_eq!((score, err.as_str()), (0, "Out of range"));
    assert_eq!(s.cells, vec![vec![0, 0, 2], vec![3, 1, 3], vec![1, 2, 4]]);
    assert_eq!(s.frame, Some((0, 0, 1)));
}

#[test]
fn draw_writes_the_picture_of_the_scene() {
    let b = board3();
    let (_, _, s) = scene(&b, &[(1, 1, 2)], true);
    assert_eq!(draw(&s), picture(&s.cells, Some((1, 1, 2)), true));
    let (_, _, s) = scene(&b, &[], false);
    assert_eq!(draw(&s), picture(&b.board, None, false));
    let text = draw(&s);
    assert!(text.starts_with("<svg height=\"40\" id=\"vis\" style=\"background-color:white\" viewBox=\"-5 -5 40 40\" width=\"40\" xmlns=\"http://www.w3.org/2000/svg\">"));
    assert!(text.contains("<title>b[1,2] = 3</title>"));
    assert!(text.contains("<rect fill=\"#0000ff\" height=\"10\" width=\"10\" x=\"20\" y=\"10\"/>"));
    assert!(text.contains("<rect fill=\"#ff0000\" height=\"10\" width=\"10\" x=\"0\" y=\"20\"/>"));
}

#[test]
fn vis_scores_and_draws() {
    let b = board3();
    let (score, err, svg) = vis(&b, &[(0, 0, 2)], true);
    assert_eq!((score, err.as_str()), (1, ""));
    assert_eq!(
        svg,
        picture(&vec![vec![0, 0, 2], vec![3, 1, 3], vec![1, 2, 4]], Some((0, 0, 2)), true)
    );
    assert!(svg.contains("<text font-size=\"1\" x=\"5\" y=\"5\">\n0\n</text>"));
    assert!(svg.contains(
        "<rect fill=\"none\" height=\"20\" stroke=\"black\" stroke-width=\"3\" width=\"20\" x=\"0\" y=\"0\"/>"
    ));
}

#[test]
fn drawing_twice_gives_the_same_picture() {
    let b = board3();
    let ops = [(0, 1, 2), (1, 0, 2)];
    assert_eq!(vis(&b, &ops, true), vis(&b, &ops, true));
    assert_eq!(scene(&b, &ops, false), scene(&b, &ops, false));
}

#[test]
fn vis_default_shows_the_values_and_zeroes_the_score_on_error() {
    let b = board3();
    let ok = vis_default(&b, &Output { out: vec![(0, 0, 2)] });
    assert_eq!(ok, vis(&b, &[(0, 0, 2)], true));
    let bad = vis_default(&b, &Output { out: vec![(0, 0, 4)] });
    assert_eq!((bad.0, bad.1.as_str()), (0, "Out of range"));
    assert_eq!(bad.2, picture(&b.board, Some((0, 0, 4)), true));
}

#[test]
fn a_frame_is_drawn_where_its_measures_fit() {
    assert!(can_frame(None));
    assert!(can_frame(Some((0, 0, 0))));
    assert!(can_frame(Some((usize::MAX / 10, 3, 3))));
    assert!(!can_frame(Some((usize::MAX / 10 + 1, 3, 3))));
    assert!(!can_frame(Some((1, usize::MAX, 3))));
    assert!(!can_frame(Some((1, 1, usize::MAX / 2))));
}
