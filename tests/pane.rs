use synless::divide::proportionally_divide;
use synless::pane::{
    coords_to_pos, demands_fit, pos_to_coords, divvy, Col, CursorVis, DocLabel, DocPosSpec, Pane, PaneError, PaneNotation,
    PaneSize, Pos, PrettyDocument, PrettyWindow, Rect, Row, Shade, Size,
};
use synless::style::Style;

#[test]
fn test_proportional_division() {
    assert_eq!(proportionally_divide(0, &vec!(1, 1)), vec!(0, 0));
    assert_eq!(proportionally_divide(1, &vec!(1, 1)), vec!(1, 0));
    assert_eq!(proportionally_divide(2, &vec!(1, 1)), vec!(1, 1));
    assert_eq!(proportionally_divide(3, &vec!(1, 1)), vec!(2, 1));
    assert_eq!(proportionally_divide(4, &vec!(10, 11, 12)), vec!(1, 1, 2));
    assert_eq!(proportionally_divide(5, &vec!(17)), vec!(5));
    assert_eq!(proportionally_divide(5, &vec!(12, 10, 11)), vec!(2, 1, 2));
    assert_eq!(proportionally_divide(5, &vec!(10, 10, 11)), vec!(2, 1, 2));
    assert_eq!(proportionally_divide(5, &vec!(2, 0, 1)), vec!(3, 0, 2));
    assert_eq!(proportionally_divide(61, &vec!(1, 2, 3)), vec!(10, 20, 31));
    assert_eq!(
        proportionally_divide(34583, &vec!(55, 98, 55, 7, 12, 200)),
        vec!(4455, 7937, 4454, 567, 972, 16198)
    );
}

#[test]
fn division_sums_and_stays_between_floor_and_ceiling() {
    let weights = vec![3, 7, 1, 9, 4];
    let cookies = 101;
    let total: usize = weights.iter().sum();
    let shares = proportionally_divide(cookies, &weights);
    assert_eq!(shares.iter().sum::<usize>(), cookies);
    for (a, w) in shares.iter().zip(weights.iter()) {
        let floor = cookies * w / total;
        let ceil = (cookies * w + total - 1) / total;
        assert!(floor <= *a && *a <= ceil);
    }
}

#[test]
fn division_ties_go_to_the_lowest_index() {
    assert_eq!(proportionally_divide(2, &vec![1, 1, 1]), vec![1, 1, 0]);
    assert_eq!(proportionally_divide(1, &vec![5, 5, 5, 5]), vec![1, 0, 0, 0]);
}

#[test]
fn division_of_nothing_among_nobody() {
    assert_eq!(proportionally_divide(7, &vec![]), Vec::<usize>::new());
}

#[test]
fn divvy_keeps_fixed_sizes_and_shares_the_rest() {
    let demands = vec![PaneSize::Fixed(3), PaneSize::Proportional(1), PaneSize::Proportional(2)];
    assert_eq!(divvy(12, &demands), Some(vec![3, 3, 6]));
}

#[test]
fn divvy_refuses_too_many_fixed_rows() {
    let demands = vec![PaneSize::Fixed(8), PaneSize::Fixed(5)];
    assert_eq!(divvy(12, &demands), None);
    assert_eq!(divvy(13, &demands), Some(vec![8, 5]));
}

#[test]
fn demands_with_dyn_height_do_not_fit() {
    assert!(!demands_fit(10, &vec![PaneSize::DynHeight]));
    assert!(!demands_fit(10, &vec![PaneSize::Proportional(0)]));
    assert!(demands_fit(10, &vec![PaneSize::Fixed(2), PaneSize::Proportional(1)]));
}

fn rect(row: Row, col: Col, height: Row, width: Col) -> Rect {
    Rect { pos: Pos { row, col }, size: Size { width, height } }
}

#[test]
fn splits_tile_the_rectangle() {
    let r = rect(2, 5, 4, 10);
    assert_eq!(r.horz_splits(&vec![3, 7]), vec![rect(2, 5, 4, 3), rect(2, 8, 4, 7)]);
    assert_eq!(r.vert_splits(&vec![1, 3]), vec![rect(2, 5, 1, 10), rect(3, 5, 3, 10)]);
    assert!(r.covers(rect(3, 6, 2, 2)));
    assert!(!r.covers(rect(3, 6, 2, 20)));
}

/// A window that records what is printed on it.
struct Grid {
    cells: Vec<Vec<char>>,
    shaded: Vec<Rect>,
}

impl Grid {
    fn new(width: usize, height: usize) -> Grid {
        Grid { cells: vec![vec!['.'; width]; height], shaded: Vec::new() }
    }

    fn lines(&self) -> Vec<String> {
        self.cells.iter().map(|l| l.iter().collect()).collect()
    }
}

impl PrettyWindow for Grid {
    type Error = ();

    fn print(&mut self, pos: Pos, text: &str, _style: Style) -> Result<(), ()> {
        for (i, ch) in text.chars().enumerate() {
            self.cells[pos.row as usize][pos.col as usize + i] = ch;
        }
        Ok(())
    }

    fn shade(&mut self, region: Rect, _shade: Shade) -> Result<(), ()> {
        self.shaded.push(region);
        Ok(())
    }

    fn highlight(&mut self, pos: Pos, _style: Style) -> Result<(), ()> {
        self.cells[pos.row as usize][pos.col as usize] = '#';
        Ok(())
    }
}

/// A document of `lines` rows of one letter.
struct Letters {
    ch: char,
    lines: Row,
}

impl PrettyDocument for Letters {
    fn required_height(&self, _width: Col) -> Row {
        self.lines
    }

    fn pretty_print<T: PrettyWindow>(
        &self,
        width: Col,
        pane: &mut Pane<T>,
        _doc_pos: DocPosSpec,
        _cursor_visibility: CursorVis,
    ) -> Result<(), PaneError<T::Error>> {
        let line: String = std::iter::repeat(self.ch).take(width as usize).collect();
        for row in 0..self.lines.min(pane.rect().size.height) {
            pane.print(Pos { row, col: 0 }, &line, Style::default())
                .map_err(PaneError::PrettyWindow)?;
        }
        Ok(())
    }
}

fn content(label: &DocLabel) -> Option<(Letters, CursorVis)> {
    match label {
        DocLabel::ActiveDoc => Some((Letters { ch: 'a', lines: 9 }, CursorVis::Show)),
        DocLabel::KeyHints => Some((Letters { ch: 'k', lines: 1 }, CursorVis::Hide)),
        _ => None,
    }
}

fn fill(ch: char) -> PaneNotation {
    PaneNotation::Fill { ch, style: None }
}

fn doc(label: DocLabel) -> PaneNotation {
    PaneNotation::Doc { label, style: None }
}

#[test]
fn render_lays_out_nested_panes() {
    let mut grid = Grid::new(6, 4);
    let note = PaneNotation::Horz {
        panes: vec![
            (
                PaneSize::Proportional(1),
                PaneNotation::Vert {
                    panes: vec![
                        (PaneSize::Proportional(1), doc(DocLabel::ActiveDoc)),
                        (PaneSize::DynHeight, doc(DocLabel::KeyHints)),
                    ],
                    style: None,
                },
            ),
            (PaneSize::Fixed(1), fill('|')),
            (PaneSize::Proportional(1), fill(' ')),
        ],
        style: None,
    };
    let mut pane = Pane { window: &mut grid, rect: rect(0, 0, 4, 6) };
    assert!(pane.render(&note, None, &content).is_ok());
    assert_eq!(grid.lines(), vec!["aaa|  ", "aaa|  ", "aaa|  ", "kkk|  "]);
}

#[test]
fn render_reports_a_missing_document() {
    let mut grid = Grid::new(4, 2);
    let mut pane = Pane { window: &mut grid, rect: rect(0, 0, 2, 4) };
    let r = pane.render(&doc(DocLabel::Messages), None, &content);
    assert!(matches!(r, Err(PaneError::Missing(DocLabel::Messages))));
}

#[test]
fn render_refuses_impossible_and_invalid_layouts() {
    let mut grid = Grid::new(4, 2);
    let mut pane = Pane { window: &mut grid, rect: rect(0, 0, 2, 4) };
    let too_wide = PaneNotation::Horz {
        panes: vec![(PaneSize::Fixed(3), fill('x')), (PaneSize::Fixed(2), fill('y'))],
        style: None,
    };
    assert!(matches!(pane.render(&too_wide, None, &content), Err(PaneError::ImpossibleDemands)));
    let dyn_fill = PaneNotation::Vert { panes: vec![(PaneSize::DynHeight, fill('x'))], style: None };
    assert!(matches!(pane.render(&dyn_fill, None, &content), Err(PaneError::InvalidNotation)));
}

#[test]
fn render_into_an_empty_pane_does_nothing() {
    let mut grid = Grid::new(2, 2);
    let mut pane = Pane { window: &mut grid, rect: rect(0, 0, 0, 2) };
    assert!(pane.render(&doc(DocLabel::Messages), None, &content).is_ok());
    assert_eq!(grid.lines(), vec!["..", ".."]);
}

#[test]
fn pane_coordinates_are_relative() {
    let mut grid = Grid::new(5, 3);
    let mut pane = Pane { window: &mut grid, rect: rect(1, 2, 2, 3) };
    pane.print(Pos { row: 1, col: 1 }, "x", Style::default()).unwrap();
    pane.highlight(Pos { row: 0, col: 0 }, Style::default()).unwrap();
    pane.shade(rect(0, 1, 1, 1), Shade(2)).unwrap();
    assert!(pane.sub_pane(rect(0, 0, 1, 1)).is_none());
    assert_eq!(pane.sub_pane(rect(1, 2, 1, 1)).unwrap().rect(), rect(1, 2, 1, 1));
    assert_eq!(grid.lines(), vec![".....", "..#..", "...x."]);
    assert_eq!(grid.shaded, vec![rect(1, 3, 1, 1)]);
}

#[test]
fn terminal_coordinates_are_one_based() {
    let p = Pos { row: 4, col: 9 };
    assert_eq!(pos_to_coords(p), (10, 5));
    assert_eq!(coords_to_pos(10, 5), p);
    assert_eq!(coords_to_pos(1, 1), Pos { row: 0, col: 0 });
}
