use vstd::prelude::*;

use crate::divide::{
    divisible, is_fair_division, lemma_total_nonneg, lemma_total_prefix, lemma_total_push,
    proportionally_divide, total,
};
use crate::style::Style;
use crate::text::push_char;

verus! {

/// The size of a subpane within a vertically or horizontally concatenated
/// set of subpanes.
#[derive(Clone, Copy, Debug, PartialEq, Eq, Structural)]
pub enum PaneSize {
    /// Exactly this many rows (in a `Vert`) or columns (in a `Horz`).
    Fixed(usize),
    /// As much height as the document needs, bounded by what is left. Only
    /// for a `Doc` subpane of a `Vert`.
    DynHeight,
    /// A share of what the `Fixed` and `DynHeight` subpanes leave,
    /// proportional to this weight.
    Proportional(usize),
}

impl PaneSize {
    pub fn get_fixed(&self) -> (r: Option<usize>)
        ensures
            r == (match *self {
                PaneSize::Fixed(n) => Some(n),
                _ => None,
            }),
    {
        match self {
            PaneSize::Fixed(n) => Some(*n),
            _ => None,
        }
    }

    pub fn get_proportional(&self) -> (r: Option<usize>)
        ensures
            r == (match *self {
                PaneSize::Proportional(n) => Some(n),
                _ => None,
            }),
    {
        match self {
            PaneSize::Proportional(n) => Some(*n),
            _ => None,
        }
    }
}

/// Total of the `Fixed` sizes.
pub open spec fn fixed_total(d: Seq<PaneSize>) -> int
    decreases d.len(),
{
    if d.len() == 0 {
        0
    } else {
        fixed_total(d.drop_last()) + match d.last() {
            PaneSize::Fixed(n) => n as int,
            _ => 0,
        }
    }
}

/// The weights of the `Proportional` sizes, in order.
pub open spec fn hungers(d: Seq<PaneSize>) -> Seq<usize>
    decreases d.len(),
{
    if d.len() == 0 {
        Seq::empty()
    } else {
        match d.last() {
            PaneSize::Proportional(n) => hungers(d.drop_last()).push(n),
            _ => hungers(d.drop_last()),
        }
    }
}

/// The entries of `v` that stand at `Proportional` sizes of `d`, in order.
pub open spec fn proportional_part(d: Seq<PaneSize>, v: Seq<usize>) -> Seq<usize>
    decreases d.len(),
{
    if d.len() == 0 || v.len() == 0 {
        Seq::empty()
    } else {
        let rest = proportional_part(d.drop_last(), v.drop_last());
        match d.last() {
            PaneSize::Proportional(_) => rest.push(v.last()),
            _ => rest,
        }
    }
}

pub open spec fn no_dyn_height(d: Seq<PaneSize>) -> bool {
    forall|i: int| 0 <= i < d.len() ==> d[i] != PaneSize::DynHeight
}

/// What `divvy` hands out on success: every `Fixed` size as it is, and the
/// rest of the cookies divided fairly among the `Proportional` sizes.
pub open spec fn is_divvied(cookies: nat, d: Seq<PaneSize>, v: Seq<usize>) -> bool {
    &&& v.len() == d.len()
    &&& forall|i: int|
        0 <= i < d.len() ==> match #[trigger] d[i] {
            PaneSize::Fixed(n) => v[i] == n,
            _ => true,
        }
    &&& is_fair_division(
        (cookies - fixed_total(d)) as nat,
        hungers(d),
        proportional_part(d, v),
    )
}

proof fn lemma_fixed_total_prefix(d: Seq<PaneSize>, k: int)
    requires
        0 <= k <= d.len(),
    ensures
        fixed_total(d.take(k)) <= fixed_total(d),
    decreases d.len(),
{
    if k < d.len() {
        assert(d.drop_last().take(k) =~= d.take(k));
        lemma_fixed_total_prefix(d.drop_last(), k);
    } else {
        assert(d.take(k) =~= d);
    }
}

proof fn lemma_hungers_prefix_len(d: Seq<PaneSize>, k: int)
    requires
        0 <= k <= d.len(),
    ensures
        hungers(d.take(k)).len() <= hungers(d).len(),
    decreases d.len(),
{
    if k < d.len() {
        assert(d.drop_last().take(k) =~= d.take(k));
        lemma_hungers_prefix_len(d.drop_last(), k);
    } else {
        assert(d.take(k) =~= d);
    }
}

/// What a divvied sequence adds up to: the `Fixed` sizes plus the
/// proportional part.
proof fn lemma_divvied_total(d: Seq<PaneSize>, v: Seq<usize>)
    requires
        v.len() == d.len(),
        no_dyn_height(d),
        forall|i: int|
            0 <= i < d.len() ==> match #[trigger] d[i] {
                PaneSize::Fixed(n) => v[i] == n,
                _ => true,
            },
    ensures
        total(v) == fixed_total(d) + total(proportional_part(d, v)),
    decreases d.len(),
{
    if d.len() > 0 {
        let n = d.len() - 1;
        assert(d[n] == d.last());
        lemma_divvied_total(d.drop_last(), v.drop_last());
        let rest = proportional_part(d.drop_last(), v.drop_last());
        match d.last() {
            PaneSize::Proportional(_) => {
                lemma_total_push(rest, v.last());
            },
            _ => {},
        }
    }
}

/// Divide `cookies` among the `demands`: `None` when the `Fixed` sizes
/// alone ask for more than there is.
pub fn divvy(cookies: usize, demands: &Vec<PaneSize>) -> (r: Option<Vec<usize>>)
    requires
        no_dyn_height(demands@),
        fixed_total(demands@) <= cookies ==> divisible(
            (cookies - fixed_total(demands@)) as usize,
            hungers(demands@),
        ),
    ensures
        r is None <==> fixed_total(demands@) > cookies,
        r matches Some(v) ==> is_divvied(cookies as nat, demands@, v@),
        r matches Some(v) ==> total(v@) <= cookies,
{
    let ghost d = demands@;
    let n = demands.len();
    let mut total_fixed: usize = 0;
    let mut hungry: Vec<usize> = Vec::new();
    let mut i: usize = 0;
    while i < n
        invariant
            n == d.len(),
            d == demands@,
            0 <= i <= n,
            total_fixed == fixed_total(d.take(i as int)),
            total_fixed <= cookies,
            hungry@ == hungers(d.take(i as int)),
        decreases n - i,
    {
        proof {
            assert(d.take(i + 1).drop_last() =~= d.take(i as int));
        }
        match demands[i].get_fixed() {
            Some(f) => {
                if f > cookies - total_fixed {
                    proof {
                        lemma_fixed_total_prefix(d, i + 1);
                    }
                    return None;
                }
                total_fixed = total_fixed + f;
            },
            None => {},
        }
        match demands[i].get_proportional() {
            Some(h) => {
                hungry.push(h);
            },
            None => {},
        }
        i = i + 1;
    }
    proof {
        assert(d.take(n as int) =~= d);
    }
    let shares = proportionally_divide(cookies - total_fixed, &hungry);
    let mut out: Vec<usize> = Vec::new();
    let mut next: usize = 0;
    i = 0;
    while i < n
        invariant
            n == d.len(),
            d == demands@,
            no_dyn_height(d),
            0 <= i <= n,
            out.len() == i,
            shares.len() == hungry.len(),
            hungry@ == hungers(d),
            next == hungers(d.take(i as int)).len(),
            proportional_part(d.take(i as int), out@) == shares@.take(next as int),
            forall|k: int|
                0 <= k < i ==> match #[trigger] d[k] {
                    PaneSize::Fixed(f) => out[k] == f,
                    _ => true,
                },
        decreases n - i,
    {
        let ghost prev = out@;
        let ghost prev_next = next;
        proof {
            assert(d.take(i + 1).drop_last() =~= d.take(i as int));
            lemma_hungers_prefix_len(d, i + 1);
        }
        match demands[i] {
            PaneSize::Fixed(f) => {
                out.push(f);
            },
            PaneSize::Proportional(_) => {
                out.push(shares[next]);
                next = next + 1;
                proof {
                    assert(shares@.take(next as int).drop_last() =~= shares@.take(
                        prev_next as int,
                    ));
                }
            },
            PaneSize::DynHeight => {
                assert(d[i as int] != PaneSize::DynHeight);
            },
        }
        proof {
            assert(out@.drop_last() =~= prev);
        }
        i = i + 1;
    }
    proof {
        assert(d.take(n as int) =~= d);
        assert(shares@.take(next as int) =~= shares@);
        lemma_divvied_total(d, out@);
        lemma_total_nonneg(shares@);
    }
    Some(out)
}

pub type Row = u32;

pub type Col = u16;

/// A character position: row and column.
#[derive(Clone, Copy, Debug, PartialEq, Eq, Structural)]
pub struct Pos {
    pub row: Row,
    pub col: Col,
}

/// The width and height of a rectangle.
#[derive(Clone, Copy, Debug, PartialEq, Eq, Structural)]
pub struct Size {
    pub width: Col,
    pub height: Row,
}

/// A rectangle of character cells, with its top left corner at `pos`.
#[derive(Clone, Copy, Debug, PartialEq, Eq, Structural)]
pub struct Rect {
    pub pos: Pos,
    pub size: Size,
}

/// A terminal's 1-based column and row (x, y) of a position.
pub fn pos_to_coords(pos: Pos) -> (r: (u16, u16))
    requires
        pos.col < u16::MAX,
        pos.row < u16::MAX,
    ensures
        r.0 == pos.col + 1,
        r.1 == pos.row + 1,
{
    (pos.col + 1, pos.row as u16 + 1)
}

/// The position at a terminal's 1-based column and row (x, y).
pub fn coords_to_pos(x: u16, y: u16) -> (r: Pos)
    requires
        x >= 1,
        y >= 1,
    ensures
        r.col == x - 1,
        r.row == y - 1,
{
    Pos { col: x - 1, row: y as Row - 1 }
}

/// Converting a position to terminal coordinates and back gives the
/// position again.
pub proof fn lemma_coords_round_trip(pos: Pos, x: u16, y: u16)
    requires
        pos.col < u16::MAX,
        pos.row < u16::MAX,
        x == pos.col + 1,
        y == pos.row + 1,
    ensures
        (Pos { col: (x - 1) as Col, row: (y - 1) as Row }) == pos,
{
}

/// A background shade, from 0 (none) upwards.
#[derive(Clone, Copy, Debug, PartialEq, Eq, Structural)]
pub struct Shade(pub u8);

impl Rect {
    /// The rectangle ends within the coordinate range.
    pub open spec fn wf(self) -> bool {
        &&& self.pos.col + self.size.width <= Col::MAX
        &&& self.pos.row + self.size.height <= Row::MAX
    }

    pub open spec fn spec_covers(self, other: Rect) -> bool {
        &&& self.pos.col <= other.pos.col
        &&& self.pos.row <= other.pos.row
        &&& other.pos.col + other.size.width <= self.pos.col + self.size.width
        &&& other.pos.row + other.size.height <= self.pos.row + self.size.height
    }

    pub fn width(&self) -> (r: Col)
        ensures
            r == self.size.width,
    {
        self.size.width
    }

    pub fn height(&self) -> (r: Row)
        ensures
            r == self.size.height,
    {
        self.size.height
    }

    pub fn is_empty(&self) -> (r: bool)
        ensures
            r == (self.size.width == 0 || self.size.height == 0),
    {
        self.size.width == 0 || self.size.height == 0
    }

    /// Whether `other` lies entirely within this rectangle.
    pub fn covers(&self, other: Rect) -> (r: bool)
        ensures
            r == self.spec_covers(other),
    {
        let my_right = self.pos.col as u64 + self.size.width as u64;
        let my_bottom = self.pos.row as u64 + self.size.height as u64;
        let right = other.pos.col as u64 + other.size.width as u64;
        let bottom = other.pos.row as u64 + other.size.height as u64;
        self.pos.col <= other.pos.col && self.pos.row <= other.pos.row && right <= my_right
            && bottom <= my_bottom
    }

    /// Cut this rectangle into side-by-side pieces of the given widths,
    /// from the left.
    pub fn horz_splits(&self, widths: &Vec<usize>) -> (r: Vec<Rect>)
        requires
            self.wf(),
            total(widths@) <= self.size.width,
        ensures
            r.len() == widths.len(),
            forall|i: int|
                0 <= i < r.len() ==> (#[trigger] r[i]).pos.row == self.pos.row && r[i].pos.col == self.pos.col
                    + total(widths@.take(i)) && r[i].size.width == widths[i] && r[i].size.height
                    == self.size.height,
            forall|i: int| 0 <= i < r.len() ==> self.spec_covers(#[trigger] r[i]),
    {
        let mut out: Vec<Rect> = Vec::new();
        let mut offset: usize = 0;
        let mut i: usize = 0;
        while i < widths.len()
            invariant
                self.wf(),
                total(widths@) <= self.size.width,
                0 <= i <= widths.len(),
                out.len() == i,
                offset == total(widths@.take(i as int)),
                forall|k: int|
                    0 <= k < i ==> (#[trigger] out[k]).pos.row == self.pos.row && out[k].pos.col == self.pos.col
                        + total(widths@.take(k)) && out[k].size.width == widths[k]
                        && out[k].size.height == self.size.height,
                forall|k: int| 0 <= k < i ==> self.spec_covers(#[trigger] out[k]),
            decreases widths.len() - i,
        {
            proof {
                assert(widths@.take(i + 1).drop_last() =~= widths@.take(i as int));
                lemma_total_prefix(widths@, i + 1);
            }
            let piece = Rect {
                pos: Pos { row: self.pos.row, col: self.pos.col + offset as Col },
                size: Size { width: widths[i] as Col, height: self.size.height },
            };
            out.push(piece);
            offset = offset + widths[i];
            i = i + 1;
        }
        out
    }

    /// Cut this rectangle into pieces of the given heights, stacked from
    /// the top.
    pub fn vert_splits(&self, heights: &Vec<usize>) -> (r: Vec<Rect>)
        requires
            self.wf(),
            total(heights@) <= self.size.height,
        ensures
            r.len() == heights.len(),
            forall|i: int|
                0 <= i < r.len() ==> (#[trigger] r[i]).pos.col == self.pos.col && r[i].pos.row == self.pos.row
                    + total(heights@.take(i)) && r[i].size.height == heights[i]
                    && r[i].size.width == self.size.width,
            forall|i: int| 0 <= i < r.len() ==> self.spec_covers(#[trigger] r[i]),
    {
        let mut out: Vec<Rect> = Vec::new();
        let mut offset: usize = 0;
        let mut i: usize = 0;
        while i < heights.len()
            invariant
                self.wf(),
                total(heights@) <= self.size.height,
                0 <= i <= heights.len(),
                out.len() == i,
                offset == total(heights@.take(i as int)),
                forall|k: int|
                    0 <= k < i ==> (#[trigger] out[k]).pos.col == self.pos.col && out[k].pos.row == self.pos.row
                        + total(heights@.take(k)) && out[k].size.height == heights[k]
                        && out[k].size.width == self.size.width,
                forall|k: int| 0 <= k < i ==> self.spec_covers(#[trigger] out[k]),
            decreases heights.len() - i,
        {
            proof {
                assert(heights@.take(i + 1).drop_last() =~= heights@.take(i as int));
                lemma_total_prefix(heights@, i + 1);
            }
            let piece = Rect {
                pos: Pos { row: self.pos.row + offset as Row, col: self.pos.col },
                size: Size { width: self.size.width, height: heights[i] as Row },
            };
            out.push(piece);
            offset = offset + heights[i];
            i = i + 1;
        }
        out
    }
}

/// Where a window can be printed to. The pane layout draws through it.
/// Each implementation keeps, as a ghost record, the calls it has been
/// handed (`drawn`), each with whether it succeeded; a call adds itself to
/// that record whatever it returns. A verified implementation overrides
/// `drawn` with its own record.
pub trait PrettyWindow {
    type Error;

    /// The drawing calls handed to this window so far, oldest first. A
    /// verified implementation keeps it; the default stands for a window
    /// whose record nobody inspects.
    closed spec fn drawn(&self) -> Seq<(Draw, bool)> {
        Seq::empty()
    }

    /// Print `text` with its first character at `pos`. No newlines.
    fn print(&mut self, pos: Pos, text: &str, style: Style) -> (r: Result<(), Self::Error>)
        ensures
            final(self).drawn() == old(self).drawn().push((Draw::Print(pos, text@, style), r is Ok)),
    ;

    /// Shade the background of `region`, keeping the text.
    fn shade(&mut self, region: Rect, shade: Shade) -> (r: Result<(), Self::Error>)
        ensures
            final(self).drawn() == old(self).drawn().push((Draw::Shade(region, shade), r is Ok)),
    ;

    /// Shade the single character at `pos`.
    fn highlight(&mut self, pos: Pos, style: Style) -> (r: Result<(), Self::Error>)
        ensures
            final(self).drawn() == old(self).drawn().push((Draw::Highlight(pos, style), r is Ok)),
    ;
}

/// One drawing call handed to a window.
pub ghost enum Draw {
    Print(Pos, Seq<char>, Style),
    Shade(Rect, Shade),
    Highlight(Pos, Style),
}

/// `pos` moved by the corner `corner`.
pub open spec fn shifted(pos: Pos, corner: Pos) -> Pos {
    Pos { row: (pos.row + corner.row) as Row, col: (pos.col + corner.col) as Col }
}

/// A rectangular area of a window. You can print to it, or get sub-panes
/// of it and print to those.
pub struct Pane<'a, T: PrettyWindow> {
    pub window: &'a mut T,
    pub rect: Rect,
}

impl<'a, T: PrettyWindow> Pane<'a, T> {
    /// The position and size of the area covered by this pane.
    pub fn rect(&self) -> (r: Rect)
        ensures
            r == self.rect,
    {
        self.rect
    }

    /// A pane for the part `rect` of this one, in the window's own
    /// coordinates; `None` when `rect` is not within this pane.
    pub fn sub_pane<'b>(&'b mut self, rect: Rect) -> (r: Option<Pane<'b, T>>)
        ensures
            r is None <==> !old(self).rect.spec_covers(rect),
            r matches Some(p) ==> p.rect == rect,
            final(self).rect == old(self).rect,
    {
        if !self.rect.covers(rect) {
            return None;
        }
        Some(Pane { window: &mut *self.window, rect })
    }

    /// Print `text` with its first character at `pos`, relative to the
    /// pane's top left corner. No newlines.
    pub fn print(&mut self, pos: Pos, text: &str, style: Style) -> (r: Result<(), T::Error>)
        requires
            old(self).rect.pos.row + pos.row <= Row::MAX,
            old(self).rect.pos.col + pos.col <= Col::MAX,
        ensures
            final(self).rect == old(self).rect,
            (*final(self).window).drawn() == (*old(self).window).drawn().push(
                (Draw::Print(shifted(pos, old(self).rect.pos), text@, style), r is Ok),
            ),
    {
        let abs_pos = Pos { row: pos.row + self.rect.pos.row, col: pos.col + self.rect.pos.col };
        self.window.print(abs_pos, text, style)
    }

    /// Shade the background of `region`, relative to the pane's top left
    /// corner. The text stays.
    pub fn shade(&mut self, region: Rect, shade: Shade) -> (r: Result<(), T::Error>)
        requires
            old(self).rect.pos.row + region.pos.row <= Row::MAX,
            old(self).rect.pos.col + region.pos.col <= Col::MAX,
        ensures
            final(self).rect == old(self).rect,
            (*final(self).window).drawn() == (*old(self).window).drawn().push(
                (Draw::Shade((Rect { pos: shifted(region.pos, old(self).rect.pos), size: region.size }), shade), r is Ok),
            ),
    {
        let abs_region = Rect {
            pos: Pos { row: region.pos.row + self.rect.pos.row, col: region.pos.col + self.rect.pos.col },
            size: region.size,
        };
        self.window.shade(abs_region, shade)
    }

    /// Shade the character at `pos`, relative to the pane's top left corner.
    pub fn highlight(&mut self, pos: Pos, style: Style) -> (r: Result<(), T::Error>)
        requires
            old(self).rect.pos.row + pos.row <= Row::MAX,
            old(self).rect.pos.col + pos.col <= Col::MAX,
        ensures
            final(self).rect == old(self).rect,
            (*final(self).window).drawn() == (*old(self).window).drawn().push(
                (Draw::Highlight(shifted(pos, old(self).rect.pos), style), r is Ok),
            ),
    {
        let abs_pos = Pos { row: pos.row + self.rect.pos.row, col: pos.col + self.rect.pos.col };
        self.window.highlight(abs_pos, style)
    }

    /// Render `note` into this pane. `get_content` maps the label of each
    /// `Doc` to a document and whether its cursor shows; `parent_style`
    /// applies to parts of `note` that give no style.
    pub fn render<F, U>(&mut self, note: &PaneNotation, parent_style: Option<Style>, get_content: &F) -> (r:
        Result<(), PaneError<T::Error>>) where
        F: Fn(&DocLabel) -> Option<(U, CursorVis)>,
        U: PrettyDocument,

        requires
            old(self).rect.wf(),
            forall|l: &DocLabel| get_content.requires((l,)),
        ensures
            final(self).rect == old(self).rect,
            old(self).rect.size.width == 0 || old(self).rect.size.height == 0 ==> r is Ok
                && (*final(self).window).drawn() == (*old(self).window).drawn(),
            old(self).rect.size.width > 0 && old(self).rect.size.height > 0 ==> match *note {
                PaneNotation::Fill { ch, style } => (r is Ok ==> (*final(self).window).drawn() == (*old(self).window).drawn() + succeeded(fill_rows(old(self).rect, ch, fill_style(style, parent_style))))
                    && (r is Err ==> r->Err_0 is PrettyWindow && fill_failed_at(
                        (*old(self).window).drawn(),
                        (*final(self).window).drawn(),
                        fill_rows(old(self).rect, ch, fill_style(style, parent_style)),
                    )),
                PaneNotation::Doc { label, style: _ } => (forall|o: Option<(U, CursorVis)>|
                    get_content.ensures((&label,), o) ==> o is None) ==> r == Err::<
                    (),
                    PaneError<T::Error>,
                >(PaneError::Missing(label)) && (*final(self).window).drawn() == (*old(self).window).drawn(),
                PaneNotation::Horz { panes, style: _ } => fixed_total(sizes_of(panes@)) > old(self).rect.size.width ==> r == Err::<(), PaneError<T::Error>>(PaneError::ImpossibleDemands)
                    && (*final(self).window).drawn() == (*old(self).window).drawn(),
                PaneNotation::Vert { panes, style: _ } => (dyn_docs_resolve(*get_content, panes@, panes@.len() as int)
                    && fixed_total(sizes_of(panes@)) > old(self).rect.size.height ==> r == Err::<
                    (),
                    PaneError<T::Error>,
                >(PaneError::ImpossibleDemands) && (*final(self).window).drawn() == (*old(self).window).drawn())
                    && (forall|k: int| 0 <= k < panes@.len() && #[trigger] bad_dyn_at(panes@, k) && dyn_docs_resolve(*get_content, panes@, k) ==> r == Err::<
                    (),
                    PaneError<T::Error>,
                >(PaneError::InvalidNotation) && (*final(self).window).drawn() == (*old(self).window).drawn()),
            },
        decreases note,
    {
        if self.rect.is_empty() {
            return Ok(());
        }
        match note {
            PaneNotation::Horz { panes, style } => {
                let n = panes.len();
                let mut sizes: Vec<PaneSize> = Vec::new();
                let mut i: usize = 0;
                while i < n
                    invariant
                        n == panes.len(),
                        0 <= i <= n,
                        sizes.len() == i,
                        forall|q: int| 0 <= q < i ==> sizes@[q] == panes@[q].0,
                    decreases n - i,
                {
                    sizes.push(panes[i].0);
                    i = i + 1;
                }
                proof {
                    assert(sizes@ =~= sizes_of(panes@));
                }
                let total_width = self.rect.size.width as usize;
                if !demands_fit(total_width, &sizes) {
                    return Err(PaneError::ImpossibleDemands);
                }
                let widths = match divvy(total_width, &sizes) {
                    Some(w) => w,
                    None => {
                        return Err(PaneError::ImpossibleDemands);
                    },
                };
                let style = style_or(*style, parent_style);
                let rects = self.rect.horz_splits(&widths);
                let mut k: usize = 0;
                while k < n
                    invariant
                        *note is Horz,
                        note->Horz_panes == *panes,
                        fixed_total(sizes_of(panes@)) <= old(self).rect.size.width,
                        n == panes.len(),
                        rects.len() == n,
                        self.rect.wf(),
                        forall|q: int| 0 <= q < n ==> self.rect.spec_covers(#[trigger] rects[q]),
                        forall|l: &DocLabel| get_content.requires((l,)),
                        self.rect == old(self).rect,
                        old(self).rect.size.width > 0 && old(self).rect.size.height > 0,
                    decreases n - k,
                {
                    let mut child = match self.sub_pane(rects[k]) {
                        Some(p) => p,
                        None => {
                            return Err(PaneError::NotSubPane);
                        },
                    };
                    proof {
                        vstd::std_specs::vec::axiom_vec_index_decreases(*panes, k as int);
                        assert(decreases_to!(*note => note->Horz_panes));
                        assert(decreases_to!(*note => panes[k as int].1));
                    }
                    child.render(&panes[k].1, style, get_content)?;
                    k = k + 1;
                }
            },
            PaneNotation::Vert { panes, style } => {
                let n = panes.len();
                let total_height = self.rect.size.height;
                let width = self.rect.size.width;
                let mut total_fixed: usize = 0;
                let mut i: usize = 0;
                while i < n
                    invariant
                        n == panes.len(),
                        0 <= i <= n,
                    decreases n - i,
                {
                    match panes[i].0 {
                        PaneSize::Fixed(f) => {
                            total_fixed = total_fixed.saturating_add(f);
                        },
                        _ => {},
                    }
                    i = i + 1;
                }
                let mut available: Row = if total_fixed >= total_height as usize {
                    0
                } else {
                    total_height - total_fixed as Row
                };
                let mut sizes: Vec<PaneSize> = Vec::new();
                i = 0;
                while i < n
                    invariant
                        n == panes.len(),
                        0 <= i <= n,
                        sizes.len() == i,
                        *note is Vert,
                        note->Vert_panes == *panes,
                        no_dyn_height(sizes_of(panes@)) ==> forall|q: int| 0 <= q < i ==> sizes@[q] == panes@[q].0,
                        forall|k: int| 0 <= k < i ==> !(#[trigger] bad_dyn_at(panes@, k)),
                        fixed_total(sizes@) >= fixed_total(sizes_of(panes@).take(i as int)),
                        (*self.window).drawn() == (*old(self).window).drawn(),
                        forall|l: &DocLabel| get_content.requires((l,)),
                        self.rect == old(self).rect,
                        old(self).rect.size.width > 0 && old(self).rect.size.height > 0,
                    decreases n - i,
                {
                    let ghost prev = sizes@;
                    match panes[i].0 {
                        PaneSize::DynHeight => {
                            proof {
                                assert(sizes_of(panes@)[i as int] == PaneSize::DynHeight);
                            }
                            match &panes[i].1 {
                                PaneNotation::Doc { label, .. } => {
                                    let (doc, _) = match get_content(label) {
                                        Some(c) => c,
                                        None => {
                                            return Err(PaneError::Missing(*label));
                                        },
                                    };
                                    let wanted = doc.required_height(width);
                                    let height = if wanted < available {
                                        wanted
                                    } else {
                                        available
                                    };
                                    available = available - height;
                                    sizes.push(PaneSize::Fixed(height as usize));
                                },
                                _ => {
                                    return Err(PaneError::InvalidNotation);
                                },
                            }
                        },
                        size => {
                            sizes.push(size);
                        },
                    }
                    proof {
                        assert(sizes_of(panes@).take(i + 1).drop_last() =~= sizes_of(panes@).take(i as int));
                        assert(sizes_of(panes@).take(i + 1).last() == panes@[i as int].0);
                        assert(sizes@.drop_last() =~= prev);
                    }
                    i = i + 1;
                }
                proof {
                    if no_dyn_height(sizes_of(panes@)) {
                        assert(sizes@ =~= sizes_of(panes@));
                    }
                    assert(sizes_of(panes@).take(n as int) =~= sizes_of(panes@));
                }
                let total_rows = total_height as usize;
                if !demands_fit(total_rows, &sizes) {
                    return Err(PaneError::ImpossibleDemands);
                }
                let heights = match divvy(total_rows, &sizes) {
                    Some(h) => h,
                    None => {
                        return Err(PaneError::ImpossibleDemands);
                    },
                };
                let style = style_or(*style, parent_style);
                let rects = self.rect.vert_splits(&heights);
                let mut k: usize = 0;
                while k < n
                    invariant
                        *note is Vert,
                        note->Vert_panes == *panes,
                        fixed_total(sizes_of(panes@)) <= old(self).rect.size.height,
                        forall|k: int| 0 <= k < panes@.len() ==> !(#[trigger] bad_dyn_at(panes@, k)),
                        n == panes.len(),
                        rects.len() == n,
                        self.rect.wf(),
                        forall|q: int| 0 <= q < n ==> self.rect.spec_covers(#[trigger] rects[q]),
                        forall|l: &DocLabel| get_content.requires((l,)),
                        self.rect == old(self).rect,
                        old(self).rect.size.width > 0 && old(self).rect.size.height > 0,
                    decreases n - k,
                {
                    let mut child = match self.sub_pane(rects[k]) {
                        Some(p) => p,
                        None => {
                            return Err(PaneError::NotSubPane);
                        },
                    };
                    proof {
                        vstd::std_specs::vec::axiom_vec_index_decreases(*panes, k as int);
                        assert(decreases_to!(*note => note->Vert_panes));
                        assert(decreases_to!(*note => panes[k as int].1));
                    }
                    child.render(&panes[k].1, style, get_content)?;
                    k = k + 1;
                }
            },
            PaneNotation::Doc { label, style: _ } => {
                let width = self.rect.size.width;
                let (doc, cursor_visibility) = match get_content(label) {
                    Some(c) => c,
                    None => {
                        return Err(PaneError::Missing(*label));
                    },
                };
                let mut doc_pane = Pane { window: &mut *self.window, rect: self.rect };
                doc.pretty_print(width, &mut doc_pane, DocPosSpec::CursorAtTop, cursor_visibility)?;
            },
            PaneNotation::Fill { ch, style } => {
                let style = match style_or(*style, parent_style) {
                    Some(s) => s,
                    None => Style::default(),
                };
                let width = self.rect.size.width;
                let mut line = String::new();
                let mut c: Col = 0;
                while c < width
                    invariant
                        0 <= c <= width,
                        line@ == Seq::new(c as nat, |i: int| *ch),
                    decreases width - c,
                {
                    push_char(&mut line, *ch);
                    c = c + 1;
                    proof {
                        assert(line@ =~= Seq::new(c as nat, |i: int| *ch));
                    }
                }
                let rows = self.rect.size.height;
                let ghost all = fill_rows(old(self).rect, *ch, style);
                let mut row: Row = 0;
                while row < rows
                    invariant
                        0 <= row <= rows,
                        self.rect == old(self).rect,
                        self.rect.wf(),
                        rows == self.rect.size.height,
                        old(self).rect.size.width > 0 && old(self).rect.size.height > 0,
                        line@ == Seq::new(width as nat, |i: int| *ch),
                        width == self.rect.size.width,
                        all == fill_rows(old(self).rect, *ch, style),
                        *note is Fill,
                        style == fill_style(note->Fill_style, parent_style),
                        *ch == note->Fill_ch,
                        (*self.window).drawn() == (*old(self).window).drawn() + succeeded(all.take(row as int)),
                    decreases rows - row,
                {
                    let ghost before = (*self.window).drawn();
                    match self.print(Pos { row, col: 0 }, line.as_str(), style) {
                        Ok(()) => {},
                        Err(e) => {
                            proof {
                                assert(all[row as int] == Draw::Print(shifted(Pos { row, col: 0 }, old(self).rect.pos), line@, style));
                                assert((*self.window).drawn() == ((*old(self).window).drawn() + succeeded(all.take(row as int))).push((all[row as int], false)));
                                assert((row as int) < old(self).rect.size.height);
                                assert(succeeded(all.take(row as int)).len() == row);
                                assert(fill_failed_at((*old(self).window).drawn(), (*self.window).drawn(), all));
                            }
                            return Err(PaneError::PrettyWindow(e));
                        },
                    }
                    proof {
                        assert(all.take(row + 1) =~= all.take(row as int).push(all[row as int]));
                        assert(succeeded(all.take(row + 1)) =~= succeeded(all.take(row as int)).push((all[row as int], true)));
                        assert((*self.window).drawn() =~= (*old(self).window).drawn() + succeeded(all.take(row + 1)));
                    }
                    row = row + 1;
                }
                proof {
                    assert(all.take(rows as int) =~= all);
                }
            },
        }
        Ok(())
    }
}

/// Whether `divvy` can work on these demands: no `DynHeight`, and weights
/// whose products and sum stay within a `usize` and add up to more than
/// zero.
pub fn demands_fit(cookies: usize, demands: &Vec<PaneSize>) -> (r: bool)
    ensures
        r ==> no_dyn_height(demands@),
        r ==> (fixed_total(demands@) <= cookies ==> divisible(
            (cookies - fixed_total(demands@)) as usize,
            hungers(demands@),
        )),
{
    let ghost d = demands@;
    let n = demands.len();
    let mut fixed: usize = 0;
    let mut over = false;
    let mut hungry: Vec<usize> = Vec::new();
    let mut i: usize = 0;
    while i < n
        invariant
            n == d.len(),
            d == demands@,
            0 <= i <= n,
            forall|k: int| 0 <= k < i ==> d[k] != PaneSize::DynHeight,
            !over ==> fixed == fixed_total(d.take(i as int)),
            over ==> fixed_total(d.take(i as int)) > usize::MAX,
            hungry@ == hungers(d.take(i as int)),
        decreases n - i,
    {
        proof {
            assert(d.take(i + 1).drop_last() =~= d.take(i as int));
        }
        match demands[i] {
            PaneSize::DynHeight => {
                return false;
            },
            PaneSize::Fixed(f) => {
                if !over {
                    match fixed.checked_add(f) {
                        Some(sum) => {
                            fixed = sum;
                        },
                        None => {
                            over = true;
                        },
                    }
                }
            },
            PaneSize::Proportional(h) => {
                hungry.push(h);
            },
        }
        i = i + 1;
    }
    proof {
        assert(d.take(n as int) =~= d);
    }
    if over || fixed > cookies {
        return true;
    }
    let rest = cookies - fixed;
    let mut sum: usize = 0;
    let mut j: usize = 0;
    while j < hungry.len()
        invariant
            0 <= j <= hungry.len(),
            sum == total(hungry@.take(j as int)),
            forall|k: int| 0 <= k < j ==> rest * hungry[k] <= usize::MAX,
        decreases hungry.len() - j,
    {
        proof {
            assert(hungry@.take(j + 1).drop_last() =~= hungry@.take(j as int));
        }
        match rest.checked_mul(hungry[j]) {
            Some(_) => {},
            None => {
                return false;
            },
        }
        match sum.checked_add(hungry[j]) {
            Some(s) => {
                sum = s;
            },
            None => {
                return false;
            },
        }
        j = j + 1;
    }
    proof {
        assert(hungry@.take(hungry.len() as int) =~= hungry@);
    }
    hungry.len() == 0 || sum > 0
}

/// The documents that a `Doc` pane can show, looked up anew on every render.
#[derive(Clone, Copy, Debug, PartialEq, Eq, Structural)]
#[non_exhaustive]
pub enum DocLabel {
    /// The document that currently has focus.
    ActiveDoc,
    /// The name of the `ActiveDoc`, for a status bar.
    ActiveDocName,
    /// The key bindings available in the current keymap and context.
    KeyHints,
    /// The name of the current keymap.
    KeymapName,
    /// Messages to the user.
    Messages,
    /// The candidates of the open selection menu.
    SelectionMenu,
}

/// What a pane shows.
#[derive(Debug)]
pub enum PaneNotation {
    /// Side by side subpanes, each as high as this pane, with widths given
    /// by their sizes. `style` applies to subpanes that give none.
    Horz { panes: Vec<(PaneSize, PaneNotation)>, style: Option<Style> },
    /// Stacked subpanes, each as wide as this pane, with heights given by
    /// their sizes. `style` applies to subpanes that give none.
    Vert { panes: Vec<(PaneSize, PaneNotation)>, style: Option<Style> },
    /// The document bound to `label` when the pane is rendered.
    Doc { label: DocLabel, style: Option<Style> },
    /// The whole pane filled with one character.
    Fill { ch: char, style: Option<Style> },
}

/// Whether a document's cursor is shown.
#[derive(Clone, Copy, Debug, PartialEq, Eq, Structural)]
pub enum CursorVis {
    Show,
    Hide,
}

/// Which part of a document a pane shows.
#[derive(Clone, Copy, Debug, PartialEq, Eq, Structural)]
pub enum DocPosSpec {
    /// The document's first line at the top of the pane.
    Beginning,
    /// The cursor's line at the top of the pane.
    CursorAtTop,
}

/// What can go wrong when rendering to a pane. `E` is the window's own error.
#[derive(Debug)]
pub enum PaneError<E> {
    NotSubPane,
    ImpossibleDemands,
    InvalidNotation,
    Missing(DocLabel),
    PrettyWindow(E),
}

/// A document that can be pretty-printed into a pane.
pub trait PrettyDocument {
    /// How many rows the document takes at this width.
    fn required_height(&self, width: Col) -> Row;

    /// Print the document into `pane`.
    fn pretty_print<T: PrettyWindow>(
        &self,
        width: Col,
        pane: &mut Pane<T>,
        doc_pos: DocPosSpec,
        cursor_visibility: CursorVis,
    ) -> Result<(), PaneError<T::Error>>;
}

/// The sizes of the subpanes, in order.
pub open spec fn sizes_of(panes: Seq<(PaneSize, PaneNotation)>) -> Seq<PaneSize> {
    panes.map_values(|p: (PaneSize, PaneNotation)| p.0)
}

/// The lookup gives a document for `label`, whatever else it may do.
pub open spec fn resolves<F: Fn(&DocLabel) -> Option<(U, CursorVis)>, U>(get_content: F, label: DocLabel) -> bool {
    forall|o: Option<(U, CursorVis)>| get_content.ensures((&label,), o) ==> o is Some
}

/// Every `DynHeight` subpane before position `upto` is a `Doc` whose label
/// the lookup resolves.
pub open spec fn dyn_docs_resolve<F: Fn(&DocLabel) -> Option<(U, CursorVis)>, U>(
    get_content: F,
    panes: Seq<(PaneSize, PaneNotation)>,
    upto: int,
) -> bool {
    forall|j: int|
        0 <= j < upto && panes[j].0 == PaneSize::DynHeight ==> (#[trigger] panes[j]).1 is Doc && resolves(
            get_content,
            panes[j].1->Doc_label,
        )
}

/// Subpane `k` is `DynHeight` but not a `Doc`.
pub open spec fn bad_dyn_at(panes: Seq<(PaneSize, PaneNotation)>, k: int) -> bool {
    panes[k].0 == PaneSize::DynHeight && !(panes[k].1 is Doc)
}

/// The style with no properties set.
pub open spec fn plain_style() -> Style {
    Style { color: None, bold: None, italic: None, underlined: None, cursor: None }
}

/// The style a `Fill` uses: its own, else the one handed down, else none.
pub open spec fn fill_style(own: Option<Style>, parent: Option<Style>) -> Style {
    match spec_style_or(own, parent) {
        Some(s) => s,
        None => plain_style(),
    }
}

/// What filling `rect` with `ch` prints: each row, top down, as `ch`
/// repeated to the width, starting at the left edge.
pub open spec fn fill_rows(rect: Rect, ch: char, style: Style) -> Seq<Draw> {
    Seq::new(
        rect.size.height as nat,
        |r: int|
            Draw::Print(
                Pos { row: (rect.pos.row + r) as Row, col: rect.pos.col },
                Seq::new(rect.size.width as nat, |i: int| ch),
                style,
            ),
    )
}

/// From `before` to `after`, the first rows of `rows` were printed with
/// success, then the next one failed, and nothing else was drawn.
pub open spec fn fill_failed_at(before: Seq<(Draw, bool)>, after: Seq<(Draw, bool)>, rows: Seq<Draw>) -> bool {
    let k = after.len() - before.len() - 1;
    &&& 0 <= k < rows.len()
    &&& after == (before + succeeded(rows.take(k))).push((rows[k], false))
}

/// Calls that all succeeded.
pub open spec fn succeeded(calls: Seq<Draw>) -> Seq<(Draw, bool)> {
    calls.map_values(|d: Draw| (d, true))
}

/// A style given here, or else the one handed down.
pub open spec fn spec_style_or(own: Option<Style>, parent: Option<Style>) -> Option<Style> {
    match own {
        Some(s) => Some(s),
        None => parent,
    }
}

fn style_or(own: Option<Style>, parent: Option<Style>) -> (r: Option<Style>)
    ensures
        r == spec_style_or(own, parent),
{
    match own {
        Some(s) => Some(s),
        None => parent,
    }
}

} // verus!
