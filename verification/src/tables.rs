//! Table detection.
//!
//! Tables are found on a page, not in a block: the cut into regions sees a
//! table's column gutters as exactly the valleys it exists to cut on, so by the
//! time blocks are available a table has already become one block per cell.
//! Detection flattens the blocks back to glyphs, which is sound because blocks
//! partition them, and works from the page.
//!
//! Two independent routes. A ruled grid is drawn by the producer, and reliable.
//! Failing that, at least three lines that share at least two aligned column
//! edges. [`Table::origin`] records which route fired.

use vstd::multiset::Multiset;
use vstd::prelude::*;

use crate::extract::ResolvedRun;
use crate::geometry::Rect;
use crate::grouping;
use crate::lines;
use crate::lines::{Line, LineModel, PlacedGlyph};
use crate::paragraphs;
use crate::paragraphs::{Paragraph, ParagraphModel};
use crate::partition;
use crate::regions;
use crate::regions::{Origin, Region, RegionModel};
use crate::rules;
use crate::rules::Rule;
use crate::scalar;
use crate::scalar::Scalar;
use crate::sorting;
use crate::text;
use crate::words;
use crate::words::WordModel;

verus! {

/// Fewer lines than this are not a table.
pub const MIN_ROWS: usize = 3;

/// Fewer shared column edges than this are not a table.
pub const MIN_COLUMNS: usize = 2;

/// A ruled grid needs this many distinct rules on each axis. Two and two is a
/// box around a paragraph.
pub const MIN_GRID_LINES: usize = 3;

/// Beyond this many rules a page is a diagram or a map, not a table.
pub const MAX_RULES: usize = 2000;

/// Two edges within this many points count as the same column edge.
pub open spec fn edge_tolerance<S: Scalar>() -> S {
    S::spec_ratio(2, 1)
}

/// How the grid was established.
#[derive(Debug, Clone, Copy, PartialEq, Eq, Structural)]
pub enum TableOrigin {
    /// The producer drew the borders. Trustworthy.
    RuledGrid,
    /// Inferred from column edges that line up. Plausible, not certain.
    ColumnAlignment,
}

/// A cell. Empty cells are real cells with no content, because a table with
/// holes in its indexing is worse than useless to an editor.
#[derive(Debug)]
pub struct Cell<S> {
    pub row: usize,
    pub column: usize,
    pub bbox: Rect<S>,
    pub paragraphs: Vec<Paragraph<S>>,
    pub lines: Vec<Line<S>>,
}

/// What a cell says.
#[verifier::ext_equal]
pub struct CellModel<S> {
    pub row: int,
    pub column: int,
    pub bbox: Rect<S>,
    pub paragraphs: Seq<ParagraphModel<S>>,
    pub lines: Seq<LineModel<S>>,
}

impl<S> View for Cell<S> {
    type V = CellModel<S>;

    open spec fn view(&self) -> CellModel<S> {
        CellModel {
            row: self.row as int,
            column: self.column as int,
            bbox: self.bbox,
            paragraphs: paragraphs::paragraph_models(self.paragraphs@),
            lines: lines::line_models(self.lines@),
        }
    }
}

/// What a list of cells says.
pub open spec fn cell_models<S>(v: Seq<Cell<S>>) -> Seq<CellModel<S>> {
    Seq::new(v.len(), |i: int| v[i]@)
}

/// The texts of the first `n` lines, joined by spaces.
pub open spec fn run_on_text<S: Scalar>(l: Seq<LineModel<S>>, n: int) -> Seq<char>
    decreases n,
{
    if n <= 0 {
        Seq::empty()
    } else if n == 1 {
        words::spaced_text(l[0].glyphs)
    } else {
        run_on_text(l, n - 1).push(' ') + words::spaced_text(l[n - 1].glyphs)
    }
}

impl<S> CellModel<S> {
    /// Whether no line of the cell holds a glyph.
    pub open spec fn vacant(self) -> bool {
        forall|i: int| 0 <= i < self.lines.len() ==> (#[trigger] self.lines[i]).glyphs.len() == 0
    }
}

impl<S: Scalar> Cell<S> {
    /// The text of the cell, its lines run on.
    pub fn text(&self) -> (r: String)
        ensures
            r@ == run_on_text(self@.lines, self@.lines.len() as int),
    {
        let ghost models = self@.lines;
        let mut out = String::new();
        let mut i: usize = 0;
        while i < self.lines.len()
            invariant
                i <= self.lines@.len(),
                models == lines::line_models(self.lines@),
                out@ == run_on_text(models, i as int),
            decreases self.lines@.len() - i,
        {
            if i > 0 {
                out.push(' ');
            }
            let t = words::line_text(&self.lines[i]);
            assert(models[i as int].glyphs == self.lines@[i as int].glyphs@);
            text::append(&mut out, &t);
            if i == 0 {
                assert(out@ =~= t@);
            }
            i += 1;
        }
        out
    }

    /// Whether the cell holds nothing.
    pub fn is_empty(&self) -> (r: bool)
        ensures
            r == self@.vacant(),
    {
        let mut i: usize = 0;
        while i < self.lines.len()
            invariant
                i <= self.lines@.len(),
                forall|k: int| 0 <= k < i ==> (#[trigger] self@.lines[k]).glyphs.len() == 0,
            decreases self.lines@.len() - i,
        {
            assert(self@.lines[i as int].glyphs == self.lines@[i as int].glyphs@);
            if !self.lines[i].is_empty() {
                return false;
            }
            i += 1;
        }
        true
    }
}

/// A table of a page.
#[derive(Debug)]
pub struct Table<S> {
    pub rows: usize,
    pub cols: usize,
    /// Row-major, `rows * cols` entries, including empty ones.
    pub cells: Vec<Cell<S>>,
    pub bbox: Rect<S>,
    pub origin: TableOrigin,
    /// The x positions bounding each column and the y positions bounding each
    /// row, both inclusive of the outer edges.
    pub column_edges: Vec<S>,
    pub row_edges: Vec<S>,
    /// How many glyphs the table was built from.
    pub source_glyphs: usize,
}

/// What a table says.
#[verifier::ext_equal]
pub struct TableModel<S> {
    pub rows: int,
    pub cols: int,
    pub cells: Seq<CellModel<S>>,
    pub bbox: Rect<S>,
    pub origin: TableOrigin,
    pub column_edges: Seq<S>,
    pub row_edges: Seq<S>,
    pub source_glyphs: int,
}

impl<S> View for Table<S> {
    type V = TableModel<S>;

    open spec fn view(&self) -> TableModel<S> {
        TableModel {
            rows: self.rows as int,
            cols: self.cols as int,
            cells: cell_models(self.cells@),
            bbox: self.bbox,
            origin: self.origin,
            column_edges: self.column_edges@,
            row_edges: self.row_edges@,
            source_glyphs: self.source_glyphs as int,
        }
    }
}

/// What a list of tables says.
pub open spec fn table_models<S>(v: Seq<Table<S>>) -> Seq<TableModel<S>> {
    Seq::new(v.len(), |i: int| v[i]@)
}

/// How many of the first `n` cells hold something.
pub open spec fn filled_cells<S>(cells: Seq<CellModel<S>>, n: int) -> nat
    decreases n,
{
    if n <= 0 {
        0
    } else if cells[n - 1].vacant() {
        filled_cells(cells, n - 1)
    } else {
        filled_cells(cells, n - 1) + 1
    }
}

/// How many words the first `n` lines hold.
pub open spec fn words_in<S: Scalar>(l: Seq<LineModel<S>>, n: int) -> nat
    decreases n,
{
    if n <= 0 {
        0
    } else {
        words_in(l, n - 1) + words::words_of(l[n - 1].glyphs).len()
    }
}

/// How many words the first `n` cells hold.
pub open spec fn words_in_cells<S: Scalar>(cells: Seq<CellModel<S>>, n: int) -> nat
    decreases n,
{
    if n <= 0 {
        0
    } else {
        words_in_cells(cells, n - 1) + words_in(cells[n - 1].lines, cells[n - 1].lines.len() as int)
    }
}

/// How many glyphs the first `n` lines hold.
pub open spec fn glyphs_in_lines<S>(l: Seq<LineModel<S>>, n: int) -> nat
    decreases n,
{
    if n <= 0 {
        0
    } else {
        glyphs_in_lines(l, n - 1) + l[n - 1].glyphs.len()
    }
}

/// How many glyphs the first `n` cells hold.
pub open spec fn glyphs_in_cells<S>(cells: Seq<CellModel<S>>, n: int) -> nat
    decreases n,
{
    if n <= 0 {
        0
    } else {
        glyphs_in_cells(cells, n - 1) + glyphs_in_lines(
            cells[n - 1].lines,
            cells[n - 1].lines.len() as int,
        )
    }
}

impl<S: Scalar> TableModel<S> {
    /// Fraction of cells that hold something.
    pub open spec fn spec_fill(self) -> S {
        if self.cells.len() == 0 {
            scalar::zero::<S>()
        } else {
            scalar::count::<S>(
                scalar::held(filled_cells(self.cells, self.cells.len() as int) as int),
            ).spec_over(scalar::count::<S>(scalar::held(self.cells.len() as int)))
        }
    }

    /// Words over cells.
    pub open spec fn density(self) -> S {
        if self.cells.len() == 0 {
            scalar::zero::<S>()
        } else {
            scalar::count::<S>(
                scalar::held(words_in_cells(self.cells, self.cells.len() as int) as int),
            ).spec_over(scalar::count::<S>(scalar::held(self.cells.len() as int)))
        }
    }
}

impl<S> TableModel<S> {
    /// Whether a table has a cell for each row and column, in order.
    pub open spec fn row_major(self) -> bool {
        &&& self.cells.len() == self.rows * self.cols
        &&& forall|r: int, c: int|
            0 <= r < self.rows && 0 <= c < self.cols ==> {
                &&& 0 <= #[trigger] cell_index(r, c, self.cols) < self.cells.len()
                &&& self.cells[cell_index(r, c, self.cols)].row == r
                &&& self.cells[cell_index(r, c, self.cols)].column == c
            }
    }
}

/// Where a cell stands among all, row by row.
pub open spec fn cell_index(row: int, column: int, cols: int) -> int {
    row * cols + column
}

impl<S: Scalar> Table<S> {
    /// The cell of a row and a column, where the table has one.
    pub fn cell(&self, row: usize, column: usize) -> (r: Option<&Cell<S>>)
        ensures
            (r is Some) == (row < self.rows && column < self.cols && cell_index(
                row as int,
                column as int,
                self.cols as int,
            ) < self.cells@.len()),
            r matches Some(c) ==> *c == self.cells@[cell_index(
                row as int,
                column as int,
                self.cols as int,
            )],
            self@.row_major() ==> {
                &&& (r is Some) == (row < self.rows && column < self.cols)
                &&& r matches Some(c) ==> c.row == row && c.column == column
            },
    {
        if row >= self.rows || column >= self.cols {
            return None;
        }
        proof {
            let at = cell_index(row as int, column as int, self.cols as int);
            if self@.row_major() {
                assert(self@.cells[at].row == row && self@.cells[at].column == column);
                assert(self@.cells[at] == self.cells@[at]@);
            }
        }
        let n: usize = self.cells.len();
        let cols: usize = self.cols;
        assert(row * cols >= 0) by (nonlinear_arith)
            requires
                row >= 0,
                cols >= 0,
        ;
        match row.checked_mul(cols) {
            Some(above) => match above.checked_add(column) {
                Some(i) => if i < n {
                    Some(&self.cells[i])
                } else {
                    None
                },
                None => None,
            },
            None => None,
        }
    }

    /// Whether the producer drew the grid rather than the geometry implying it.
    pub fn is_ruled(&self) -> (r: bool)
        ensures
            r == (self.origin == TableOrigin::RuledGrid),
    {
        self.origin == TableOrigin::RuledGrid
    }

    /// Total words across all cells, over the cell count.
    fn words_per_cell(&self) -> (r: S)
        ensures
            r == self@.density(),
    {
        if self.cells.len() == 0 {
            return scalar::zero_of::<S>();
        }
        let ghost cells = self@.cells;
        let mut total: u64 = 0;
        let mut i: usize = 0;
        while i < self.cells.len()
            invariant
                i <= self.cells@.len(),
                cells == cell_models(self.cells@),
                total == capped(words_in_cells(cells, i as int)),
            decreases self.cells@.len() - i,
        {
            let cell = &self.cells[i];
            let ghost before = words_in_cells(cells, i as int);
            let ghost l = lines::line_models(cell.lines@);
            assert(cells[i as int].lines == l);
            let mut k: usize = 0;
            while k < cell.lines.len()
                invariant
                    k <= cell.lines@.len(),
                    l == lines::line_models(cell.lines@),
                    total == capped(before + words_in(l, k as int)),
                decreases cell.lines@.len() - k,
            {
                let found = words::segment(&cell.lines[k]);
                assert(l[k as int].glyphs == cell.lines@[k as int].glyphs@);
                assert(found@.len() == words::word_models(found@).len());
                let n: u64 = found.len() as u64;
                total = total.saturating_add(n);
                k += 1;
            }
            i += 1;
        }
        scalar::from_total::<S>(total).over(scalar::from_count::<S>(self.cells.len()))
    }

    /// Fraction of cells holding any text.
    pub fn fill(&self) -> (r: S)
        ensures
            r == self@.spec_fill(),
    {
        if self.cells.len() == 0 {
            return scalar::zero_of::<S>();
        }
        let ghost cells = self@.cells;
        let mut filled: usize = 0;
        let mut i: usize = 0;
        while i < self.cells.len()
            invariant
                i <= self.cells@.len(),
                cells == cell_models(self.cells@),
                filled <= i,
                filled == filled_cells(cells, i as int),
            decreases self.cells@.len() - i,
        {
            assert(cells[i as int] == self.cells@[i as int]@);
            if !self.cells[i].is_empty() {
                filled += 1;
            }
            i += 1;
        }
        scalar::from_count::<S>(filled).over(scalar::from_count::<S>(self.cells.len()))
    }

    /// Number of glyphs this table was built from.
    pub fn source_glyphs(&self) -> (r: usize)
        ensures
            r == self.source_glyphs,
    {
        self.source_glyphs
    }

    /// Glyphs actually held by cells.
    pub fn cell_glyphs(&self) -> (r: usize)
        requires
            glyphs_in_cells(self@.cells, self@.cells.len() as int) <= usize::MAX,
        ensures
            r == glyphs_in_cells(self@.cells, self@.cells.len() as int),
    {
        let ghost cells = self@.cells;
        let mut total: usize = 0;
        let mut i: usize = 0;
        while i < self.cells.len()
            invariant
                i <= self.cells@.len(),
                cells == cell_models(self.cells@),
                glyphs_in_cells(cells, cells.len() as int) <= usize::MAX,
                total == glyphs_in_cells(cells, i as int),
            decreases self.cells@.len() - i,
        {
            let cell = &self.cells[i];
            let ghost before = total as nat;
            let ghost l = lines::line_models(cell.lines@);
            assert(cells[i as int].lines == l);
            proof {
                lemma_cells_rise(cells, i + 1, cells.len() as int);
            }
            let mut k: usize = 0;
            while k < cell.lines.len()
                invariant
                    k <= cell.lines@.len(),
                    l == lines::line_models(cell.lines@),
                    before + glyphs_in_lines(l, l.len() as int) <= usize::MAX,
                    total == before + glyphs_in_lines(l, k as int),
                decreases cell.lines@.len() - k,
            {
                assert(l[k as int].glyphs == cell.lines@[k as int].glyphs@);
                proof {
                    lemma_lines_rise(l, k + 1, l.len() as int);
                }
                total = total + cell.lines[k].glyphs.len();
                k += 1;
            }
            i += 1;
        }
        total
    }
}

/// A total held within the largest count there is.
pub open spec fn capped(n: nat) -> int {
    if n > u64::MAX {
        u64::MAX as int
    } else {
        n as int
    }
}

proof fn lemma_lines_rise<S>(l: Seq<LineModel<S>>, a: int, b: int)
    requires
        a <= b,
    ensures
        glyphs_in_lines(l, a) <= glyphs_in_lines(l, b),
    decreases b,
{
    if a < b && b > 0 {
        lemma_lines_rise(l, a, b - 1);
    }
}

proof fn lemma_cells_rise<S>(cells: Seq<CellModel<S>>, a: int, b: int)
    requires
        a <= b,
    ensures
        glyphs_in_cells(cells, a) <= glyphs_in_cells(cells, b),
    decreases b,
{
    if a < b && b > 0 {
        lemma_cells_rise(cells, a, b - 1);
    }
}

/// Whether a point lies in a rectangle, its border included.
pub open spec fn inside<S: Scalar>(r: Rect<S>, x: S, y: S) -> bool {
    r.x0.spec_le(x) && x.spec_le(r.x1) && r.y0.spec_le(y) && y.spec_le(r.y1)
}

/// The first `n` glyphs whose origins lie in a region.
pub open spec fn glyphs_inside<S: Scalar>(g: Seq<PlacedGlyph<S>>, region: Rect<S>, n: int) -> Seq<
    PlacedGlyph<S>,
>
    decreases n,
{
    if n <= 0 {
        Seq::empty()
    } else if inside(region, g[n - 1].origin.x, g[n - 1].origin.y) {
        glyphs_inside(g, region, n - 1).push(g[n - 1])
    } else {
        glyphs_inside(g, region, n - 1)
    }
}

/// Whether a glyph's origin lies in one of some tables.
pub open spec fn claimed<S: Scalar>(tables: Seq<TableModel<S>>, g: PlacedGlyph<S>) -> bool {
    exists|i: int|
        0 <= i < tables.len() && inside((#[trigger] tables[i]).bbox, g.origin.x, g.origin.y)
}

/// The first `n` glyphs that no table claims.
pub open spec fn unclaimed<S: Scalar>(
    g: Seq<PlacedGlyph<S>>,
    tables: Seq<TableModel<S>>,
    n: int,
) -> Seq<PlacedGlyph<S>>
    decreases n,
{
    if n <= 0 {
        Seq::empty()
    } else if claimed(tables, g[n - 1]) {
        unclaimed(g, tables, n - 1)
    } else {
        unclaimed(g, tables, n - 1).push(g[n - 1])
    }
}

/// The first `n` sorted values, each value left out that is within tolerance of
/// the last one kept.
pub open spec fn merged<S: Scalar>(s: Seq<S>, n: int) -> Seq<S>
    decreases n,
{
    if n <= 0 {
        Seq::empty()
    } else {
        let kept = merged(s, n - 1);
        if kept.len() > 0 && s[n - 1].spec_minus(kept.last()).spec_magnitude().spec_le(
            edge_tolerance::<S>(),
        ) {
            kept
        } else {
            kept.push(s[n - 1])
        }
    }
}

/// Values sorted, and merged where they are within tolerance.
pub open spec fn distinct<S: Scalar>(v: Seq<S>) -> Seq<S> {
    merged(sorting::sorted_by(v, rules::ascending()), v.len() as int)
}

/// The first interval from `k` on that holds a value: above its start and not
/// above its end.
pub open spec fn interval_from<S: Scalar>(edges: Seq<S>, v: S, k: int) -> Option<int>
    decreases edges.len() - k,
{
    if k < 0 || k + 1 >= edges.len() {
        None
    } else if edges[k].spec_lt(v) && v.spec_le(edges[k + 1]) {
        Some(k)
    } else {
        interval_from(edges, v, k + 1)
    }
}

/// The interval between edges that a value falls in. What lies outside falls in
/// the first or the last: a glyph a hair outside must land in the table, not
/// vanish.
pub open spec fn slot_of<S: Scalar>(edges: Seq<S>, v: S) -> Option<int> {
    if edges.len() < 2 {
        None
    } else if v.spec_le(edges[1]) {
        Some(0)
    } else if edges[edges.len() - 2].spec_le(v) {
        Some(edges.len() - 2)
    } else {
        interval_from(edges, v, 0)
    }
}

/// The edges of a grid.
pub struct Grid<S> {
    pub columns: Seq<S>,
    pub rows: Seq<S>,
}

impl<S: Scalar> Grid<S> {
    /// How many columns the grid has.
    pub open spec fn cols(self) -> int {
        self.columns.len() - 1
    }

    /// How many cells the grid has.
    pub open spec fn size(self) -> int {
        (self.rows.len() - 1) * self.cols()
    }

    /// Which cell a glyph falls in.
    pub open spec fn cell_for(self, g: PlacedGlyph<S>) -> Option<int> {
        match (slot_of(self.columns, g.origin.x), slot_of(self.rows, g.origin.y)) {
            (Some(c), Some(r)) => Some(cell_index(r, c, self.cols())),
            _ => None,
        }
    }

    /// The first `n` glyphs that fall in a cell.
    pub open spec fn assigned(self, g: Seq<PlacedGlyph<S>>, cell: int, n: int) -> Seq<
        PlacedGlyph<S>,
    >
        decreases n,
    {
        if n <= 0 {
            Seq::empty()
        } else if self.cell_for(g[n - 1]) == Some(cell) {
            self.assigned(g, cell, n - 1).push(g[n - 1])
        } else {
            self.assigned(g, cell, n - 1)
        }
    }

    /// The box of a cell.
    pub open spec fn cell_box(self, i: int) -> Rect<S> {
        Rect {
            x0: self.columns[i % self.cols()],
            x1: self.columns[i % self.cols() + 1],
            y0: self.rows[i / self.cols()],
            y1: self.rows[i / self.cols() + 1],
        }
    }

    /// A cell of the grid, with the glyphs that fall in it.
    pub open spec fn filled_cell(
        self,
        g: Seq<PlacedGlyph<S>>,
        runs: Seq<ResolvedRun<S>>,
        i: int,
    ) -> CellModel<S> {
        let own = self.assigned(g, i, g.len() as int);
        let l = lines::assembled(own);
        CellModel {
            row: i / self.cols(),
            column: i % self.cols(),
            bbox: self.cell_box(i),
            paragraphs: if own.len() == 0 {
                Seq::empty()
            } else {
                paragraphs::paragraphs_of(l, runs)
            },
            lines: if own.len() == 0 {
                Seq::empty()
            } else {
                l
            },
        }
    }

    /// The table that glyphs make on the grid.
    pub open spec fn table(
        self,
        g: Seq<PlacedGlyph<S>>,
        runs: Seq<ResolvedRun<S>>,
        bbox: Rect<S>,
        origin: TableOrigin,
    ) -> TableModel<S> {
        TableModel {
            rows: self.rows.len() - 1,
            cols: self.cols(),
            cells: Seq::new(self.size() as nat, |i: int| self.filled_cell(g, runs, i)),
            bbox,
            origin,
            column_edges: self.columns,
            row_edges: self.rows,
            source_glyphs: g.len() as int,
        }
    }
}

/// Whether two rules meet, allowing a small gap for the mitre a stroked corner
/// leaves behind.
pub open spec fn rules_touch<S: Scalar>(a: Rule<S>, b: Rule<S>) -> bool {
    let slack = S::spec_ratio(3, 1);
    &&& a.bbox.x0.spec_minus(slack).spec_le(b.bbox.x1)
    &&& b.bbox.x0.spec_minus(slack).spec_le(a.bbox.x1)
    &&& a.bbox.y0.spec_minus(slack).spec_le(b.bbox.y1)
    &&& b.bbox.y0.spec_minus(slack).spec_le(a.bbox.y1)
}

/// Which pairs of rules meet.
pub open spec fn touching<S: Scalar>(r: Seq<Rule<S>>) -> spec_fn(int, int) -> bool {
    |i: int, j: int| rules_touch(r[i], r[j])
}

/// The positions of those of the first `n` rules that have a label and a
/// direction.
pub open spec fn positions<S: Scalar>(
    r: Seq<Rule<S>>,
    labels: Seq<usize>,
    label: int,
    horizontal: bool,
    n: int,
) -> Seq<S>
    decreases n,
{
    if n <= 0 {
        Seq::empty()
    } else if labels[n - 1] == label && r[n - 1].horizontal == horizontal {
        positions(r, labels, label, horizontal, n - 1).push(r[n - 1].spec_position())
    } else {
        positions(r, labels, label, horizontal, n - 1)
    }
}

/// The grid that the rules under a label draw.
pub open spec fn grid_of<S: Scalar>(r: Seq<Rule<S>>, labels: Seq<usize>, label: int) -> Grid<S> {
    Grid {
        columns: distinct(positions(r, labels, label, false, r.len() as int)),
        rows: distinct(positions(r, labels, label, true, r.len() as int)),
    }
}

/// The region that a grid bounds.
pub open spec fn grid_box<S: Scalar>(grid: Grid<S>) -> Rect<S> {
    Rect {
        x0: grid.columns[0],
        x1: grid.columns.last(),
        y0: grid.rows[0],
        y1: grid.rows.last(),
    }
}

/// The table on a drawn grid, if it is one: it has enough lines, and a quarter
/// of its cells hold something. A chart's gridlines do not.
pub open spec fn ruled_table<S: Scalar>(
    g: Seq<PlacedGlyph<S>>,
    grid: Grid<S>,
    runs: Seq<ResolvedRun<S>>,
) -> Option<TableModel<S>> {
    let region = grid_box(grid);
    let own = glyphs_inside(g, region, g.len() as int);
    let t = grid.table(own, runs, region, TableOrigin::RuledGrid);
    if grid.columns.len() >= MIN_GRID_LINES && grid.rows.len() >= MIN_GRID_LINES && own.len() > 0
        && S::spec_ratio(1, 4).spec_le(t.spec_fill()) {
        Some(t)
    } else {
        None
    }
}

/// The tables on the grids under the labels below a bound, by ascending label.
pub open spec fn ruled_tables<S: Scalar>(
    g: Seq<PlacedGlyph<S>>,
    r: Seq<Rule<S>>,
    labels: Seq<usize>,
    runs: Seq<ResolvedRun<S>>,
    bound: int,
) -> Seq<TableModel<S>>
    decreases bound,
{
    if bound <= 0 {
        Seq::empty()
    } else {
        let before = ruled_tables(g, r, labels, runs, bound - 1);
        match ruled_table(g, grid_of(r, labels, bound - 1), runs) {
            Some(t) => before.push(t),
            None => before,
        }
    }
}

/// The tables whose grids the producer drew.
pub open spec fn drawn_tables<S: Scalar>(
    g: Seq<PlacedGlyph<S>>,
    r: Seq<Rule<S>>,
    runs: Seq<ResolvedRun<S>>,
) -> Seq<TableModel<S>> {
    if r.len() > MAX_RULES {
        Seq::empty()
    } else {
        ruled_tables(g, r, grouping::grouped(r.len(), touching(r)), runs, r.len() as int)
    }
}

/// The column edges of the first `n` words of a line: where a word with text
/// starts after a gutter. The first word's edge is one that every left-aligned
/// paragraph has, and no evidence.
pub open spec fn edges_among<S: Scalar>(w: Seq<WordModel<S>>, gutter: S, n: int) -> Seq<S>
    decreases n,
{
    if n <= 1 {
        Seq::empty()
    } else {
        let before = edges_among(w, gutter, n - 1);
        if w[n - 1].text.len() > 0 && gutter.spec_le(
            w[n - 1].bbox.x0.spec_minus(w[n - 2].bbox.x1),
        ) {
            before.push(w[n - 1].bbox.x0)
        } else {
            before
        }
    }
}

/// The column edges of a line. A gutter is nine tenths of the font size: an
/// inter-word space is about a quarter.
pub open spec fn edges_of<S: Scalar>(l: LineModel<S>) -> Seq<S> {
    let w = words::words_of(l.glyphs);
    edges_among(
        w,
        l.size.spec_greatest(scalar::one::<S>()).spec_times(S::spec_ratio(9, 10)),
        w.len() as int,
    )
}

/// The column edges of lines, line by line.
pub open spec fn supports_of<S: Scalar>(l: Seq<LineModel<S>>) -> Seq<Seq<S>> {
    Seq::new(l.len(), |i: int| edges_of(l[i]))
}

/// Whether an edge has its like among others.
pub open spec fn shared_by<S: Scalar>(x: S, b: Seq<S>) -> bool {
    exists|k: int|
        0 <= k < b.len() && x.spec_minus(#[trigger] b[k]).spec_magnitude().spec_le(
            edge_tolerance::<S>(),
        )
}

/// The first `n` edges that have their like among others.
pub open spec fn common_edges<S: Scalar>(a: Seq<S>, b: Seq<S>, n: int) -> Seq<S>
    decreases n,
{
    if n <= 0 {
        Seq::empty()
    } else if shared_by(a[n - 1], b) {
        common_edges(a, b, n - 1).push(a[n - 1])
    } else {
        common_edges(a, b, n - 1)
    }
}

/// The edges of `a` that have their like in `b`.
pub open spec fn shared_edges<S: Scalar>(a: Seq<S>, b: Seq<S>) -> Seq<S> {
    common_edges(a, b, a.len() as int)
}

/// How far, from `end` on, lines go on sharing two column edges, and which.
pub open spec fn extended<S: Scalar>(supports: Seq<Seq<S>>, common: Seq<S>, end: int) -> (
    Seq<S>,
    int,
)
    decreases supports.len() - end,
{
    if end < 0 || end >= supports.len() {
        (common, end)
    } else {
        let next = shared_edges(common, supports[end]);
        if next.len() < MIN_COLUMNS {
            (common, end)
        } else {
            extended(supports, next, end + 1)
        }
    }
}

/// The middles between the boxes of consecutive lines from `from` up to `to`.
pub open spec fn row_middles<S: Scalar>(l: Seq<LineModel<S>>, from: int, to: int) -> Seq<S>
    decreases to - from,
{
    if to - from < 2 {
        Seq::empty()
    } else {
        row_middles(l, from, to - 1).push(
            l[to - 2].bbox.y1.spec_plus(l[to - 1].bbox.y0).spec_over(S::spec_ratio(2, 1)),
        )
    }
}

/// The grid of lines from `from` up to `to`, each line a row, with column edges
/// given.
pub open spec fn aligned_grid<S: Scalar>(
    l: Seq<LineModel<S>>,
    from: int,
    to: int,
    columns: Seq<S>,
) -> Grid<S> {
    let b = paragraphs::lines_box(l, from, to);
    Grid {
        columns: distinct((seq![b.x0] + columns).push(b.x1)),
        rows: distinct((seq![b.y0] + row_middles(l, from, to)).push(b.y1)),
    }
}

/// The table of lines from `from` up to `to`, if they make one: its cells are
/// short, as a prose column is not, and half of them hold something, as
/// scattered text does not.
pub open spec fn aligned_table<S: Scalar>(
    l: Seq<LineModel<S>>,
    from: int,
    to: int,
    columns: Seq<S>,
    runs: Seq<ResolvedRun<S>>,
) -> Option<TableModel<S>> {
    let grid = aligned_grid(l, from, to, columns);
    let t = grid.table(
        regions::spread_glyphs(l.subrange(from, to)),
        runs,
        paragraphs::lines_box(l, from, to),
        TableOrigin::ColumnAlignment,
    );
    if grid.columns.len() < MIN_COLUMNS + 1 || grid.rows.len() < MIN_ROWS + 1 {
        None
    } else if S::spec_ratio(5, 1).spec_lt(t.density()) {
        None
    } else if t.spec_fill().spec_lt(S::spec_ratio(1, 2)) {
        None
    } else {
        Some(t)
    }
}

/// The tables that the lines from `start` on make by alignment.
pub open spec fn aligned_tables<S: Scalar>(
    l: Seq<LineModel<S>>,
    runs: Seq<ResolvedRun<S>>,
    start: int,
) -> Seq<TableModel<S>>
    decreases l.len() - start,
{
    if start < 0 || start >= l.len() {
        Seq::empty()
    } else {
        let (common, end) = extended(supports_of(l), edges_of(l[start]), start + 1);
        if end - start >= MIN_ROWS && common.len() >= MIN_COLUMNS && start < end <= l.len() {
            match aligned_table(l, start, end, common, runs) {
                Some(t) => seq![t] + aligned_tables(l, runs, end),
                None => aligned_tables(l, runs, start + 1),
            }
        } else {
            aligned_tables(l, runs, start + 1)
        }
    }
}

/// The tables that glyphs make by alignment.
pub open spec fn inferred_tables<S: Scalar>(
    g: Seq<PlacedGlyph<S>>,
    runs: Seq<ResolvedRun<S>>,
) -> Seq<TableModel<S>> {
    let l = lines::assembled(g);
    if l.len() < MIN_ROWS {
        Seq::empty()
    } else {
        aligned_tables(l, runs, 0)
    }
}

/// The glyphs of the first `n` regions.
pub open spec fn page_glyphs<S>(blocks: Seq<RegionModel<S>>, n: int) -> Seq<PlacedGlyph<S>>
    decreases n,
{
    if n <= 0 {
        Seq::empty()
    } else {
        page_glyphs(blocks, n - 1) + regions::spread_glyphs(blocks[n - 1].lines)
    }
}

/// The tables of a page: those drawn, and those that what is left aligns to.
pub open spec fn tables_of<S: Scalar>(
    blocks: Seq<RegionModel<S>>,
    r: Seq<Rule<S>>,
    runs: Seq<ResolvedRun<S>>,
) -> Seq<TableModel<S>> {
    let g = page_glyphs(blocks, blocks.len() as int);
    if g.len() == 0 {
        Seq::empty()
    } else {
        let drawn = drawn_tables(g, r, runs);
        let rest = unclaimed(g, drawn, g.len() as int);
        if rest.len() == 0 {
            drawn
        } else {
            drawn + inferred_tables(rest, runs)
        }
    }
}

fn contains<S: Scalar>(r: &Rect<S>, x: S, y: S) -> (b: bool)
    ensures
        b == inside(*r, x, y),
{
    r.x0.le(x) && x.le(r.x1) && r.y0.le(y) && y.le(r.y1)
}

/// Sort and merge values within tolerance.
fn dedupe<S: Scalar>(values: Vec<S>) -> (r: Vec<S>)
    ensures
        r@ == distinct(values@),
{
    let ghost given = values@;
    let sorted = rules::sort_numbers(values);
    proof {
        sorting::lemma_sorted_keeps_elements(given, rules::ascending::<S>());
    }
    let mut out: Vec<S> = Vec::new();
    let mut i: usize = 0;
    while i < sorted.len()
        invariant
            i <= sorted@.len(),
            out@ == merged(sorted@, i as int),
        decreases sorted@.len() - i,
    {
        let v = sorted[i];
        let n: usize = out.len();
        if !(n > 0 && v.minus(out[n - 1]).magnitude().le(S::ratio(2, 1))) {
            out.push(v);
        }
        i += 1;
    }
    out
}

spec fn opt_int(o: Option<usize>) -> Option<int> {
    match o {
        Some(i) => Some(i as int),
        None => None,
    }
}

proof fn lemma_interval_range<S: Scalar>(edges: Seq<S>, v: S, k: int)
    ensures
        match interval_from(edges, v, k) {
            Some(i) => 0 <= i && i + 1 < edges.len(),
            None => true,
        },
    decreases edges.len() - k,
{
    if 0 <= k && k + 1 < edges.len() {
        lemma_interval_range(edges, v, k + 1);
    }
}

/// Which interval of `edges` contains `v`, clamped at both ends.
///
/// Clamping matters: the region is bounded by rules or by glyph boxes, while
/// this is called with a glyph origin, which sits on the baseline.
fn slot<S: Scalar>(edges: &Vec<S>, v: S) -> (r: Option<usize>)
    ensures
        opt_int(r) == slot_of(edges@, v),
        r matches Some(i) ==> i + 1 < edges@.len(),
{
    let n: usize = edges.len();
    if n < 2 {
        return None;
    }
    if v.le(edges[1]) {
        return Some(0);
    }
    if edges[n - 2].le(v) {
        return Some(n - 2);
    }
    let mut k: usize = 0;
    while k < n - 1
        invariant
            k <= n - 1,
            2 <= n,
            n == edges@.len(),
            slot_of(edges@, v) == interval_from(edges@, v, k as int),
        decreases n - k,
    {
        if edges[k].lt(v) && v.le(edges[k + 1]) {
            return Some(k);
        }
        k += 1;
    }
    None
}

proof fn lemma_slot_range<S: Scalar>(edges: Seq<S>, v: S)
    ensures
        match slot_of(edges, v) {
            Some(i) => 0 <= i && i + 1 < edges.len(),
            None => true,
        },
{
    lemma_interval_range(edges, v, 0);
}

proof fn lemma_cell_in_grid<S: Scalar>(grid: Grid<S>, g: PlacedGlyph<S>)
    ensures
        match grid.cell_for(g) {
            Some(i) => 0 <= i < grid.size(),
            None => true,
        },
{
    lemma_slot_range(grid.columns, g.origin.x);
    lemma_slot_range(grid.rows, g.origin.y);
    match (slot_of(grid.columns, g.origin.x), slot_of(grid.rows, g.origin.y)) {
        (Some(c), Some(r)) => {
            let cols = grid.cols();
            let rows = grid.rows.len() - 1;
            assert(0 <= r * cols + c < rows * cols) by (nonlinear_arith)
                requires
                    0 <= c < cols,
                    0 <= r < rows,
            ;
        },
        _ => {},
    }
}

/// Assign each glyph to the cell it falls in.
fn assign<S: Scalar>(
    glyphs: Vec<PlacedGlyph<S>>,
    column_edges: &Vec<S>,
    row_edges: &Vec<S>,
) -> (r: Vec<Vec<PlacedGlyph<S>>>)
    requires
        column_edges@.len() >= 2,
        row_edges@.len() >= 2,
    ensures
        ({
            let grid = Grid { columns: column_edges@, rows: row_edges@ };
            &&& r@.len() == grid.size()
            &&& forall|k: int|
                0 <= k < r@.len() ==> (#[trigger] r@[k])@ == grid.assigned(
                    glyphs@,
                    k,
                    glyphs@.len() as int,
                )
        }),
{
    let ghost grid = Grid { columns: column_edges@, rows: row_edges@ };
    let cols: usize = column_edges.len() - 1;
    let rows: usize = row_edges.len() - 1;
    let mut cells: Vec<Vec<PlacedGlyph<S>>> = Vec::new();
    let mut row: usize = 0;
    assert(0 * cols == 0);
    while row < rows
        invariant
            row <= rows,
            cells@.len() == row * cols,
            forall|k: int| 0 <= k < cells@.len() ==> (#[trigger] cells@[k])@.len() == 0,
        decreases rows - row,
    {
        let mut column: usize = 0;
        while column < cols
            invariant
                column <= cols,
                cells@.len() == row * cols + column,
                forall|k: int| 0 <= k < cells@.len() ==> (#[trigger] cells@[k])@.len() == 0,
            decreases cols - column,
        {
            cells.push(Vec::new());
            column += 1;
        }
        assert(row * cols + cols == (row + 1) * cols) by (nonlinear_arith);
        row += 1;
    }
    let ghost list = glyphs@;
    let n: usize = cells.len();
    assert forall|k: int| 0 <= k < cells@.len() implies (#[trigger] cells@[k])@ == grid.assigned(
        list,
        k,
        0,
    ) by {
        assert(cells@[k]@ =~= grid.assigned(list, k, 0));
    }
    for g in it: glyphs
        invariant
            it.seq() == list,
            grid == (Grid { columns: column_edges@, rows: row_edges@ }),
            cols == grid.cols(),
            n == grid.size(),
            n == cells@.len(),
            forall|k: int|
                0 <= k < cells@.len() ==> (#[trigger] cells@[k])@ == grid.assigned(
                    list,
                    k,
                    it.index() as int,
                ),
    {
        let ghost before = cells@;
        let ghost i = it.index() as int;
        proof {
            lemma_cell_in_grid(grid, g);
        }
        if let (Some(c), Some(r)) = (slot(column_edges, g.origin.x), slot(row_edges, g.origin.y)) {
            assert(grid.cell_for(g) == Some(cell_index(r as int, c as int, cols as int)));
            assert(r * cols >= 0) by (nonlinear_arith)
                requires
                    r >= 0,
                    cols >= 0,
            ;
            let place: usize = r * cols + c;
            cells[place].push(g);
            assert forall|k: int| 0 <= k < cells@.len() implies (#[trigger] cells@[k])@
                == grid.assigned(list, k, i + 1) by {
                assert(before[k]@ == grid.assigned(list, k, i));
            }
        } else {
            assert(grid.cell_for(g) is None);
            assert forall|k: int| 0 <= k < cells@.len() implies (#[trigger] cells@[k])@
                == grid.assigned(list, k, i + 1) by {
                assert(before[k]@ == grid.assigned(list, k, i));
            }
        }
    }
    cells
}

/// A cell with the glyphs that fall in it.
fn build_cell<S: Scalar>(
    glyphs: Vec<PlacedGlyph<S>>,
    runs: &Vec<ResolvedRun<S>>,
    row: usize,
    column: usize,
    order: usize,
    bbox: Rect<S>,
) -> (r: Cell<S>)
    ensures
        r@ == (CellModel {
            row: row as int,
            column: column as int,
            bbox,
            paragraphs: if glyphs@.len() == 0 {
                Seq::empty()
            } else {
                paragraphs::paragraphs_of(lines::assembled(glyphs@), runs@)
            },
            lines: if glyphs@.len() == 0 {
                Seq::empty()
            } else {
                lines::assembled(glyphs@)
            },
        }),
{
    if glyphs.len() == 0 {
        let r = Cell { row, column, bbox, paragraphs: Vec::new(), lines: Vec::new() };
        assert(r@.paragraphs =~= Seq::empty());
        assert(r@.lines =~= Seq::empty());
        r
    } else {
        let block = Region { lines: lines::assemble(glyphs), bbox, origin: Origin::Whole, order };
        let paragraphs = paragraphs::reconstruct(&block, runs);
        Cell { row, column, bbox, paragraphs, lines: block.lines }
    }
}

/// Build the table of a grid.
///
/// Each glyph is assigned to a cell and lines are rebuilt per cell: assigning
/// whole lines would put a row's entire content in its first cell, since a table
/// row is one line spanning every column.
fn build<S: Scalar>(
    glyphs: Vec<PlacedGlyph<S>>,
    runs: &Vec<ResolvedRun<S>>,
    column_edges: Vec<S>,
    row_edges: Vec<S>,
    bbox: Rect<S>,
    origin: TableOrigin,
) -> (r: Table<S>)
    requires
        column_edges@.len() >= 2,
        row_edges@.len() >= 2,
    ensures
        r@ == (Grid { columns: column_edges@, rows: row_edges@ }).table(
            glyphs@,
            runs@,
            bbox,
            origin,
        ),
{
    let ghost grid = Grid { columns: column_edges@, rows: row_edges@ };
    let ghost g = glyphs@;
    let source_glyphs: usize = glyphs.len();
    let cols: usize = column_edges.len() - 1;
    let rows: usize = row_edges.len() - 1;
    let per_cell = assign(glyphs, &column_edges, &row_edges);
    let ghost lists = per_cell@;
    let total: usize = per_cell.len();
    let mut cells: Vec<Cell<S>> = Vec::new();
    let mut row: usize = 0;
    let mut column: usize = 0;
    let mut order: usize = 0;
    assert(0 * cols == 0);
    for own in it: per_cell
        invariant
            it.seq() == lists,
            order == it.index(),
            total == lists.len(),
            total == grid.size(),
            cols == column_edges@.len() - 1,
            rows == row_edges@.len() - 1,
            cols >= 1,
            grid == (Grid { columns: column_edges@, rows: row_edges@ }),
            order == row * cols + column,
            column < cols,
            forall|k: int|
                0 <= k < lists.len() ==> (#[trigger] lists[k])@ == grid.assigned(
                    g,
                    k,
                    g.len() as int,
                ),
            cells@.len() == order,
            forall|k: int|
                0 <= k < order ==> (#[trigger] cells@[k])@ == grid.filled_cell(g, runs@, k),
    {
        proof {
            lemma_row_in_grid(order as int, row as int, column as int, rows as int, cols as int);
        }
        let cell_box = Rect {
            x0: column_edges[column],
            x1: column_edges[column + 1],
            y0: row_edges[row],
            y1: row_edges[row + 1],
        };
        let cell = build_cell(own, runs, row, column, order, cell_box);
        assert(cell@ =~= grid.filled_cell(g, runs@, order as int));
        cells.push(cell);
        order = order + 1;
        if column + 1 < cols {
            column = column + 1;
        } else {
            assert(row * cols + cols == (row + 1) * cols) by (nonlinear_arith);
            column = 0;
            row = row + 1;
        }
    }
    let t = Table { rows, cols, cells, bbox, origin, column_edges, row_edges, source_glyphs };
    assert(t@ =~= grid.table(g, runs@, bbox, origin));
    t
}

proof fn lemma_row_in_grid(i: int, row: int, column: int, rows: int, cols: int)
    requires
        i == row * cols + column,
        0 <= column < cols,
        0 <= row,
        i < rows * cols,
    ensures
        row < rows,
        i / cols == row,
        i % cols == column,
{
    vstd::arithmetic::div_mod::lemma_fundamental_div_mod_converse(i, cols, row, column);
    assert(row < rows) by (nonlinear_arith)
        requires
            row * cols + column < rows * cols,
            0 <= column < cols,
    ;
}

/// Whether two rules meet.
fn touches<S: Scalar>(a: &Rule<S>, b: &Rule<S>) -> (r: bool)
    ensures
        r == rules_touch(*a, *b),
{
    let slack = S::ratio(3, 1);
    a.bbox.x0.minus(slack).le(b.bbox.x1) && b.bbox.x0.minus(slack).le(a.bbox.x1)
        && a.bbox.y0.minus(slack).le(b.bbox.y1) && b.bbox.y0.minus(slack).le(a.bbox.y1)
}

/// Label rules by the connected clusters they form, so two tables on one page
/// stay two.
fn cluster_rules<S: Scalar>(hints: &Vec<Rule<S>>) -> (labels: Vec<usize>)
    ensures
        labels@ == grouping::grouped(hints@.len(), touching(hints@)),
        labels@.len() == hints@.len(),
{
    let ghost close = touching(hints@);
    let is_close = |i: usize, j: usize| -> (r: bool)
        requires
            i < hints@.len(),
            j < hints@.len(),
        ensures
            r == rules_touch(hints@[i as int], hints@[j as int]),
        { touches(&hints[i], &hints[j]) };
    grouping::group(hints.len(), is_close, Ghost(close))
}

fn positions_of<S: Scalar>(
    hints: &Vec<Rule<S>>,
    labels: &Vec<usize>,
    label: usize,
    horizontal: bool,
) -> (r: Vec<S>)
    requires
        labels@.len() == hints@.len(),
    ensures
        r@ == positions(hints@, labels@, label as int, horizontal, hints@.len() as int),
{
    let mut v: Vec<S> = Vec::new();
    let mut i: usize = 0;
    while i < hints.len()
        invariant
            i <= hints@.len(),
            labels@.len() == hints@.len(),
            v@ == positions(hints@, labels@, label as int, horizontal, i as int),
        decreases hints@.len() - i,
    {
        if labels[i] == label && hints[i].horizontal == horizontal {
            v.push(hints[i].position());
        }
        i += 1;
    }
    v
}

fn take_inside<S: Scalar>(glyphs: &Vec<PlacedGlyph<S>>, region: &Rect<S>) -> (r: Vec<
    PlacedGlyph<S>,
>)
    ensures
        r@ == glyphs_inside(glyphs@, *region, glyphs@.len() as int),
{
    let mut v: Vec<PlacedGlyph<S>> = Vec::new();
    let mut i: usize = 0;
    while i < glyphs.len()
        invariant
            i <= glyphs@.len(),
            v@ == glyphs_inside(glyphs@, *region, i as int),
        decreases glyphs@.len() - i,
    {
        if contains(region, glyphs[i].origin.x, glyphs[i].origin.y) {
            v.push(glyphs[i].copy());
        }
        i += 1;
    }
    v
}

/// The tables whose grids the producer drew.
fn from_rules<S: Scalar>(
    glyphs: &Vec<PlacedGlyph<S>>,
    hints: &Vec<Rule<S>>,
    runs: &Vec<ResolvedRun<S>>,
) -> (r: Vec<Table<S>>)
    ensures
        table_models(r@) == drawn_tables(glyphs@, hints@, runs@),
{
    let mut out: Vec<Table<S>> = Vec::new();
    if hints.len() > MAX_RULES {
        assert(table_models(out@) =~= Seq::empty());
        return out;
    }
    let labels = cluster_rules(hints);
    let mut label: usize = 0;
    assert(table_models(out@) =~= ruled_tables(glyphs@, hints@, labels@, runs@, 0));
    while label < hints.len()
        invariant
            label <= hints@.len(),
            labels@.len() == hints@.len(),
            table_models(out@) == ruled_tables(glyphs@, hints@, labels@, runs@, label as int),
        decreases hints@.len() - label,
    {
        let ghost before = out@;
        let verticals = dedupe(positions_of(hints, &labels, label, false));
        let horizontals = dedupe(positions_of(hints, &labels, label, true));
        let ghost grid = grid_of(hints@, labels@, label as int);
        if verticals.len() >= MIN_GRID_LINES && horizontals.len() >= MIN_GRID_LINES {
            let region = Rect {
                x0: verticals[0],
                x1: verticals[verticals.len() - 1],
                y0: horizontals[0],
                y1: horizontals[horizontals.len() - 1],
            };
            assert(region == grid_box(grid));
            let own = take_inside(glyphs, &region);
            if own.len() > 0 {
                let table = build(
                    own,
                    runs,
                    verticals,
                    horizontals,
                    region,
                    TableOrigin::RuledGrid,
                );
                // A form with empty cells is still a table, but a chart's
                // gridlines with a few filled cells are not.
                if S::ratio(1, 4).le(table.fill()) {
                    out.push(table);
                    assert(table_models(out@) =~= table_models(before).push(table@));
                }
            }
        }
        label += 1;
    }
    out
}

fn column_edges_of<S: Scalar>(line: &Line<S>) -> (r: Vec<S>)
    ensures
        r@ == edges_of(line@),
{
    let found = words::segment(line);
    let ghost models = words::word_models(found@);
    let gutter = line.size.greatest(scalar::one_of::<S>()).times(S::ratio(9, 10));
    let mut edges: Vec<S> = Vec::new();
    let mut i: usize = 1;
    while i < found.len()
        invariant
            1 <= i,
            i <= found@.len() || (found@.len() == 0 && i == 1),
            models == words::word_models(found@),
            edges@ == edges_among(models, gutter, i as int),
        decreases found@.len() - i,
    {
        assert(models[i as int] == found@[i as int]@);
        assert(models[i - 1] == found@[i - 1]@);
        if !found[i].is_empty() && gutter.le(found[i].bbox.x0.minus(found[i - 1].bbox.x1)) {
            edges.push(found[i].bbox.x0);
        }
        i += 1;
    }
    assert(edges_among(models, gutter, 0) =~= Seq::empty());
    edges
}

fn is_shared<S: Scalar>(x: S, b: &Vec<S>) -> (r: bool)
    ensures
        r == shared_by(x, b@),
{
    let mut i: usize = 0;
    while i < b.len()
        invariant
            i <= b@.len(),
            forall|k: int|
                0 <= k < i ==> !x.spec_minus(#[trigger] b@[k]).spec_magnitude().spec_le(
                    edge_tolerance::<S>(),
                ),
        decreases b@.len() - i,
    {
        if x.minus(b[i]).magnitude().le(S::ratio(2, 1)) {
            return true;
        }
        i += 1;
    }
    false
}

fn intersect<S: Scalar>(a: &Vec<S>, b: &Vec<S>) -> (r: Vec<S>)
    ensures
        r@ == shared_edges(a@, b@),
{
    let mut v: Vec<S> = Vec::new();
    let mut i: usize = 0;
    while i < a.len()
        invariant
            i <= a@.len(),
            v@ == common_edges(a@, b@, i as int),
        decreases a@.len() - i,
    {
        if is_shared(a[i], b) {
            v.push(a[i]);
        }
        i += 1;
    }
    v
}

fn glyphs_between<S: Scalar>(l: &Vec<Line<S>>, from: usize, to: usize) -> (r: Vec<PlacedGlyph<S>>)
    requires
        from <= to <= l@.len(),
    ensures
        r@ == regions::spread_glyphs(
            lines::line_models(l@).subrange(from as int, to as int),
        ),
{
    let ghost models = lines::line_models(l@);
    let mut v: Vec<PlacedGlyph<S>> = Vec::new();
    let mut i: usize = from;
    while i < to
        invariant
            from <= i <= to <= l@.len(),
            models == lines::line_models(l@),
            v@ == regions::spread_glyphs(models.subrange(from as int, i as int)),
        decreases to - i,
    {
        let mut own = lines::copy_glyphs(&l[i].glyphs);
        let ghost part = models.subrange(from as int, i + 1);
        assert(part.drop_last() =~= models.subrange(from as int, i as int));
        assert(part.last().glyphs == l@[i as int].glyphs@);
        v.append(&mut own);
        i += 1;
    }
    v
}

/// The table of lines from `from` up to `to`, if they make one.
fn build_aligned<S: Scalar>(
    l: &Vec<Line<S>>,
    from: usize,
    to: usize,
    columns: &Vec<S>,
    runs: &Vec<ResolvedRun<S>>,
) -> (r: Option<Table<S>>)
    requires
        from < to <= l@.len(),
    ensures
        match r {
            Some(t) => aligned_table(
                lines::line_models(l@),
                from as int,
                to as int,
                columns@,
                runs@,
            ) == Some(t@),
            None => aligned_table(
                lines::line_models(l@),
                from as int,
                to as int,
                columns@,
                runs@,
            ) is None,
        },
{
    let ghost models = lines::line_models(l@);
    let mut b = Rect::<S>::inverted();
    let mut i: usize = from;
    while i < to
        invariant
            from <= i <= to <= l@.len(),
            models == lines::line_models(l@),
            b == paragraphs::lines_box(models, from as int, i as int),
        decreases to - i,
    {
        assert(models[i as int].bbox == l@[i as int].bbox);
        b = b.union(&l[i].bbox);
        i += 1;
    }
    let mut edges: Vec<S> = Vec::new();
    edges.push(b.x0);
    let mut k: usize = 0;
    assert(edges@ =~= seq![b.x0] + columns@.take(0));
    while k < columns.len()
        invariant
            k <= columns@.len(),
            edges@ == seq![b.x0] + columns@.take(k as int),
        decreases columns@.len() - k,
    {
        edges.push(columns[k]);
        k += 1;
        assert(edges@ =~= seq![b.x0] + columns@.take(k as int));
    }
    assert(columns@.take(k as int) =~= columns@);
    edges.push(b.x1);
    let column_edges = dedupe(edges);

    // Each line is a row, split midway between consecutive line boxes.
    let mut rows: Vec<S> = Vec::new();
    rows.push(b.y0);
    let mut i: usize = from + 1;
    assert(rows@ =~= seq![b.y0] + row_middles(models, from as int, i as int));
    while i < to
        invariant
            from + 1 <= i <= to <= l@.len(),
            models == lines::line_models(l@),
            rows@ == seq![b.y0] + row_middles(models, from as int, i as int),
        decreases to - i,
    {
        assert(models[i as int].bbox == l@[i as int].bbox);
        assert(models[i - 1].bbox == l@[i - 1].bbox);
        rows.push(l[i - 1].bbox.y1.plus(l[i].bbox.y0).over(S::ratio(2, 1)));
        i += 1;
        assert(rows@ =~= seq![b.y0] + row_middles(models, from as int, i as int));
    }
    rows.push(b.y1);
    let row_edges = dedupe(rows);

    if column_edges.len() < MIN_COLUMNS + 1 || row_edges.len() < MIN_ROWS + 1 {
        return None;
    }
    let own = glyphs_between(l, from, to);
    let table = build(own, runs, column_edges, row_edges, b, TableOrigin::ColumnAlignment);
    // Two-column prose shares column edges on every line of the page. What
    // separates a table is that its cells are short.
    if S::ratio(5, 1).lt(table.words_per_cell()) {
        return None;
    }
    // A large sparse grid has few words per cell too, while being scattered
    // text.
    if table.fill().lt(S::ratio(1, 2)) {
        return None;
    }
    Some(table)
}

spec fn number_lists<S>(v: Seq<Vec<S>>) -> Seq<Seq<S>> {
    Seq::new(v.len(), |i: int| v[i]@)
}

fn copy_numbers<S: Scalar>(v: &Vec<S>) -> (r: Vec<S>)
    ensures
        r@ == v@,
{
    let mut out: Vec<S> = Vec::new();
    let mut i: usize = 0;
    while i < v.len()
        invariant
            i <= v@.len(),
            out@ == v@.take(i as int),
        decreases v@.len() - i,
    {
        out.push(v[i]);
        i += 1;
        assert(out@ =~= v@.take(i as int));
    }
    assert(out@ =~= v@);
    out
}

proof fn lemma_extended_end<S: Scalar>(supports: Seq<Seq<S>>, common: Seq<S>, end: int)
    requires
        0 <= end <= supports.len(),
    ensures
        end <= extended(supports, common, end).1 <= supports.len(),
    decreases supports.len() - end,
{
    if end < supports.len() {
        let next = shared_edges(common, supports[end]);
        if next.len() >= MIN_COLUMNS {
            lemma_extended_end(supports, next, end + 1);
        }
    }
}

/// The tables that glyphs make by alignment.
fn from_alignment<S: Scalar>(glyphs: Vec<PlacedGlyph<S>>, runs: &Vec<ResolvedRun<S>>) -> (r: Vec<
    Table<S>,
>)
    ensures
        table_models(r@) == inferred_tables(glyphs@, runs@),
{
    // Page-level lines, deliberately: a table row is one line spanning every
    // column.
    let l = lines::assemble(glyphs);
    let ghost models = lines::line_models(l@);
    let n: usize = l.len();
    let mut out: Vec<Table<S>> = Vec::new();
    if n < MIN_ROWS {
        assert(table_models(out@) =~= Seq::empty());
        return out;
    }
    let mut supports: Vec<Vec<S>> = Vec::new();
    let mut i: usize = 0;
    while i < n
        invariant
            i <= n,
            n == l@.len(),
            models == lines::line_models(l@),
            number_lists(supports@) == supports_of(models).take(i as int),
        decreases n - i,
    {
        let ghost before = supports@;
        assert(models[i as int] == l@[i as int]@);
        let edges = column_edges_of(&l[i]);
        supports.push(edges);
        assert(number_lists(supports@) =~= number_lists(before).push(edges@));
        assert(number_lists(supports@) =~= supports_of(models).take(i + 1));
        i += 1;
    }
    let ghost sup = number_lists(supports@);
    assert(sup =~= supports_of(models));

    // Greedily extend runs of consecutive lines whose column edges agree.
    let mut start: usize = 0;
    assert(table_models(out@) + aligned_tables(models, runs@, 0) =~= aligned_tables(
        models,
        runs@,
        0,
    ));
    while start < n
        invariant
            start <= n,
            n == l@.len(),
            n == supports@.len(),
            models == lines::line_models(l@),
            sup == number_lists(supports@),
            sup == supports_of(models),
            table_models(out@) + aligned_tables(models, runs@, start as int) == aligned_tables(
                models,
                runs@,
                0,
            ),
        decreases n - start,
    {
        let ghost first = edges_of(models[start as int]);
        assert(sup[start as int] == supports@[start as int]@);
        let mut common = copy_numbers(&supports[start]);
        let mut end: usize = start + 1;
        let mut going = true;
        while going && end < n
            invariant
                start < end <= n,
                n == l@.len(),
                n == supports@.len(),
                sup == number_lists(supports@),
                going ==> extended(sup, first, start + 1) == extended(sup, common@, end as int),
                !going ==> extended(sup, first, start + 1) == (common@, end as int),
            decreases (n - end) + if going { 1int } else { 0int },
        {
            assert(sup[end as int] == supports@[end as int]@);
            let next = intersect(&common, &supports[end]);
            if next.len() < MIN_COLUMNS {
                going = false;
            } else {
                common = next;
                end += 1;
            }
        }
        assert(extended(sup, first, start + 1) == (common@, end as int));
        let mut taken = false;
        if end - start >= MIN_ROWS && common.len() >= MIN_COLUMNS {
            if let Some(t) = build_aligned(&l, start, end, &common, runs) {
                let ghost before = out@;
                out.push(t);
                assert(table_models(out@) =~= table_models(before).push(t@));
                assert(table_models(before) + (seq![t@] + aligned_tables(
                    models,
                    runs@,
                    end as int,
                )) =~= table_models(out@) + aligned_tables(models, runs@, end as int));
                start = end;
                taken = true;
            }
        }
        if !taken {
            start += 1;
        }
    }
    assert(table_models(out@) =~= aligned_tables(models, runs@, 0));
    out
}

/// Detect every table on a page.
///
/// Deliberately conservative. A false positive turns a paragraph into a grid
/// and makes editing it nonsense, which is worse than missing a table and
/// leaving the text as ordinary lines.
pub fn detect_page<S: Scalar>(
    blocks: &Vec<Region<S>>,
    hints: &Vec<Rule<S>>,
    runs: &Vec<ResolvedRun<S>>,
) -> (r: Vec<Table<S>>)
    ensures
        table_models(r@) == tables_of(regions::region_models(blocks@), hints@, runs@),
{
    let ghost models = regions::region_models(blocks@);
    let mut glyphs: Vec<PlacedGlyph<S>> = Vec::new();
    let mut i: usize = 0;
    while i < blocks.len()
        invariant
            i <= blocks@.len(),
            models == regions::region_models(blocks@),
            glyphs@ == page_glyphs(models, i as int),
        decreases blocks@.len() - i,
    {
        let l = &blocks[i].lines;
        let mut own = glyphs_between(l, 0, l.len());
        assert(models[i as int].lines == lines::line_models(l@));
        assert(lines::line_models(l@).subrange(0, l@.len() as int) =~= lines::line_models(l@));
        glyphs.append(&mut own);
        i += 1;
    }
    if glyphs.len() == 0 {
        let out: Vec<Table<S>> = Vec::new();
        assert(table_models(out@) =~= Seq::empty());
        return out;
    }
    let mut out = from_rules(&glyphs, hints, runs);
    let ghost drawn = table_models(out@);

    // What a drawn grid has claimed is not offered to the weaker route: a table
    // that ruled only some of its borders would otherwise be found twice.
    let mut rest: Vec<PlacedGlyph<S>> = Vec::new();
    let mut i: usize = 0;
    while i < glyphs.len()
        invariant
            i <= glyphs@.len(),
            drawn == table_models(out@),
            rest@ == unclaimed(glyphs@, drawn, i as int),
        decreases glyphs@.len() - i,
    {
        let g = &glyphs[i];
        let mut found = false;
        let mut k: usize = 0;
        while k < out.len() && !found
            invariant
                k <= out@.len(),
                drawn == table_models(out@),
                found ==> claimed(drawn, *g),
                !found ==> forall|j: int|
                    0 <= j < k ==> !inside((#[trigger] drawn[j]).bbox, g.origin.x, g.origin.y),
            decreases out@.len() - k,
        {
            assert(drawn[k as int].bbox == out@[k as int].bbox);
            if contains(&out[k].bbox, g.origin.x, g.origin.y) {
                found = true;
            }
            k += 1;
        }
        if !found {
            rest.push(g.copy());
        }
        i += 1;
    }
    if rest.len() > 0 {
        let ghost first = out@;
        let mut more = from_alignment(rest, runs);
        let ghost second = more@;
        out.append(&mut more);
        assert(table_models(out@) =~= table_models(first) + table_models(second));
    }
    out
}

proof fn lemma_interval_found<S: Scalar>(edges: Seq<S>, v: S, k: int)
    requires
        1 <= k,
        k + 2 < edges.len(),
        forall|i: int| 0 <= i < edges.len() ==> scalar::comparable(v, #[trigger] edges[i]),
        edges[k].spec_lt(v),
        v.spec_le(edges[edges.len() - 2]),
    ensures
        interval_from(edges, v, k) is Some,
    decreases edges.len() - k,
{
    if !v.spec_le(edges[k + 1]) {
        assert(scalar::comparable(v, edges[k + 1]));
        lemma_interval_found(edges, v, k + 1);
    }
}

proof fn lemma_slot_found<S: Scalar>(edges: Seq<S>, v: S)
    requires
        edges.len() >= 3,
        forall|i: int| 0 <= i < edges.len() ==> scalar::comparable(v, #[trigger] edges[i]),
    ensures
        slot_of(edges, v) is Some,
{
    let n = edges.len();
    assert(scalar::comparable(v, edges[1]));
    assert(scalar::comparable(v, edges[n - 2]));
    if !v.spec_le(edges[1]) && !edges[n - 2].spec_le(v) {
        lemma_interval_found(edges, v, 1);
        assert(interval_from(edges, v, 0) == interval_from(edges, v, 1));
    }
}

/// The glyphs of a cell.
pub open spec fn cell_glyph_list<S>() -> spec_fn(CellModel<S>) -> Seq<PlacedGlyph<S>> {
    |c: CellModel<S>| regions::spread_glyphs(c.lines)
}

/// Whether the origins of glyphs can be ordered against the edges of a grid, as
/// those that are numbers can.
pub open spec fn places_on<S: Scalar>(grid: Grid<S>, g: Seq<PlacedGlyph<S>>) -> bool {
    &&& forall|i: int, k: int|
        0 <= i < g.len() && 0 <= k < grid.columns.len() ==> scalar::comparable(
            (#[trigger] g[i]).origin.x,
            #[trigger] grid.columns[k],
        )
    &&& forall|i: int, k: int|
        0 <= i < g.len() && 0 <= k < grid.rows.len() ==> scalar::comparable(
            (#[trigger] g[i]).origin.y,
            #[trigger] grid.rows[k],
        )
}

spec fn piles<S: Scalar>(grid: Grid<S>, g: Seq<PlacedGlyph<S>>, n: int) -> Seq<Seq<PlacedGlyph<S>>> {
    Seq::new(grid.size() as nat, |k: int| grid.assigned(g, k, n))
}

proof fn lemma_empty_piles<G>(p: Seq<Seq<G>>, f: spec_fn(Seq<G>) -> Seq<G>)
    requires
        forall|k: int| 0 <= k < p.len() ==> f(#[trigger] p[k]) == Seq::<G>::empty(),
    ensures
        partition::pooled(p, f) == Multiset::<G>::empty(),
    decreases p.len(),
{
    if p.len() > 0 {
        assert forall|k: int| 0 <= k < p.drop_last().len() implies f(#[trigger] p.drop_last()[k])
            == Seq::<G>::empty() by {
            assert(p.drop_last()[k] == p[k]);
        }
        lemma_empty_piles(p.drop_last(), f);
        partition::lemma_empty_multiset::<G>();
        assert(f(p.last()) == Seq::<G>::empty()) by {
            assert(p.last() == p[p.len() - 1]);
        }
        assert(Multiset::<G>::empty().add(Multiset::empty()) =~= Multiset::empty());
    }
}

proof fn lemma_piles_hold_all<S: Scalar>(grid: Grid<S>, g: Seq<PlacedGlyph<S>>, n: int)
    requires
        grid.columns.len() >= 3,
        grid.rows.len() >= 3,
        places_on(grid, g),
        0 <= n <= g.len(),
    ensures
        partition::pooled(piles(grid, g, n), lines::own_glyphs()) == g.take(n).to_multiset(),
    decreases n,
{
    broadcast use vstd::seq_lib::group_to_multiset_ensures;

    let f = lines::own_glyphs::<S>();
    assert(grid.size() >= 0) by (nonlinear_arith)
        requires
            grid.size() == (grid.rows.len() - 1) * grid.cols(),
            grid.rows.len() >= 3,
            grid.cols() >= 2,
    ;
    if n == 0 {
        assert forall|k: int| 0 <= k < piles(grid, g, 0).len() implies f(
            #[trigger] piles(grid, g, 0)[k],
        ) == Seq::<PlacedGlyph<S>>::empty() by {}
        lemma_empty_piles(piles(grid, g, 0), f);
        assert(g.take(0) =~= Seq::empty());
        partition::lemma_empty_multiset::<PlacedGlyph<S>>();
    } else {
        lemma_piles_hold_all(grid, g, n - 1);
        let x = g[n - 1];
        let old_piles = piles(grid, g, n - 1);
        lemma_slot_found(grid.columns, x.origin.x);
        lemma_slot_found(grid.rows, x.origin.y);
        lemma_cell_in_grid(grid, x);
        let i = grid.cell_for(x)->0;
        assert(piles(grid, g, n) =~= old_piles.update(i, old_piles[i].push(x)));
        partition::lemma_pooled_update(old_piles, i, old_piles[i].push(x), f);
        assert(g.take(n) =~= g.take(n - 1).push(x));
        let a = partition::pooled(piles(grid, g, n), f);
        let b = partition::pooled(old_piles, f);
        let held = old_piles[i].to_multiset();
        assert(a.add(held) == b.add(held.insert(x)));
        assert forall|y: PlacedGlyph<S>| #[trigger] a.count(y) == b.insert(x).count(y) by {
            assert(a.add(held).count(y) == b.add(held.insert(x)).count(y));
        }
        assert(a =~= b.insert(x));
    }
}

proof fn lemma_spread_length<S>(l: Seq<LineModel<S>>, n: int)
    requires
        0 <= n <= l.len(),
    ensures
        glyphs_in_lines(l, n) == regions::spread_glyphs(l.take(n)).len(),
    decreases n,
{
    if n > 0 {
        lemma_spread_length(l, n - 1);
        assert(l.take(n).drop_last() =~= l.take(n - 1));
    }
}

proof fn lemma_cells_length<S>(cells: Seq<CellModel<S>>, n: int)
    requires
        0 <= n <= cells.len(),
    ensures
        glyphs_in_cells(cells, n) == partition::pooled(cells.take(n), cell_glyph_list()).len(),
    decreases n,
{
    broadcast use vstd::seq_lib::group_to_multiset_ensures;

    if n > 0 {
        lemma_cells_length(cells, n - 1);
        let c = cells[n - 1];
        assert(cells.take(n) =~= cells.take(n - 1).push(c));
        partition::lemma_pooled_push(cells.take(n - 1), c, cell_glyph_list::<S>());
        lemma_spread_length(c.lines, c.lines.len() as int);
        assert(c.lines.take(c.lines.len() as int) =~= c.lines);
    }
}

/// Cell assignment partitions the glyphs of a table: every glyph whose place is
/// a number ends up in exactly one cell, and the cells hold as many glyphs as
/// the table was built from.
pub proof fn law_cells_partition_the_glyphs<S: Scalar>(
    grid: Grid<S>,
    g: Seq<PlacedGlyph<S>>,
    runs: Seq<ResolvedRun<S>>,
    bbox: Rect<S>,
    origin: TableOrigin,
)
    requires
        grid.columns.len() >= 3,
        grid.rows.len() >= 3,
        places_on(grid, g),
    ensures
        ({
            let t = grid.table(g, runs, bbox, origin);
            &&& partition::pooled(t.cells, cell_glyph_list()) == g.to_multiset()
            &&& glyphs_in_cells(t.cells, t.cells.len() as int) == t.source_glyphs
        }),
{
    broadcast use vstd::seq_lib::group_to_multiset_ensures;

    let t = grid.table(g, runs, bbox, origin);
    let n = g.len() as int;
    lemma_piles_hold_all(grid, g, n);
    assert(g.take(n) =~= g);
    assert forall|i: int| 0 <= i < t.cells.len() implies cell_glyph_list::<S>()(
        #[trigger] t.cells[i],
    ).to_multiset() == lines::own_glyphs::<S>()(piles(grid, g, n)[i]).to_multiset() by {
        let own = grid.assigned(g, i, n);
        lines::law_lines_partition_the_glyphs(own);
        regions::lemma_spread(lines::assembled(own));
        if own.len() == 0 {
            assert(own =~= Seq::empty());
            assert(regions::spread_glyphs(t.cells[i].lines) =~= Seq::empty());
        }
    }
    partition::lemma_pooled_same(
        t.cells,
        cell_glyph_list::<S>(),
        piles(grid, g, n),
        lines::own_glyphs::<S>(),
    );
    lemma_cells_length(t.cells, t.cells.len() as int);
    assert(t.cells.take(t.cells.len() as int) =~= t.cells);
}

/// Every row and column of a table has its cell, row by row, an empty one where
/// there is no content.
pub proof fn law_cells_are_row_major<S: Scalar>(
    grid: Grid<S>,
    g: Seq<PlacedGlyph<S>>,
    runs: Seq<ResolvedRun<S>>,
    bbox: Rect<S>,
    origin: TableOrigin,
)
    requires
        grid.columns.len() >= 2,
        grid.rows.len() >= 2,
    ensures
        grid.table(g, runs, bbox, origin).row_major(),
{
    let t = grid.table(g, runs, bbox, origin);
    assert(grid.size() >= 0) by (nonlinear_arith)
        requires
            grid.size() == (grid.rows.len() - 1) * grid.cols(),
            grid.rows.len() >= 2,
            grid.cols() >= 1,
    ;
    assert forall|r: int, c: int| 0 <= r < t.rows && 0 <= c < t.cols implies {
        &&& 0 <= #[trigger] cell_index(r, c, t.cols) < t.cells.len()
        &&& t.cells[cell_index(r, c, t.cols)].row == r
        &&& t.cells[cell_index(r, c, t.cols)].column == c
    } by {
        let cols = t.cols;
        let rows = t.rows;
        assert(0 <= r * cols + c < rows * cols) by (nonlinear_arith)
            requires
                0 <= c < cols,
                0 <= r < rows,
        ;
        vstd::arithmetic::div_mod::lemma_fundamental_div_mod_converse(r * cols + c, cols, r, c);
    }
}

/// The glyphs that each of the tables on drawn grids under the labels below a
/// bound is built from.
pub open spec fn ruled_sources<S: Scalar>(
    g: Seq<PlacedGlyph<S>>,
    r: Seq<Rule<S>>,
    labels: Seq<usize>,
    runs: Seq<ResolvedRun<S>>,
    bound: int,
) -> Seq<Seq<PlacedGlyph<S>>>
    decreases bound,
{
    if bound <= 0 {
        Seq::empty()
    } else {
        let before = ruled_sources(g, r, labels, runs, bound - 1);
        let grid = grid_of(r, labels, bound - 1);
        if ruled_table(g, grid, runs) is Some {
            before.push(glyphs_inside(g, grid_box(grid), g.len() as int))
        } else {
            before
        }
    }
}

/// The glyphs that each of the tables that the lines from `start` on make by
/// alignment is built from.
pub open spec fn aligned_sources<S: Scalar>(
    l: Seq<LineModel<S>>,
    runs: Seq<ResolvedRun<S>>,
    start: int,
) -> Seq<Seq<PlacedGlyph<S>>>
    decreases l.len() - start,
{
    if start < 0 || start >= l.len() {
        Seq::empty()
    } else {
        let (common, end) = extended(supports_of(l), edges_of(l[start]), start + 1);
        if end - start >= MIN_ROWS && common.len() >= MIN_COLUMNS && start < end <= l.len()
            && aligned_table(l, start, end, common, runs) is Some {
            seq![regions::spread_glyphs(l.subrange(start, end))] + aligned_sources(l, runs, end)
        } else {
            aligned_sources(l, runs, start + 1)
        }
    }
}

/// The glyphs that each table of a page is built from: those inside a drawn
/// grid, and those of lines that align.
pub open spec fn sources_of<S: Scalar>(
    blocks: Seq<RegionModel<S>>,
    r: Seq<Rule<S>>,
    runs: Seq<ResolvedRun<S>>,
) -> Seq<Seq<PlacedGlyph<S>>> {
    let g = page_glyphs(blocks, blocks.len() as int);
    if g.len() == 0 {
        Seq::empty()
    } else {
        let ruled = if r.len() > MAX_RULES {
            Seq::empty()
        } else {
            ruled_sources(g, r, grouping::grouped(r.len(), touching(r)), runs, r.len() as int)
        };
        let l = lines::assembled(unclaimed(g, drawn_tables(g, r, runs), g.len() as int));
        if l.len() < MIN_ROWS {
            ruled
        } else {
            ruled + aligned_sources(l, runs, 0)
        }
    }
}

/// Whether a table is what some glyphs out of a list make on a grid of at least
/// two rows and columns.
spec fn stands_on_a_grid<S: Scalar>(
    t: TableModel<S>,
    own: Seq<PlacedGlyph<S>>,
    g: Seq<PlacedGlyph<S>>,
    runs: Seq<ResolvedRun<S>>,
) -> bool {
    &&& drawn_from(own, g)
    &&& exists|grid: Grid<S>, bbox: Rect<S>, origin: TableOrigin|
        {
            &&& t == #[trigger] grid.table(own, runs, bbox, origin)
            &&& grid.columns.len() >= 3
            &&& grid.rows.len() >= 3
        }
}

/// Whether each of some tables stands on a grid, with its glyphs.
spec fn all_on_grids<S: Scalar>(
    t: Seq<TableModel<S>>,
    own: Seq<Seq<PlacedGlyph<S>>>,
    g: Seq<PlacedGlyph<S>>,
    runs: Seq<ResolvedRun<S>>,
) -> bool {
    &&& own.len() == t.len()
    &&& forall|i: int| 0 <= i < t.len() ==> stands_on_a_grid(#[trigger] t[i], own[i], g, runs)
}

/// Whether some glyphs are all out of a list.
pub open spec fn drawn_from<S>(own: Seq<PlacedGlyph<S>>, g: Seq<PlacedGlyph<S>>) -> bool {
    forall|i: int| 0 <= i < own.len() ==> g.contains(#[trigger] own[i])
}

proof fn lemma_inside_drawn<S: Scalar>(g: Seq<PlacedGlyph<S>>, region: Rect<S>, n: int)
    requires
        0 <= n <= g.len(),
    ensures
        drawn_from(glyphs_inside(g, region, n), g),
    decreases n,
{
    if n > 0 {
        lemma_inside_drawn(g, region, n - 1);
        assert(g.contains(g[n - 1]));
    }
}

proof fn lemma_unclaimed_drawn<S: Scalar>(
    g: Seq<PlacedGlyph<S>>,
    t: Seq<TableModel<S>>,
    n: int,
)
    requires
        0 <= n <= g.len(),
    ensures
        drawn_from(unclaimed(g, t, n), g),
    decreases n,
{
    if n > 0 {
        lemma_unclaimed_drawn(g, t, n - 1);
        assert(g.contains(g[n - 1]));
    }
}

/// The glyphs of some of the lines that glyphs make are among those glyphs.
proof fn lemma_lines_drawn<S: Scalar>(g: Seq<PlacedGlyph<S>>, from: int, to: int)
    requires
        0 <= from <= to <= lines::assembled(g).len(),
    ensures
        drawn_from(regions::spread_glyphs(lines::assembled(g).subrange(from, to)), g),
{
    broadcast use vstd::seq_lib::group_to_multiset_ensures;

    let l = lines::assembled(g);
    let n = l.len() as int;
    let own = regions::spread_glyphs(l.subrange(from, to));
    lines::law_lines_partition_the_glyphs(g);
    regions::lemma_spread(l);
    regions::lemma_spread_parts(l, from, to);
    regions::lemma_spread_parts(l, to, n);
    assert(l.take(n) =~= l);
    let all = regions::spread_glyphs(l);
    let a = regions::spread_glyphs(l.take(from));
    assert forall|i: int| 0 <= i < own.len() implies g.contains(#[trigger] own[i]) by {
        assert(regions::spread_glyphs(l.take(to))[a.len() + i] == own[i]);
        assert(all[a.len() + i] == own[i]);
        assert(all.contains(own[i]));
        assert(all.to_multiset().count(own[i]) > 0);
        assert(g.to_multiset().count(own[i]) > 0);
    }
}

proof fn lemma_ruled_on_grids<S: Scalar>(
    g: Seq<PlacedGlyph<S>>,
    r: Seq<Rule<S>>,
    labels: Seq<usize>,
    runs: Seq<ResolvedRun<S>>,
    bound: int,
)
    ensures
        all_on_grids(
            ruled_tables(g, r, labels, runs, bound),
            ruled_sources(g, r, labels, runs, bound),
            g,
            runs,
        ),
    decreases bound,
{
    if bound > 0 {
        lemma_ruled_on_grids(g, r, labels, runs, bound - 1);
        let grid = grid_of(r, labels, bound - 1);
        let region = grid_box(grid);
        let own = glyphs_inside(g, region, g.len() as int);
        if let Some(t) = ruled_table(g, grid, runs) {
            lemma_inside_drawn(g, region, g.len() as int);
            assert(t == grid.table(own, runs, region, TableOrigin::RuledGrid));
            assert(stands_on_a_grid(t, own, g, runs));
        }
        let before = ruled_tables(g, r, labels, runs, bound - 1);
        let now = ruled_tables(g, r, labels, runs, bound);
        let held = ruled_sources(g, r, labels, runs, bound);
        assert forall|i: int| 0 <= i < now.len() implies stands_on_a_grid(
            #[trigger] now[i],
            held[i],
            g,
            runs,
        ) by {
            if i < before.len() {
                assert(now[i] == before[i]);
            }
        }
    }
}

proof fn lemma_aligned_on_grids<S: Scalar>(
    g: Seq<PlacedGlyph<S>>,
    runs: Seq<ResolvedRun<S>>,
    start: int,
)
    ensures
        all_on_grids(
            aligned_tables(lines::assembled(g), runs, start),
            aligned_sources(lines::assembled(g), runs, start),
            g,
            runs,
        ),
    decreases lines::assembled(g).len() - start,
{
    let l = lines::assembled(g);
    if 0 <= start < l.len() {
        let (common, end) = extended(supports_of(l), edges_of(l[start]), start + 1);
        lemma_aligned_on_grids(g, runs, start + 1);
        if end - start >= MIN_ROWS && common.len() >= MIN_COLUMNS && start < end <= l.len() {
            if let Some(t) = aligned_table(l, start, end, common, runs) {
                lemma_aligned_on_grids(g, runs, end);
                lemma_lines_drawn(g, start, end);
                let grid = aligned_grid(l, start, end, common);
                let own = regions::spread_glyphs(l.subrange(start, end));
                assert(t == grid.table(
                    own,
                    runs,
                    paragraphs::lines_box(l, start, end),
                    TableOrigin::ColumnAlignment,
                ));
                assert(stands_on_a_grid(t, own, g, runs));
                let rest = aligned_tables(l, runs, end);
                let held = seq![own] + aligned_sources(l, runs, end);
                assert forall|i: int| 0 <= i < (seq![t] + rest).len() implies stands_on_a_grid(
                    #[trigger] (seq![t] + rest)[i],
                    held[i],
                    g,
                    runs,
                ) by {
                    if i > 0 {
                        assert((seq![t] + rest)[i] == rest[i - 1]);
                    }
                }
                assert(aligned_tables(l, runs, start) == seq![t] + rest);
            } else {
                assert(aligned_tables(l, runs, start) == aligned_tables(l, runs, start + 1));
            }
        } else {
            assert(aligned_tables(l, runs, start) == aligned_tables(l, runs, start + 1));
        }
    }
}

proof fn lemma_tables_on_grids<S: Scalar>(
    blocks: Seq<RegionModel<S>>,
    r: Seq<Rule<S>>,
    runs: Seq<ResolvedRun<S>>,
)
    ensures
        all_on_grids(
            tables_of(blocks, r, runs),
            sources_of(blocks, r, runs),
            page_glyphs(blocks, blocks.len() as int),
            runs,
        ),
{
    let g = page_glyphs(blocks, blocks.len() as int);
    if g.len() > 0 {
        let labels = grouping::grouped(r.len(), touching(r));
        let drawn = drawn_tables(g, r, runs);
        let held = if r.len() > MAX_RULES {
            Seq::empty()
        } else {
            ruled_sources(g, r, labels, runs, r.len() as int)
        };
        lemma_ruled_on_grids(g, r, labels, runs, r.len() as int);
        assert(all_on_grids(drawn, held, g, runs));
        let rest = unclaimed(g, drawn, g.len() as int);
        lemma_unclaimed_drawn(g, drawn, g.len() as int);
        lemma_assembled_nothing(rest);
        lemma_aligned_on_grids(rest, runs, 0);
        let l = lines::assembled(rest);
        let found = inferred_tables(rest, runs);
        let more = if l.len() < MIN_ROWS {
            Seq::empty()
        } else {
            aligned_sources(l, runs, 0)
        };
        assert(all_on_grids(found, more, rest, runs));
        let all = tables_of(blocks, r, runs);
        let own = sources_of(blocks, r, runs);
        assert(rest.len() == 0 ==> all == drawn);
        assert(all =~= drawn + found);
        assert(own =~= held + more);
        assert forall|i: int| 0 <= i < all.len() implies stands_on_a_grid(
            #[trigger] all[i],
            own[i],
            g,
            runs,
        ) by {
            if i < drawn.len() {
                assert(all[i] == drawn[i]);
                assert(own[i] == held[i]);
            } else {
                let k = i - drawn.len();
                assert(all[i] == found[k]);
                assert(own[i] == more[k]);
                assert(stands_on_a_grid(found[k], more[k], rest, runs));
                assert forall|j: int| 0 <= j < own[i].len() implies g.contains(
                    #[trigger] own[i][j],
                ) by {
                    assert(rest.contains(more[k][j]));
                    let m = choose|m: int| 0 <= m < rest.len() && rest[m] == more[k][j];
                    assert(g.contains(rest[m]));
                }
            }
        }
    }
}

proof fn lemma_assembled_nothing<S: Scalar>(g: Seq<PlacedGlyph<S>>)
    ensures
        g.len() == 0 ==> lines::assembled(g).len() == 0,
{
    broadcast use vstd::seq_lib::group_to_multiset_ensures;

    if g.len() == 0 && lines::assembled(g).len() > 0 {
        let l = lines::assembled(g);
        lines::law_no_line_is_empty(g, l.len() - 1);
        lines::law_lines_partition_the_glyphs(g);
        regions::lemma_spread(l);
        let all = regions::spread_glyphs(l);
        assert(all.len() > 0);
        assert(all.contains(all[0]));
        assert(all.to_multiset().count(all[0]) > 0);
        assert(g.contains(all[0]));
    }
}

/// Whether the origins of glyphs can be ordered against the edges of a table, as
/// those that are numbers can.
pub open spec fn places_in<S: Scalar>(t: TableModel<S>, g: Seq<PlacedGlyph<S>>) -> bool {
    places_on(Grid { columns: t.column_edges, rows: t.row_edges }, g)
}

/// Whether the cells of a table hold the glyphs that it was built from, each as
/// often as it was there, and no other.
pub open spec fn cells_hold<S>(t: TableModel<S>, own: Seq<PlacedGlyph<S>>) -> bool {
    &&& partition::pooled(t.cells, cell_glyph_list()) == own.to_multiset()
    &&& glyphs_in_cells(t.cells, t.cells.len() as int) == t.source_glyphs
}

/// Every table of a page is built from glyphs of the page, and has a cell for
/// each row and column, row by row. Its cells hold exactly the glyphs that it
/// was built from, where the places of these are numbers.
pub proof fn law_tables_keep_their_glyphs<S: Scalar>(
    blocks: Seq<RegionModel<S>>,
    r: Seq<Rule<S>>,
    runs: Seq<ResolvedRun<S>>,
    k: int,
)
    requires
        0 <= k < tables_of(blocks, r, runs).len(),
    ensures
        sources_of(blocks, r, runs).len() == tables_of(blocks, r, runs).len(),
        ({
            let t = tables_of(blocks, r, runs)[k];
            let own = sources_of(blocks, r, runs)[k];
            &&& drawn_from(own, page_glyphs(blocks, blocks.len() as int))
            &&& t.source_glyphs == own.len()
            &&& t.row_major()
            &&& places_in(t, own) ==> cells_hold(t, own)
        }),
{
    let t = tables_of(blocks, r, runs)[k];
    let own = sources_of(blocks, r, runs)[k];
    let g = page_glyphs(blocks, blocks.len() as int);
    lemma_tables_on_grids(blocks, r, runs);
    assert(stands_on_a_grid(t, own, g, runs));
    let (grid, bbox, origin) = choose|grid: Grid<S>, bbox: Rect<S>, origin: TableOrigin|
        {
            &&& t == #[trigger] grid.table(own, runs, bbox, origin)
            &&& grid.columns.len() >= 3
            &&& grid.rows.len() >= 3
        };
    law_cells_are_row_major(grid, own, runs, bbox, origin);
    if places_in(t, own) {
        assert(places_on(grid, own));
        law_cells_partition_the_glyphs(grid, own, runs, bbox, origin);
    }
}

/// With fixed-point coordinates, which can all be ordered, the cells of every
/// table of a page hold exactly the glyphs that the table was built from.
pub proof fn law_fixed_point_tables_keep_their_glyphs(
    blocks: Seq<RegionModel<scalar::Fixed>>,
    r: Seq<Rule<scalar::Fixed>>,
    runs: Seq<ResolvedRun<scalar::Fixed>>,
    k: int,
)
    requires
        0 <= k < tables_of(blocks, r, runs).len(),
    ensures
        sources_of(blocks, r, runs).len() == tables_of(blocks, r, runs).len(),
        tables_of(blocks, r, runs)[k].row_major(),
        cells_hold(tables_of(blocks, r, runs)[k], sources_of(blocks, r, runs)[k]),
{
    law_tables_keep_their_glyphs(blocks, r, runs, k);
}

/// Rules that meet belong to one grid.
pub proof fn law_rules_that_meet_share_a_grid<S: Scalar>(r: Seq<Rule<S>>, i: int, j: int)
    requires
        0 <= i < j < r.len(),
        rules_touch(r[i], r[j]),
    ensures
        grouping::grouped(r.len(), touching(r))[i] == grouping::grouped(r.len(), touching(r))[j],
{
    grouping::lemma_close_items_share_a_group(r.len(), touching(r), i, j);
}

/// Lines read on: the text of lines after which others come is the text of the
/// first, one space, and the text of the others. So the last word of a line is
/// never joined to the first of the next.
pub proof fn law_lines_read_on_with_a_space<S: Scalar>(a: Seq<LineModel<S>>, b: Seq<LineModel<S>>)
    requires
        a.len() > 0,
        b.len() > 0,
    ensures
        run_on_text(a + b, (a.len() + b.len()) as int) == run_on_text(a, a.len() as int) + seq![
            ' ',
        ] + run_on_text(b, b.len() as int),
    decreases b.len(),
{
    let all = a + b;
    let n = all.len() as int;
    let start = run_on_text(a, a.len() as int);
    if b.len() == 1 {
        lemma_run_on_prefix(all, a, a.len() as int);
        assert(all[n - 1] == b[0]);
        assert(start.push(' ') + words::spaced_text(b[0].glyphs) =~= start + seq![' ']
            + words::spaced_text(b[0].glyphs));
    } else {
        let front = b.drop_last();
        law_lines_read_on_with_a_space(a, front);
        lemma_run_on_prefix(all, a + front, n - 1);
        lemma_run_on_prefix(b, front, b.len() - 1);
        assert(all[n - 1] == b[b.len() - 1]);
        let t = words::spaced_text(b[b.len() - 1].glyphs);
        let r = run_on_text(front, front.len() as int);
        assert((start + seq![' '] + r).push(' ') + t =~= start + seq![' '] + (r.push(' ') + t));
    }
}

/// The text of one line is the line's own, and of none, nothing.
pub proof fn law_one_line_reads_as_it_is<S: Scalar>(l: LineModel<S>)
    ensures
        run_on_text(seq![l], 1) == words::spaced_text(l.glyphs),
        run_on_text(Seq::<LineModel<S>>::empty(), 0) == Seq::<char>::empty(),
{
}

proof fn lemma_run_on_prefix<S: Scalar>(l: Seq<LineModel<S>>, m: Seq<LineModel<S>>, n: int)
    requires
        0 <= n <= l.len(),
        n <= m.len(),
        forall|i: int| 0 <= i < n ==> l[i] == #[trigger] m[i],
    ensures
        run_on_text(l, n) == run_on_text(m, n),
    decreases n,
{
    if n > 0 {
        lemma_run_on_prefix(l, m, n - 1);
        assert(l[n - 1] == m[n - 1]);
        assert(l[0] == m[0]);
    }
}

/// A glyph stands in the cell of its row and column: it lies no further left
/// than the column's left edge, unless the column is the first, no further right
/// than its right edge, unless it is the last, and likewise for the row. A
/// cell's box is that of its row and column.
pub proof fn law_glyphs_stand_in_their_cells<S: Scalar>(
    blocks: Seq<RegionModel<S>>,
    r: Seq<Rule<S>>,
    runs: Seq<ResolvedRun<S>>,
    k: int,
    i: int,
)
    requires
        scalar::orderly::<S>(),
        0 <= k < tables_of(blocks, r, runs).len(),
        0 <= i < tables_of(blocks, r, runs)[k].cells.len(),
    ensures
        ({
            let t = tables_of(blocks, r, runs)[k];
            let cell = t.cells[i];
            let x = t.column_edges;
            let y = t.row_edges;
            &&& x.len() == t.cols + 1 && y.len() == t.rows + 1
            &&& 0 <= cell.column < t.cols && 0 <= cell.row < t.rows
            &&& cell.bbox.x0 == x[cell.column] && cell.bbox.x1 == x[cell.column + 1]
            &&& cell.bbox.y0 == y[cell.row] && cell.bbox.y1 == y[cell.row + 1]
            &&& forall|m: int, n: int|
                0 <= m < cell.lines.len() && 0 <= n < cell.lines[m].glyphs.len() ==> {
                    let at = (#[trigger] cell.lines[m].glyphs[n]).origin;
                    &&& cell.column > 0 ==> cell.bbox.x0.spec_le(at.x)
                    &&& cell.column < t.cols - 1 ==> at.x.spec_le(cell.bbox.x1)
                    &&& cell.row > 0 ==> cell.bbox.y0.spec_le(at.y)
                    &&& cell.row < t.rows - 1 ==> at.y.spec_le(cell.bbox.y1)
                }
        }),
{
    let t = tables_of(blocks, r, runs)[k];
    let own = sources_of(blocks, r, runs)[k];
    let g = page_glyphs(blocks, blocks.len() as int);
    lemma_tables_on_grids(blocks, r, runs);
    assert(stands_on_a_grid(t, own, g, runs));
    let (grid, bbox, origin) = choose|grid: Grid<S>, bbox: Rect<S>, origin: TableOrigin|
        {
            &&& t == #[trigger] grid.table(own, runs, bbox, origin)
            &&& grid.columns.len() >= 3
            &&& grid.rows.len() >= 3
        };
    let cell = t.cells[i];
    let cols = grid.cols();
    let rows = grid.rows.len() - 1;
    assert(grid.size() == rows * cols);
    assert(0 <= i % cols < cols && 0 <= i / cols < rows) by (nonlinear_arith)
        requires
            cols >= 2,
            0 <= i < rows * cols,
    ;
    assert forall|m: int, n: int|
        0 <= m < cell.lines.len() && 0 <= n < cell.lines[m].glyphs.len() implies {
        let at = (#[trigger] cell.lines[m].glyphs[n]).origin;
        &&& cell.column > 0 ==> cell.bbox.x0.spec_le(at.x)
        &&& cell.column < t.cols - 1 ==> at.x.spec_le(cell.bbox.x1)
        &&& cell.row > 0 ==> cell.bbox.y0.spec_le(at.y)
        &&& cell.row < t.rows - 1 ==> at.y.spec_le(cell.bbox.y1)
    } by {
        let x = cell.lines[m].glyphs[n];
        let mine = grid.assigned(own, i, own.len() as int);
        lemma_assembled_member(mine, m, n);
        lemma_assigned_member(grid, own, i, own.len() as int, x);
        let c = slot_of(grid.columns, x.origin.x)->0;
        let q = slot_of(grid.rows, x.origin.y)->0;
        lemma_slot_range(grid.columns, x.origin.x);
        lemma_slot_range(grid.rows, x.origin.y);
        assert(i == q * cols + c);
        assert(i % cols == c && i / cols == q) by (nonlinear_arith)
            requires
                i == q * cols + c,
                0 <= c < cols,
                0 <= q,
        ;
        lemma_slot_holds(grid.columns, x.origin.x);
        lemma_slot_holds(grid.rows, x.origin.y);
    }
}

proof fn lemma_slot_holds<S: Scalar>(edges: Seq<S>, v: S)
    requires
        scalar::orderly::<S>(),
    ensures
        slot_of(edges, v) matches Some(c) ==> {
            &&& 0 <= c && c + 1 < edges.len()
            &&& c > 0 ==> edges[c].spec_le(v)
            &&& c + 2 < edges.len() ==> v.spec_le(edges[c + 1])
        },
{
    if edges.len() >= 2 && !v.spec_le(edges[1]) && !edges[edges.len() - 2].spec_le(v) {
        lemma_interval_holds(edges, v, 0);
    }
}

proof fn lemma_interval_holds<S: Scalar>(edges: Seq<S>, v: S, k: int)
    requires
        scalar::orderly::<S>(),
        0 <= k,
    ensures
        interval_from(edges, v, k) matches Some(c) ==> {
            &&& k <= c && c + 1 < edges.len()
            &&& edges[c].spec_le(v)
            &&& v.spec_le(edges[c + 1])
        },
    decreases edges.len() - k,
{
    if k + 1 < edges.len() {
        scalar::lemma_order(edges[k], v, v);
        lemma_interval_holds(edges, v, k + 1);
    }
}

proof fn lemma_assigned_member<S: Scalar>(
    grid: Grid<S>,
    g: Seq<PlacedGlyph<S>>,
    cell: int,
    n: int,
    x: PlacedGlyph<S>,
)
    requires
        0 <= n <= g.len(),
        grid.assigned(g, cell, n).contains(x),
    ensures
        grid.cell_for(x) == Some(cell),
    decreases n,
{
    let own = grid.assigned(g, cell, n);
    let q = choose|q: int| 0 <= q < own.len() && own[q] == x;
    if n > 0 {
        let before = grid.assigned(g, cell, n - 1);
        if q < before.len() {
            assert(before[q] == x);
            lemma_assigned_member(grid, g, cell, n - 1, x);
        }
    }
}

proof fn lemma_assembled_member<S: Scalar>(g: Seq<PlacedGlyph<S>>, m: int, n: int)
    requires
        0 <= m < lines::assembled(g).len(),
        0 <= n < lines::assembled(g)[m].glyphs.len(),
    ensures
        g.contains(lines::assembled(g)[m].glyphs[n]),
{
    let l = lines::assembled(g);
    lemma_lines_drawn(g, 0, l.len() as int);
    assert(l.subrange(0, l.len() as int) =~= l);
    regions::lemma_spread_member(l, m, n);
    let own = regions::spread_glyphs(l);
    let q = choose|q: int| 0 <= q < own.len() && own[q] == l[m].glyphs[n];
    assert(g.contains(own[q]));
}

/// Edges made distinct ascend, each is one of the positions given, neighbours
/// are over two points apart, and every position has an edge within two points
/// or of its own.
pub proof fn law_distinct_edges_stand_apart<S: Scalar>(v: Seq<S>)
    requires
        scalar::orderly::<S>(),
    ensures
        ({
            let edges = distinct(v);
            &&& forall|i: int| 0 <= i < edges.len() ==> v.contains(#[trigger] edges[i])
            &&& forall|i: int, j: int|
                0 <= i < j < edges.len() ==> (#[trigger] edges[i]).spec_le(#[trigger] edges[j])
            &&& forall|i: int|
                0 < i < edges.len() ==> !(#[trigger] edges[i]).spec_minus(
                    edges[i - 1],
                ).spec_magnitude().spec_le(S::spec_ratio(2, 1))
            &&& forall|q: int|
                0 <= q < v.len() ==> exists|i: int|
                    0 <= i < edges.len() && (#[trigger] edges[i] == #[trigger] v[q]
                        || v[q].spec_minus(edges[i]).spec_magnitude().spec_le(
                        S::spec_ratio(2, 1),
                    ))
        }),
{
    broadcast use vstd::seq_lib::group_to_multiset_ensures;

    let less = rules::ascending::<S>();
    let s = sorting::sorted_by(v, less);
    rules::lemma_ascending_orders::<S>();
    sorting::lemma_sorted_is_in_order(v, less);
    sorting::lemma_sorted_keeps_elements(v, less);
    assert forall|i: int, j: int| 0 <= i < j < s.len() implies (#[trigger] s[i]).spec_le(
        #[trigger] s[j],
    ) by {
        assert(!less(s[j], s[i]));
        scalar::lemma_order(s[j], s[i], s[j]);
    }
    lemma_merged(s, s.len() as int);
    let edges = distinct(v);
    assert forall|i: int| 0 <= i < edges.len() implies v.contains(#[trigger] edges[i]) by {
        assert(listed(s, s.len() as int, edges[i]));
        assert(s.contains(edges[i]));
        assert(s.to_multiset().count(edges[i]) > 0);
        assert(v.to_multiset().count(edges[i]) > 0);
    }
    assert forall|q: int| 0 <= q < v.len() implies exists|i: int|
        0 <= i < edges.len() && (#[trigger] edges[i] == #[trigger] v[q] || v[q].spec_minus(
            edges[i],
        ).spec_magnitude().spec_le(S::spec_ratio(2, 1))) by {
        assert(v.contains(v[q]));
        assert(v.to_multiset().count(v[q]) > 0);
        assert(s.to_multiset().count(v[q]) > 0);
        assert(s.contains(v[q]));
        let p = choose|p: int| 0 <= p < s.len() && s[p] == v[q];
        assert(edge_for(edges, s[p]));
        let i = choose|i: int|
            0 <= i < edges.len() && (#[trigger] edges[i] == s[p] || s[p].spec_minus(
                edges[i],
            ).spec_magnitude().spec_le(edge_tolerance::<S>()));
        assert(edges[i] == edges[i]);
    }
}

/// Whether one of the first `n` values is `x`.
spec fn listed<S: Scalar>(s: Seq<S>, n: int, x: S) -> bool {
    exists|q: int| 0 <= q < n && #[trigger] s[q] == x
}

/// Whether an edge stands for a value: it is that value, or near enough to it.
spec fn edge_for<S: Scalar>(kept: Seq<S>, x: S) -> bool {
    exists|i: int|
        0 <= i < kept.len() && (#[trigger] kept[i] == x || x.spec_minus(
            kept[i],
        ).spec_magnitude().spec_le(edge_tolerance::<S>()))
}

proof fn lemma_merged<S: Scalar>(s: Seq<S>, n: int)
    requires
        scalar::orderly::<S>(),
        0 <= n <= s.len(),
        forall|i: int, j: int|
            0 <= i < j < s.len() ==> (#[trigger] s[i]).spec_le(#[trigger] s[j]),
    ensures
        ({
            let kept = merged(s, n);
            &&& forall|i: int| 0 <= i < kept.len() ==> listed(s, n, #[trigger] kept[i])
            &&& forall|i: int, j: int|
                0 <= i < j < kept.len() ==> (#[trigger] kept[i]).spec_le(#[trigger] kept[j])
            &&& forall|i: int|
                0 < i < kept.len() ==> !(#[trigger] kept[i]).spec_minus(
                    kept[i - 1],
                ).spec_magnitude().spec_le(edge_tolerance::<S>())
            &&& forall|q: int| 0 <= q < n ==> edge_for(kept, #[trigger] s[q])
        }),
    decreases n,
{
    if n > 0 {
        lemma_merged(s, n - 1);
        let before = merged(s, n - 1);
        let kept = merged(s, n);
        assert forall|i: int| 0 <= i < kept.len() implies listed(s, n, #[trigger] kept[i]) by {
            if i < before.len() {
                assert(listed(s, n - 1, before[i]));
                let q = choose|q: int| 0 <= q < n - 1 && #[trigger] s[q] == before[i];
                assert(s[q] == kept[i]);
            } else {
                assert(s[n - 1] == kept[i]);
            }
        }
        assert forall|i: int, j: int| 0 <= i < j < kept.len() implies (
        #[trigger] kept[i]).spec_le(#[trigger] kept[j]) by {
            assert(kept[i] == before[i]);
            if j < before.len() {
                assert(kept[j] == before[j]);
            } else {
                assert(listed(s, n - 1, before[i]));
                let q = choose|q: int| 0 <= q < n - 1 && #[trigger] s[q] == before[i];
                assert(s[q].spec_le(s[n - 1]));
            }
        }
        assert forall|i: int| 0 < i < kept.len() implies !(#[trigger] kept[i]).spec_minus(
            kept[i - 1],
        ).spec_magnitude().spec_le(edge_tolerance::<S>()) by {
            if i < before.len() {
                assert(!before[i].spec_minus(before[i - 1]).spec_magnitude().spec_le(
                    edge_tolerance::<S>(),
                ));
            }
        }
        assert forall|q: int| 0 <= q < n implies edge_for(kept, #[trigger] s[q]) by {
            if q < n - 1 {
                assert(edge_for(before, s[q]));
                let i = choose|i: int|
                    0 <= i < before.len() && (#[trigger] before[i] == s[q] || s[q].spec_minus(
                        before[i],
                    ).spec_magnitude().spec_le(edge_tolerance::<S>()));
                assert(kept[i] == before[i]);
            } else if kept.len() > before.len() {
                assert(kept[before.len() as int] == s[q]);
            } else {
                assert(kept[kept.len() - 1] == before.last());
            }
        }
    }
}

/// The fill of a table is the share of its cells that hold a glyph.
pub proof fn law_fill_is_the_share_of_cells_with_glyphs<S: Scalar>(t: TableModel<S>)
    requires
        0 < t.cells.len() < 0x7FFF_FFFF_FFFF_FFFF,
    ensures
        ({
            let holding = t.cells.filter(
                |c: CellModel<S>|
                    exists|i: int| 0 <= i < c.lines.len() && (#[trigger] c.lines[i]).glyphs.len() > 0,
            );
            t.spec_fill() == S::spec_ratio(holding.len() as i64, 1).spec_over(
                S::spec_ratio(t.cells.len() as i64, 1),
            )
        }),
{
    let holds = |c: CellModel<S>|
        exists|i: int| 0 <= i < c.lines.len() && (#[trigger] c.lines[i]).glyphs.len() > 0;
    lemma_filled(t.cells, holds);
    assert(t.cells.take(t.cells.len() as int) =~= t.cells);
}

proof fn lemma_filled<S: Scalar>(cells: Seq<CellModel<S>>, holds: spec_fn(CellModel<S>) -> bool)
    requires
        forall|c: CellModel<S>| #[trigger]
            holds(c) == exists|i: int|
                0 <= i < c.lines.len() && (#[trigger] c.lines[i]).glyphs.len() > 0,
    ensures
        filled_cells(cells, cells.len() as int) == cells.filter(holds).len(),
        filled_cells(cells, cells.len() as int) <= cells.len(),
    decreases cells.len(),
{
    reveal(Seq::filter);
    if cells.len() > 0 {
        let front = cells.drop_last();
        lemma_filled(front, holds);
        lemma_filled_prefix(cells, front, front.len() as int);
        let c = cells.last();
        assert(holds(c) == !c.vacant());
    }
}

proof fn lemma_filled_prefix<S>(a: Seq<CellModel<S>>, b: Seq<CellModel<S>>, n: int)
    requires
        0 <= n <= a.len(),
        n <= b.len(),
        forall|i: int| 0 <= i < n ==> a[i] == #[trigger] b[i],
    ensures
        filled_cells(a, n) == filled_cells(b, n),
    decreases n,
{
    if n > 0 {
        lemma_filled_prefix(a, b, n - 1);
        assert(a[n - 1] == b[n - 1]);
    }
}

/// A drawn table has at least two rows and columns and glyphs, a quarter of its
/// cells hold something, and its outer edges bound it. A table found by
/// alignment has at least three rows and two columns, at most five words to a
/// cell, and half of its cells hold something.
pub proof fn law_tables_earn_the_name<S: Scalar>(
    blocks: Seq<RegionModel<S>>,
    r: Seq<Rule<S>>,
    runs: Seq<ResolvedRun<S>>,
    k: int,
)
    requires
        0 <= k < tables_of(blocks, r, runs).len(),
    ensures
        earned(tables_of(blocks, r, runs)[k]),
{
    let g = page_glyphs(blocks, blocks.len() as int);
    let drawn = drawn_tables(g, r, runs);
    let t = tables_of(blocks, r, runs)[k];
    if k < drawn.len() {
        assert(t == drawn[k]);
        lemma_ruled_earned(
            g,
            r,
            grouping::grouped(r.len(), touching(r)),
            runs,
            r.len() as int,
            k,
        );
    } else {
        let rest = unclaimed(g, drawn, g.len() as int);
        assert(t == inferred_tables(rest, runs)[k - drawn.len()]);
        lemma_aligned_earned(lines::assembled(rest), runs, 0, k - drawn.len());
    }
}

/// Whether a table meets the terms of its kind.
pub open spec fn earned<S: Scalar>(t: TableModel<S>) -> bool {
    match t.origin {
        TableOrigin::RuledGrid => {
            &&& t.rows >= 2 && t.cols >= 2
            &&& t.source_glyphs > 0
            &&& S::spec_ratio(1, 4).spec_le(t.spec_fill())
            &&& t.bbox.x0 == t.column_edges[0] && t.bbox.x1 == t.column_edges.last()
            &&& t.bbox.y0 == t.row_edges[0] && t.bbox.y1 == t.row_edges.last()
        },
        TableOrigin::ColumnAlignment => {
            &&& t.rows >= 3 && t.cols >= 2
            &&& !S::spec_ratio(5, 1).spec_lt(t.density())
            &&& !t.spec_fill().spec_lt(S::spec_ratio(1, 2))
        },
    }
}

proof fn lemma_ruled_earned<S: Scalar>(
    g: Seq<PlacedGlyph<S>>,
    r: Seq<Rule<S>>,
    labels: Seq<usize>,
    runs: Seq<ResolvedRun<S>>,
    bound: int,
    k: int,
)
    requires
        0 <= k < ruled_tables(g, r, labels, runs, bound).len(),
    ensures
        earned(ruled_tables(g, r, labels, runs, bound)[k]),
        ruled_tables(g, r, labels, runs, bound)[k].origin == TableOrigin::RuledGrid,
    decreases bound,
{
    if bound > 0 {
        let before = ruled_tables(g, r, labels, runs, bound - 1);
        if k < before.len() {
            lemma_ruled_earned(g, r, labels, runs, bound - 1, k);
        }
    }
}

proof fn lemma_aligned_earned<S: Scalar>(
    l: Seq<LineModel<S>>,
    runs: Seq<ResolvedRun<S>>,
    start: int,
    k: int,
)
    requires
        0 <= k < aligned_tables(l, runs, start).len(),
    ensures
        earned(aligned_tables(l, runs, start)[k]),
        aligned_tables(l, runs, start)[k].origin == TableOrigin::ColumnAlignment,
    decreases l.len() - start,
{
    if 0 <= start < l.len() {
        let (common, end) = extended(supports_of(l), edges_of(l[start]), start + 1);
        if end - start >= MIN_ROWS && common.len() >= MIN_COLUMNS && start < end <= l.len()
            && aligned_table(l, start, end, common, runs) is Some {
            if k > 0 {
                lemma_aligned_earned(l, runs, end, k - 1);
            }
        } else {
            lemma_aligned_earned(l, runs, start + 1, k);
        }
    }
}

/// The drawn tables come first. A table found by alignment is made of glyphs
/// that lie in no drawn one, and a drawn one of glyphs that lie in it.
pub proof fn law_drawn_tables_come_first<S: Scalar>(
    blocks: Seq<RegionModel<S>>,
    r: Seq<Rule<S>>,
    runs: Seq<ResolvedRun<S>>,
    k: int,
    m: int,
)
    requires
        0 <= k < tables_of(blocks, r, runs).len(),
        0 <= m < sources_of(blocks, r, runs)[k].len(),
        sources_of(blocks, r, runs).len() == tables_of(blocks, r, runs).len(),
    ensures
        ({
            let all = tables_of(blocks, r, runs);
            let at = sources_of(blocks, r, runs)[k][m].origin;
            let lies_in = |b: Rect<S>|
                b.x0.spec_le(at.x) && at.x.spec_le(b.x1) && b.y0.spec_le(at.y) && at.y.spec_le(
                    b.y1,
                );
            &&& all[k].origin == TableOrigin::RuledGrid ==> lies_in(all[k].bbox)
            &&& all[k].origin == TableOrigin::ColumnAlignment ==> forall|j: int|
                0 <= j < all.len() && all[j].origin == TableOrigin::RuledGrid ==> j < k && !lies_in(
                    (#[trigger] all[j]).bbox,
                )
        }),
{
    let g = page_glyphs(blocks, blocks.len() as int);
    let drawn = drawn_tables(g, r, runs);
    let all = tables_of(blocks, r, runs);
    let own = sources_of(blocks, r, runs);
    let labels = grouping::grouped(r.len(), touching(r));
    let rest = unclaimed(g, drawn, g.len() as int);
    lemma_ruled_on_grids(g, r, labels, runs, r.len() as int);
    let held = if r.len() > MAX_RULES {
        Seq::empty()
    } else {
        ruled_sources(g, r, labels, runs, r.len() as int)
    };
    assert(held.len() == drawn.len());
    if k < drawn.len() {
        assert(all[k] == drawn[k] && own[k] == held[k]);
        lemma_ruled_earned(g, r, labels, runs, r.len() as int, k);
        lemma_ruled_inside(g, r, labels, runs, r.len() as int, k, m);
    } else {
        let l = lines::assembled(rest);
        let j = k - drawn.len();
        assert(all[k] == inferred_tables(rest, runs)[j]);
        lemma_aligned_earned(l, runs, 0, j);
        lemma_aligned_on_grids(rest, runs, 0);
        assert(own[k] == aligned_sources(l, runs, 0)[j]);
        assert(stands_on_a_grid(all[k], own[k], rest, runs));
        assert(rest.contains(own[k][m]));
        lemma_unclaimed_outside(g, drawn, g.len() as int, own[k][m]);
        assert forall|i: int| 0 <= i < all.len() && all[i].origin == TableOrigin::RuledGrid implies i
            < k && !inside((#[trigger] all[i]).bbox, own[k][m].origin.x, own[k][m].origin.y) by {
            if i < drawn.len() {
                assert(all[i] == drawn[i]);
            } else {
                assert(all[i] == inferred_tables(rest, runs)[i - drawn.len()]);
                lemma_aligned_earned(l, runs, 0, i - drawn.len());
            }
        }
    }
}

proof fn lemma_ruled_inside<S: Scalar>(
    g: Seq<PlacedGlyph<S>>,
    r: Seq<Rule<S>>,
    labels: Seq<usize>,
    runs: Seq<ResolvedRun<S>>,
    bound: int,
    k: int,
    m: int,
)
    requires
        0 <= k < ruled_tables(g, r, labels, runs, bound).len(),
        0 <= m < ruled_sources(g, r, labels, runs, bound)[k].len(),
    ensures
        inside(
            ruled_tables(g, r, labels, runs, bound)[k].bbox,
            ruled_sources(g, r, labels, runs, bound)[k][m].origin.x,
            ruled_sources(g, r, labels, runs, bound)[k][m].origin.y,
        ),
    decreases bound,
{
    if bound > 0 {
        let before = ruled_tables(g, r, labels, runs, bound - 1);
        lemma_ruled_on_grids(g, r, labels, runs, bound - 1);
        if k < before.len() {
            lemma_ruled_inside(g, r, labels, runs, bound - 1, k, m);
        } else {
            lemma_inside(g, grid_box(grid_of(r, labels, bound - 1)), g.len() as int, m);
        }
    }
}

proof fn lemma_inside<S: Scalar>(g: Seq<PlacedGlyph<S>>, region: Rect<S>, n: int, m: int)
    requires
        0 <= n <= g.len(),
        0 <= m < glyphs_inside(g, region, n).len(),
    ensures
        inside(
            region,
            glyphs_inside(g, region, n)[m].origin.x,
            glyphs_inside(g, region, n)[m].origin.y,
        ),
    decreases n,
{
    if n > 0 {
        if m < glyphs_inside(g, region, n - 1).len() {
            lemma_inside(g, region, n - 1, m);
        }
    }
}

proof fn lemma_unclaimed_outside<S: Scalar>(
    g: Seq<PlacedGlyph<S>>,
    t: Seq<TableModel<S>>,
    n: int,
    x: PlacedGlyph<S>,
)
    requires
        0 <= n <= g.len(),
        unclaimed(g, t, n).contains(x),
    ensures
        !claimed(t, x),
    decreases n,
{
    let own = unclaimed(g, t, n);
    let q = choose|q: int| 0 <= q < own.len() && own[q] == x;
    if n > 0 {
        let before = unclaimed(g, t, n - 1);
        if q < before.len() {
            assert(before[q] == x);
            lemma_unclaimed_outside(g, t, n - 1, x);
        }
    }
}

/// A line has a column edge exactly where a word with text, other than its
/// first, starts nine tenths of the type size or more after the word before it
/// ends.
pub proof fn law_column_edges_follow_gutters<S: Scalar>(l: LineModel<S>, i: int, x: S)
    ensures
        edges_of(l).contains(x) ==> exists|i: int|
            #[trigger] after_gutter(words::words_of(l.glyphs), gutter_of(l), i) && words::words_of(
                l.glyphs,
            )[i].bbox.x0 == x,
        after_gutter(words::words_of(l.glyphs), gutter_of(l), i) ==> edges_of(l).contains(
            words::words_of(l.glyphs)[i].bbox.x0,
        ),
{
    let w = words::words_of(l.glyphs);
    let gutter = gutter_of(l);
    let edges = edges_among(w, gutter, w.len() as int);
    lemma_edges_among(w, gutter, w.len() as int);
    assert(edges_of(l) == edges);
    if edges.contains(x) {
        let e = choose|e: int| 0 <= e < edges.len() && edges[e] == x;
        let k = choose|k: int|
            after_gutter(w, gutter, k) && k < w.len() && (#[trigger] w[k]).bbox.x0 == edges[e];
        assert(after_gutter(w, gutter, k));
    }
    if after_gutter(w, gutter, i) {
        assert(edges.contains(w[i].bbox.x0));
    }
}

/// The least gap that counts as a gutter: nine tenths of a line's type size, of
/// one point at least.
pub open spec fn gutter_of<S: Scalar>(l: LineModel<S>) -> S {
    l.size.spec_greatest(S::spec_ratio(1, 1)).spec_times(S::spec_ratio(9, 10))
}

/// Whether a word with text starts a gutter or more after the word before.
pub open spec fn after_gutter<S: Scalar>(w: Seq<WordModel<S>>, gutter: S, i: int) -> bool {
    0 < i < w.len() && w[i].text.len() > 0 && gutter.spec_le(
        w[i].bbox.x0.spec_minus(w[i - 1].bbox.x1),
    )
}

proof fn lemma_edges_among<S: Scalar>(w: Seq<WordModel<S>>, gutter: S, n: int)
    requires
        0 <= n <= w.len(),
    ensures
        forall|e: int|
            0 <= e < edges_among(w, gutter, n).len() ==> exists|i: int|
                after_gutter(w, gutter, i) && i < n && (#[trigger] w[i]).bbox.x0
                    == #[trigger] edges_among(w, gutter, n)[e],
        forall|i: int|
            after_gutter(w, gutter, i) && i < n ==> edges_among(w, gutter, n).contains(
                (#[trigger] w[i]).bbox.x0,
            ),
    decreases n,
{
    if n > 1 {
        lemma_edges_among(w, gutter, n - 1);
        let before = edges_among(w, gutter, n - 1);
        let after = edges_among(w, gutter, n);
        assert forall|e: int| 0 <= e < after.len() implies exists|i: int|
            after_gutter(w, gutter, i) && i < n && (#[trigger] w[i]).bbox.x0 == #[trigger] after[e] by {
            if e < before.len() {
                assert(after[e] == before[e]);
                let i = choose|i: int|
                    after_gutter(w, gutter, i) && i < n - 1 && (#[trigger] w[i]).bbox.x0
                        == before[e];
                assert(w[i].bbox.x0 == after[e]);
            } else {
                assert(w[n - 1].bbox.x0 == after[e]);
            }
        }
        assert forall|i: int| after_gutter(w, gutter, i) && i < n implies after.contains(
            (#[trigger] w[i]).bbox.x0,
        ) by {
            if i < n - 1 {
                assert(before.contains(w[i].bbox.x0));
                let q = choose|q: int| 0 <= q < before.len() && before[q] == w[i].bbox.x0;
                assert(after[q] == w[i].bbox.x0);
            } else {
                assert(after[before.len() as int] == w[i].bbox.x0);
            }
        }
    }
}

/// Column edges that go on into the next line are those with an edge there
/// within two points, in their order.
pub proof fn law_shared_edges_have_their_like<S: Scalar>(a: Seq<S>, b: Seq<S>)
    ensures
        shared_edges(a, b) == a.filter(
            |x: S|
                exists|k: int|
                    0 <= k < b.len() && x.spec_minus(#[trigger] b[k]).spec_magnitude().spec_le(
                        S::spec_ratio(2, 1),
                    ),
        ),
{
    let like = |x: S|
        exists|k: int|
            0 <= k < b.len() && x.spec_minus(#[trigger] b[k]).spec_magnitude().spec_le(
                S::spec_ratio(2, 1),
            );
    lemma_common(a, b, a.len() as int, like);
    assert(a.take(a.len() as int) =~= a);
}

proof fn lemma_common<S: Scalar>(a: Seq<S>, b: Seq<S>, n: int, like: spec_fn(S) -> bool)
    requires
        0 <= n <= a.len(),
        forall|x: S| #[trigger] like(x) == shared_by(x, b),
    ensures
        common_edges(a, b, n) == a.take(n).filter(like),
    decreases n,
{
    reveal(Seq::filter);
    if n > 0 {
        lemma_common(a, b, n - 1, like);
        assert(a.take(n).drop_last() =~= a.take(n - 1));
        assert(a.take(n).last() == a[n - 1]);
    } else {
        assert(a.take(0) =~= Seq::empty());
    }
}

/// Rules touch where their boxes overlap once each is let out by three points,
/// and neither the first nor the second of two is preferred.
pub proof fn law_touching_is_mutual<S: Scalar>(a: Rule<S>, b: Rule<S>)
    ensures
        rules_touch(a, b) == rules_touch(b, a),
        rules_touch(a, b) <==> {
            let slack = S::spec_ratio(3, 1);
            &&& a.bbox.x0.spec_minus(slack).spec_le(b.bbox.x1)
            &&& a.bbox.y0.spec_minus(slack).spec_le(b.bbox.y1)
            &&& b.bbox.x0.spec_minus(slack).spec_le(a.bbox.x1)
            &&& b.bbox.y0.spec_minus(slack).spec_le(a.bbox.y1)
        },
{
}

/// The edges of a drawn grid are positions of its rules: columns of upright
/// ones, rows of level ones.
pub proof fn law_a_grid_follows_its_rules<S: Scalar>(
    r: Seq<Rule<S>>,
    labels: Seq<usize>,
    label: int,
    e: int,
)
    requires
        scalar::orderly::<S>(),
        labels.len() == r.len(),
    ensures
        ({
            let grid = grid_of(r, labels, label);
            let two = S::spec_ratio(2, 1);
            &&& 0 <= e < grid.columns.len() ==> exists|k: int|
                0 <= k < r.len() && labels[k] == label && !(#[trigger] r[k]).horizontal
                    && grid.columns[e] == r[k].bbox.x0.spec_plus(r[k].bbox.x1).spec_over(two)
            &&& 0 <= e < grid.rows.len() ==> exists|k: int|
                0 <= k < r.len() && labels[k] == label && (#[trigger] r[k]).horizontal
                    && grid.rows[e] == r[k].bbox.y0.spec_plus(r[k].bbox.y1).spec_over(two)
        }),
{
    let n = r.len() as int;
    let grid = grid_of(r, labels, label);
    let upright = positions(r, labels, label, false, n);
    let level = positions(r, labels, label, true, n);
    law_distinct_edges_stand_apart(upright);
    law_distinct_edges_stand_apart(level);
    if 0 <= e < grid.columns.len() {
        assert(upright.contains(grid.columns[e]));
        let q = choose|q: int| 0 <= q < upright.len() && upright[q] == grid.columns[e];
        lemma_positions(r, labels, label, false, n, q);
    }
    if 0 <= e < grid.rows.len() {
        assert(level.contains(grid.rows[e]));
        let q = choose|q: int| 0 <= q < level.len() && level[q] == grid.rows[e];
        lemma_positions(r, labels, label, true, n, q);
    }
}

proof fn lemma_positions<S: Scalar>(
    r: Seq<Rule<S>>,
    labels: Seq<usize>,
    label: int,
    horizontal: bool,
    n: int,
    q: int,
)
    requires
        0 <= n <= r.len(),
        0 <= q < positions(r, labels, label, horizontal, n).len(),
    ensures
        exists|k: int|
            0 <= k < n && labels[k] == label && (#[trigger] r[k]).horizontal == horizontal
                && positions(r, labels, label, horizontal, n)[q] == r[k].spec_position(),
    decreases n,
{
    if n > 0 {
        let before = positions(r, labels, label, horizontal, n - 1);
        if q < before.len() {
            lemma_positions(r, labels, label, horizontal, n - 1, q);
            let k = choose|k: int|
                0 <= k < n - 1 && labels[k] == label && (#[trigger] r[k]).horizontal == horizontal
                    && before[q] == r[k].spec_position();
            assert(r[k].horizontal == horizontal);
        } else {
            assert(r[n - 1].horizontal == horizontal);
        }
    }
}

/// The cells of a grid adjoin: each begins where the one before it in its row
/// ends, and where the one above it ends.
pub proof fn law_cells_adjoin<S: Scalar>(grid: Grid<S>, row: int, column: int)
    requires
        0 <= row < grid.rows.len() - 1,
        0 <= column < grid.columns.len() - 1,
    ensures
        ({
            let cols = grid.columns.len() - 1;
            let b = grid.cell_box(row * cols + column);
            &&& b.x0 == grid.columns[column] && b.x1 == grid.columns[column + 1]
            &&& b.y0 == grid.rows[row] && b.y1 == grid.rows[row + 1]
            &&& column + 1 < cols ==> grid.cell_box(row * cols + column + 1).x0 == b.x1
            &&& row + 2 < grid.rows.len() ==> grid.cell_box((row + 1) * cols + column).y0 == b.y1
        }),
{
    let cols = grid.columns.len() - 1;
    lemma_cell_place(row, column, cols);
    lemma_cell_place(row + 1, column, cols);
    if column + 1 < cols {
        lemma_cell_place(row, column + 1, cols);
        assert(row * cols + column + 1 == row * cols + (column + 1));
    }
}

proof fn lemma_cell_place(row: int, column: int, cols: int)
    requires
        0 <= row,
        0 <= column < cols,
    ensures
        (row * cols + column) % cols == column,
        (row * cols + column) / cols == row,
{
    vstd::arithmetic::div_mod::lemma_fundamental_div_mod_converse(
        row * cols + column,
        cols,
        row,
        column,
    );
}

/// The density of a table is the number of words in its cells over the number of
/// cells.
pub proof fn law_density_is_words_to_a_cell<S: Scalar>(t: TableModel<S>)
    requires
        t.cells.len() > 0,
    ensures
        t.density() == scalar::count::<S>(
            scalar::held(
                Seq::new(
                    t.cells.len(),
                    |i: int|
                        Seq::new(
                            t.cells[i].lines.len(),
                            |j: int| words::words_of(t.cells[i].lines[j].glyphs),
                        ).flatten(),
                ).flatten().len() as int,
            ),
        ).spec_over(scalar::count::<S>(scalar::held(t.cells.len() as int))),
{
    lemma_words_in_cells(t.cells, t.cells.len() as int);
    let all = Seq::new(
        t.cells.len(),
        |i: int|
            Seq::new(
                t.cells[i].lines.len(),
                |j: int| words::words_of(t.cells[i].lines[j].glyphs),
            ).flatten(),
    );
    assert(all.take(t.cells.len() as int) =~= all);
}

proof fn lemma_words_in<S: Scalar>(l: Seq<LineModel<S>>, n: int)
    requires
        0 <= n <= l.len(),
    ensures
        words_in(l, n) == Seq::new(
            l.len(),
            |j: int| words::words_of(l[j].glyphs),
        ).take(n).flatten().len(),
    decreases n,
{
    let all = Seq::new(l.len(), |j: int| words::words_of(l[j].glyphs));
    if n > 0 {
        lemma_words_in(l, n - 1);
        assert(all.take(n) =~= all.take(n - 1).push(all[n - 1]));
        all.take(n - 1).lemma_flatten_push(all[n - 1]);
    } else {
        assert(all.take(0) =~= Seq::empty());
    }
}

proof fn lemma_words_in_cells<S: Scalar>(cells: Seq<CellModel<S>>, n: int)
    requires
        0 <= n <= cells.len(),
    ensures
        words_in_cells(cells, n) == Seq::new(
            cells.len(),
            |i: int|
                Seq::new(
                    cells[i].lines.len(),
                    |j: int| words::words_of(cells[i].lines[j].glyphs),
                ).flatten(),
        ).take(n).flatten().len(),
    decreases n,
{
    let all = Seq::new(
        cells.len(),
        |i: int|
            Seq::new(
                cells[i].lines.len(),
                |j: int| words::words_of(cells[i].lines[j].glyphs),
            ).flatten(),
    );
    if n > 0 {
        lemma_words_in_cells(cells, n - 1);
        let l = cells[n - 1].lines;
        lemma_words_in(l, l.len() as int);
        let own = Seq::new(l.len(), |j: int| words::words_of(l[j].glyphs));
        assert(own.take(l.len() as int) =~= own);
        assert(all[n - 1] == own.flatten());
        assert(all.take(n) =~= all.take(n - 1).push(all[n - 1]));
        all.take(n - 1).lemma_flatten_push(all[n - 1]);
    } else {
        assert(all.take(0) =~= Seq::empty());
    }
}

/// Rows without rules part half way between a line and the next.
pub proof fn law_rows_part_between_lines<S: Scalar>(
    l: Seq<LineModel<S>>,
    from: int,
    to: int,
    k: int,
)
    requires
        0 <= from < to <= l.len(),
        0 <= k < to - from - 1,
    ensures
        row_middles(l, from, to).len() == to - from - 1,
        row_middles(l, from, to)[k] == l[from + k].bbox.y1.spec_plus(
            l[from + k + 1].bbox.y0,
        ).spec_over(S::spec_ratio(2, 1)),
    decreases to - from,
{
    lemma_row_middles(l, from, to);
    if k < to - from - 2 {
        law_rows_part_between_lines(l, from, to - 1, k);
    } else {
        lemma_row_middles(l, from, to - 1);
    }
}

proof fn lemma_row_middles<S: Scalar>(l: Seq<LineModel<S>>, from: int, to: int)
    requires
        0 <= from < to <= l.len(),
    ensures
        row_middles(l, from, to).len() == to - from - 1,
    decreases to - from,
{
    if to - from >= 2 {
        lemma_row_middles(l, from, to - 1);
    }
}

} // verus!
