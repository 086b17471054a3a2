//! Terminal rendering: styles, aligned tables, and error reports.
//!
//! Colour is emitted unconditionally into the returned strings and stripped at
//! write time when the output is not a terminal, so callers never have to branch on
//! whether colour is wanted.

use unicode_width::UnicodeWidthStr;
use vstd::prelude::*;
use crate::order;
use crate::text;

pub mod diff;
pub mod listing;
pub mod tree;
pub mod value;

verus! {

// ---------------------------------------------------------------------------
// Styles
// ---------------------------------------------------------------------------

/// A colour of the terminal.
#[derive(Debug, Clone, Copy, PartialEq, Eq, Structural)]
pub enum Color {
    /// Red.
    Red,
    /// Green.
    Green,
    /// Yellow.
    Yellow,
}

/// How a piece of text looks.
#[derive(Debug, Clone, Copy)]
pub struct Style {
    /// Whether it is bold.
    pub bold: bool,
    /// Whether it is de-emphasised.
    pub dimmed: bool,
    /// Its colour, where it has one of its own.
    pub color: Option<Color>,
}

/// The escape sequence that sets a colour.
pub open spec fn color_code(color: Option<Color>) -> Seq<char> {
    match color {
        None => ""@,
        Some(Color::Red) => "\u{1b}[31m"@,
        Some(Color::Green) => "\u{1b}[32m"@,
        Some(Color::Yellow) => "\u{1b}[33m"@,
    }
}

/// The escape sequences that a style starts with.
pub open spec fn opening(style: Style) -> Seq<char> {
    (if style.bold { "\u{1b}[1m"@ } else { ""@ }) + (if style.dimmed {
        "\u{1b}[2m"@
    } else {
        ""@
    }) + color_code(style.color)
}

/// The escape sequence that a style ends with, unless it is no style at all.
pub open spec fn closing(style: Style) -> Seq<char> {
    if style.bold || style.dimmed || style.color is Some {
        "\u{1b}[0m"@
    } else {
        ""@
    }
}

/// A piece of text in a style.
pub open spec fn styled(style: Style, s: Seq<char>) -> Seq<char> {
    opening(style) + s + closing(style)
}

/// `anstyle::Style` renders its effects, in order, and then its colour, each as an
/// escape sequence of its own.
#[verifier::external_body]
fn opening_of(style: Style) -> (codes: String)
    ensures
        codes@ == opening(style),
{
    let effects = anstyle::Effects::new()
        .set(anstyle::Effects::BOLD, style.bold)
        .set(anstyle::Effects::DIMMED, style.dimmed);
    let color = style.color.map(|color| match color {
        Color::Red => anstyle::AnsiColor::Red,
        Color::Green => anstyle::AnsiColor::Green,
        Color::Yellow => anstyle::AnsiColor::Yellow,
    });
    let style = anstyle::Style::new().effects(effects).fg_color(color.map(anstyle::Color::Ansi));
    style.render().to_string()
}

/// `anstyle::Style` renders its reset as one escape sequence, and as nothing for no
/// style at all.
#[verifier::external_body]
fn closing_of(style: Style) -> (code: String)
    ensures
        code@ == closing(style),
{
    let effects = anstyle::Effects::new()
        .set(anstyle::Effects::BOLD, style.bold)
        .set(anstyle::Effects::DIMMED, style.dimmed);
    let color = style.color.map(|color| match color {
        Color::Red => anstyle::AnsiColor::Red,
        Color::Green => anstyle::AnsiColor::Green,
        Color::Yellow => anstyle::AnsiColor::Yellow,
    });
    let style = anstyle::Style::new().effects(effects).fg_color(color.map(anstyle::Color::Ansi));
    style.render_reset().to_string()
}

/// Appends a piece of text in a style.
pub fn push_styled(out: &mut String, style: Style, s: &str)
    ensures
        final(out)@ == old(out)@ + styled(style, s@),
{
    let ghost start = out@;
    out.push_str(opening_of(style).as_str());
    out.push_str(s);
    out.push_str(closing_of(style).as_str());
    assert(out@ =~= start + styled(style, s@));
}

/// Style for table headers.
pub open spec fn header_style() -> Style {
    Style { bold: true, dimmed: false, color: None }
}

/// Style for de-emphasised text such as identifiers, paths and detail.
pub open spec fn dim_style() -> Style {
    Style { bold: false, dimmed: true, color: None }
}

/// Style for the `error:` prefix.
pub open spec fn error_style() -> Style {
    Style { bold: true, dimmed: false, color: Some(Color::Red) }
}

// ---------------------------------------------------------------------------
// Tables
// ---------------------------------------------------------------------------

/// A column in a rendered table.
pub struct Column<'a> {
    /// Header text.
    pub header: &'a str,
    /// Whether the column's cells should be de-emphasised.
    pub dim: bool,
}

impl<'a> Column<'a> {
    /// A normally-styled column.
    pub fn new(header: &'a str) -> (column: Self)
        ensures
            column.header@ == header@,
            !column.dim,
    {
        Column { header, dim: false }
    }

    /// A de-emphasised column, for identifiers and paths.
    pub fn dim(header: &'a str) -> (column: Self)
        ensures
            column.header@ == header@,
            column.dim,
    {
        Column { header, dim: true }
    }
}

/// What a column is.
pub struct ColumnModel {
    /// Header text.
    pub header: Seq<char>,
    /// Whether the column's cells are de-emphasised.
    pub dim: bool,
}

impl<'a> View for Column<'a> {
    type V = ColumnModel;

    open spec fn view(&self) -> ColumnModel {
        ColumnModel { header: self.header@, dim: self.dim }
    }
}

/// The views of rows of cells.
pub open spec fn row_views(rows: Seq<Vec<String>>) -> Seq<Seq<Seq<char>>> {
    rows.map_values(|row: Vec<String>| text::texts(row@))
}

/// How many terminal columns a text occupies.
pub uninterp spec fn columns_of(s: Seq<char>) -> usize;

/// `UnicodeWidthStr::width` tells how many terminal columns a text occupies.
#[verifier::external_body]
fn display_width(s: &str) -> (width: usize)
    ensures
        width == columns_of(s@),
{
    UnicodeWidthStr::width(s)
}

/// The widths of the headers and the cells of a table.
pub struct Measured {
    /// Widths of the headers.
    pub headers: Vec<usize>,
    /// Widths of the cells, row by row.
    pub cells: Vec<Vec<usize>>,
}

/// The widths of the cells, row by row.
pub open spec fn cell_views(cells: Seq<Vec<usize>>) -> Seq<Seq<usize>> {
    cells.map_values(|row: Vec<usize>| row@)
}

/// Widths of a row of texts.
pub open spec fn row_widths(row: Seq<Seq<char>>) -> Seq<usize> {
    row.map_values(|cell: Seq<char>| columns_of(cell))
}

/// Widths of the headers.
pub open spec fn header_widths(columns: Seq<ColumnModel>) -> Seq<usize> {
    columns.map_values(|column: ColumnModel| columns_of(column.header))
}

/// Widths of all cells.
pub open spec fn all_widths(rows: Seq<Seq<Seq<char>>>) -> Seq<Seq<usize>> {
    rows.map_values(|row: Seq<Seq<char>>| row_widths(row))
}

/// The larger of two widths.
pub open spec fn wider(a: usize, b: usize) -> usize {
    if a < b {
        b
    } else {
        a
    }
}

/// The width of a column: that of its header or of its widest cell.
pub open spec fn widest(header: usize, cells: Seq<Seq<usize>>, index: int) -> usize
    decreases cells.len(),
{
    if cells.len() == 0 {
        header
    } else {
        let earlier = widest(header, cells.drop_last(), index);
        if index < cells.last().len() {
            wider(earlier, cells.last()[index])
        } else {
            earlier
        }
    }
}

/// Some spaces; none for a negative number.
pub open spec fn spaces(count: int) -> Seq<char> {
    Seq::new(if count < 0 { 0 } else { count as nat }, |i: int| ' ')
}

/// What stands between a cell and the next: it is filled up to the width of the
/// column, and two spaces follow. Behind the last column there is nothing, which
/// keeps trailing whitespace out of copy-paste.
pub open spec fn gap(count: nat, index: int, own: usize, width: usize) -> Seq<char> {
    if index != (if count == 0 { 0 } else { count - 1 }) {
        spaces(width - own) + "  "@
    } else {
        seq![]
    }
}

/// The width of the column at `index`; none where there is no such column.
pub open spec fn width_at(headers: Seq<usize>, cells: Seq<Seq<usize>>, index: int) -> usize {
    if index < headers.len() {
        widest(headers[index], cells, index)
    } else {
        0
    }
}

/// The first headers of a table.
pub open spec fn header_line(
    columns: Seq<ColumnModel>,
    headers: Seq<usize>,
    cells: Seq<Seq<usize>>,
    count: nat,
) -> Seq<char>
    decreases count,
{
    if count == 0 {
        seq![]
    } else {
        let index = count - 1;
        header_line(columns, headers, cells, index as nat) + styled(
            header_style(),
            columns[index].header,
        ) + gap(columns.len(), index, headers[index], width_at(headers, cells, index))
    }
}

/// A cell as it is shown.
pub open spec fn cell_text(columns: Seq<ColumnModel>, cell: Seq<char>, index: int) -> Seq<char> {
    if index < columns.len() && columns[index].dim {
        styled(dim_style(), cell)
    } else {
        cell
    }
}

/// The first cells of a row.
pub open spec fn row_line(
    columns: Seq<ColumnModel>,
    headers: Seq<usize>,
    cells: Seq<Seq<usize>>,
    row: Seq<Seq<char>>,
    own: Seq<usize>,
    count: nat,
) -> Seq<char>
    decreases count,
{
    if count == 0 {
        seq![]
    } else {
        let index = count - 1;
        row_line(columns, headers, cells, row, own, index as nat) + cell_text(
            columns,
            row[index],
            index,
        ) + gap(columns.len(), index, own[index], width_at(headers, cells, index))
    }
}

/// The first rows of a table.
pub open spec fn row_lines(
    columns: Seq<ColumnModel>,
    rows: Seq<Seq<Seq<char>>>,
    headers: Seq<usize>,
    cells: Seq<Seq<usize>>,
    count: nat,
) -> Seq<char>
    decreases count,
{
    if count == 0 {
        seq![]
    } else {
        let index = count - 1;
        row_lines(columns, rows, headers, cells, index as nat) + row_line(
            columns,
            headers,
            cells,
            rows[index],
            cells[index],
            rows[index].len(),
        ) + "\n"@
    }
}

/// A table of cells of given widths.
pub open spec fn laid_out(
    columns: Seq<ColumnModel>,
    rows: Seq<Seq<Seq<char>>>,
    headers: Seq<usize>,
    cells: Seq<Seq<usize>>,
) -> Seq<char> {
    header_line(columns, headers, cells, columns.len()) + "\n"@ + row_lines(
        columns,
        rows,
        headers,
        cells,
        rows.len(),
    )
}

/// A table.
pub open spec fn table_text(columns: Seq<ColumnModel>, rows: Seq<Seq<Seq<char>>>) -> Seq<char> {
    laid_out(columns, rows, header_widths(columns), all_widths(rows))
}

/// Whether there is one width for every header and every cell.
pub open spec fn fits(
    columns: Seq<ColumnModel>,
    rows: Seq<Seq<Seq<char>>>,
    headers: Seq<usize>,
    cells: Seq<Seq<usize>>,
) -> bool {
    &&& headers.len() == columns.len()
    &&& cells.len() == rows.len()
    &&& forall|i: int| 0 <= i < rows.len() ==> (#[trigger] cells[i]).len() == rows[i].len()
}

/// Appends the spaces that fill a cell of a given width up to the width of its
/// column.
fn pad(out: &mut String, own: usize, width: usize)
    ensures
        final(out)@ == old(out)@ + spaces(width - own),
{
    let ghost start = out@;
    let mut filled: usize = own;
    assert(start + spaces(0) =~= start);
    while filled < width
        invariant
            own <= filled,
            filled <= width || filled == own,
            out@ == start + spaces(filled - own),
        decreases width - filled,
    {
        out.push(' ');
        filled += 1;
        assert(out@ =~= start + spaces(filled - own));
    }
    assert(spaces(filled - own) =~= spaces(width - own));
}

/// Appends what stands between a cell and the next.
fn push_gap(out: &mut String, count: usize, index: usize, own: usize, width: usize)
    ensures
        final(out)@ == old(out)@ + gap(count as nat, index as int, own, width),
{
    let ghost start = out@;
    let last: usize = if count == 0 {
        0
    } else {
        count - 1
    };
    if index != last {
        pad(out, own, width);
        out.push_str("  ");
    }
    assert(out@ =~= start + gap(count as nat, index as int, own, width));
}

/// The widths of the columns.
fn widths_of(measured: &Measured) -> (widths: Vec<usize>)
    ensures
        widths@.len() == measured.headers@.len(),
        forall|i: int|
            0 <= i < widths@.len() ==> (#[trigger] widths@[i]) == widest(
                measured.headers@[i],
                cell_views(measured.cells@),
                i,
            ),
{
    let ghost cells = cell_views(measured.cells@);
    let ghost headers = measured.headers@;
    let mut widths: Vec<usize> = Vec::new();
    let mut i: usize = 0;
    while i < measured.headers.len()
        invariant
            i <= measured.headers@.len(),
            widths@ == measured.headers@.take(i as int),
        decreases measured.headers@.len() - i,
    {
        widths.push(measured.headers[i]);
        i += 1;
    }
    assert(widths@ =~= headers);
    let mut r: usize = 0;
    assert forall|k: int| 0 <= k < widths@.len() implies (#[trigger] widths@[k]) == widest(
        headers[k],
        cells.take(0),
        k,
    ) by {}
    while r < measured.cells.len()
        invariant
            r <= measured.cells@.len(),
            cells == cell_views(measured.cells@),
            headers == measured.headers@,
            widths@.len() == headers.len(),
            forall|k: int|
                0 <= k < widths@.len() ==> (#[trigger] widths@[k]) == widest(
                    headers[k],
                    cells.take(r as int),
                    k,
                ),
        decreases measured.cells@.len() - r,
    {
        let ghost before = widths@;
        let row = &measured.cells[r];
        assert(cells.take(r + 1).drop_last() =~= cells.take(r as int));
        assert(cells.take(r + 1).last() == row@);
        let mut c: usize = 0;
        while c < row.len()
            invariant
                c <= row@.len(),
                widths@.len() == before.len(),
                forall|k: int|
                    0 <= k < before.len() ==> (#[trigger] widths@[k]) == if k < c && k < row@.len() {
                        wider(before[k], row@[k])
                    } else {
                        before[k]
                    },
            decreases row@.len() - c,
        {
            if c < widths.len() && widths[c] < row[c] {
                widths[c] = row[c];
            }
            c += 1;
        }
        assert forall|k: int| 0 <= k < widths@.len() implies (#[trigger] widths@[k]) == widest(
            headers[k],
            cells.take(r + 1),
            k,
        ) by {
            assert(before[k] == widest(headers[k], cells.take(r as int), k));
        }
        r += 1;
    }
    assert(cells.take(r as int) =~= cells);
    widths
}

/// Lays out a table of cells of given widths.
pub fn lay_out(columns: &[Column<'_>], rows: &[Vec<String>], measured: &Measured) -> (table: String)
    requires
        fits(
            order::views(columns@),
            row_views(rows@),
            measured.headers@,
            cell_views(measured.cells@),
        ),
    ensures
        table@ == laid_out(
            order::views(columns@),
            row_views(rows@),
            measured.headers@,
            cell_views(measured.cells@),
        ),
{
    let ghost models = order::views(columns@);
    let ghost texts = row_views(rows@);
    let ghost headers = measured.headers@;
    let ghost cells = cell_views(measured.cells@);
    let widths = widths_of(measured);
    let mut out = String::new();
    let mut i: usize = 0;
    assert(out@ =~= header_line(models, headers, cells, 0));
    while i < columns.len()
        invariant
            i <= columns@.len(),
            models == order::views(columns@),
            headers == measured.headers@,
            headers.len() == models.len(),
            widths@.len() == headers.len(),
            forall|k: int|
                0 <= k < widths@.len() ==> (#[trigger] widths@[k]) == widest(headers[k], cells, k),
            out@ == header_line(models, headers, cells, i as nat),
        decreases columns@.len() - i,
    {
        let ghost before = out@;
        assert(models[i as int] == columns@[i as int]@);
        push_styled(
            &mut out,
            Style { bold: true, dimmed: false, color: None },
            columns[i].header,
        );
        push_gap(&mut out, columns.len(), i, measured.headers[i], widths[i]);
        assert(out@ =~= header_line(models, headers, cells, (i + 1) as nat));
        i += 1;
    }
    out.push_str("\n");
    let ghost top = out@;
    let mut r: usize = 0;
    assert(out@ =~= top + row_lines(models, texts, headers, cells, 0));
    while r < rows.len()
        invariant
            r <= rows@.len(),
            models == order::views(columns@),
            texts == row_views(rows@),
            headers == measured.headers@,
            cells == cell_views(measured.cells@),
            fits(models, texts, headers, cells),
            widths@.len() == headers.len(),
            forall|k: int|
                0 <= k < widths@.len() ==> (#[trigger] widths@[k]) == widest(headers[k], cells, k),
            out@ == top + row_lines(models, texts, headers, cells, r as nat),
        decreases rows@.len() - r,
    {
        let row = &rows[r];
        let own = &measured.cells[r];
        let ghost start = out@;
        let ghost line = texts[r as int];
        assert(cells[r as int] == own@);
        assert(line == text::texts(row@));
        let mut c: usize = 0;
        assert(out@ =~= start + row_line(models, headers, cells, line, own@, 0));
        while c < row.len()
            invariant
                c <= row@.len(),
                models == order::views(columns@),
                own@.len() == row@.len(),
                line == text::texts(row@),
                headers.len() == models.len(),
                widths@.len() == headers.len(),
                forall|k: int|
                    0 <= k < widths@.len() ==> (#[trigger] widths@[k]) == widest(
                        headers[k],
                        cells,
                        k,
                    ),
                out@ == start + row_line(models, headers, cells, line, own@, c as nat),
            decreases row@.len() - c,
        {
            let cell: &str = row[c].as_str();
            assert(line[c as int] == cell@);
            let dim = c < columns.len() && columns[c].dim;
            if c < columns.len() {
                assert(models[c as int] == columns@[c as int]@);
            }
            if dim {
                push_styled(&mut out, Style { bold: false, dimmed: true, color: None }, cell);
            } else {
                out.push_str(cell);
            }
            let width: usize = if c < widths.len() {
                widths[c]
            } else {
                0
            };
            push_gap(&mut out, columns.len(), c, own[c], width);
            assert(out@ =~= start + row_line(models, headers, cells, line, own@, (c + 1) as nat));
            c += 1;
        }
        out.push_str("\n");
        assert(out@ =~= top + row_lines(models, texts, headers, cells, (r + 1) as nat));
        r += 1;
    }
    out
}

/// Measures the headers and the cells of a table.
fn measure(columns: &[Column<'_>], rows: &[Vec<String>]) -> (measured: Measured)
    ensures
        measured.headers@ == header_widths(order::views(columns@)),
        cell_views(measured.cells@) == all_widths(row_views(rows@)),
{
    let ghost models = order::views(columns@);
    let ghost texts = row_views(rows@);
    let mut headers: Vec<usize> = Vec::new();
    let mut i: usize = 0;
    while i < columns.len()
        invariant
            i <= columns@.len(),
            models == order::views(columns@),
            headers@ == header_widths(models).take(i as int),
        decreases columns@.len() - i,
    {
        assert(models[i as int] == columns@[i as int]@);
        headers.push(display_width(columns[i].header));
        assert(headers@ =~= header_widths(models).take(i + 1));
        i += 1;
    }
    assert(headers@ =~= header_widths(models));
    let mut cells: Vec<Vec<usize>> = Vec::new();
    let mut r: usize = 0;
    assert(cell_views(cells@) =~= all_widths(texts).take(0));
    while r < rows.len()
        invariant
            r <= rows@.len(),
            texts == row_views(rows@),
            cell_views(cells@) == all_widths(texts).take(r as int),
        decreases rows@.len() - r,
    {
        let ghost before = cell_views(cells@);
        let row = &rows[r];
        let ghost line = texts[r as int];
        assert(line == text::texts(row@));
        let mut own: Vec<usize> = Vec::new();
        let mut c: usize = 0;
        while c < row.len()
            invariant
                c <= row@.len(),
                line == text::texts(row@),
                own@ == row_widths(line).take(c as int),
            decreases row@.len() - c,
        {
            assert(line[c as int] == row@[c as int]@);
            own.push(display_width(row[c].as_str()));
            assert(own@ =~= row_widths(line).take(c + 1));
            c += 1;
        }
        assert(own@ =~= row_widths(line));
        cells.push(own);
        assert(cell_views(cells@) =~= before.push(own@));
        assert(cell_views(cells@) =~= all_widths(texts).take(r + 1));
        r += 1;
    }
    assert(cell_views(cells@) =~= all_widths(texts));
    Measured { headers, cells }
}

/// Renders rows as a left-aligned table with a styled header.
///
/// Widths are measured in terminal columns rather than bytes or `char`s: a CJK
/// glyph is a single `char` but occupies two columns, so counting `char`s would
/// visibly misalign the table for non-ASCII paths and device names.
///
/// The final column is not padded, keeping trailing whitespace out of copy-paste.
pub fn table(columns: &[Column<'_>], rows: &[Vec<String>]) -> (table: String)
    ensures
        table@ == table_text(order::views(columns@), row_views(rows@)),
{
    let measured = measure(columns, rows);
    lay_out(columns, rows, &measured)
}

/// A cell is never wider than its column.
proof fn cell_within_column(header: usize, cells: Seq<Seq<usize>>, row: int, index: int)
    requires
        0 <= row < cells.len(),
        0 <= index < cells[row].len(),
    ensures
        cells[row][index] <= widest(header, cells, index),
    decreases cells.len(),
{
    if row < cells.len() - 1 {
        assert(cells.drop_last()[row] == cells[row]);
        cell_within_column(header, cells.drop_last(), row, index);
    }
}

/// Cells line up: every cell takes, with what fills it up, exactly the width of its
/// column.
pub proof fn cells_fill_their_column(header: usize, cells: Seq<Seq<usize>>, row: int, index: int)
    requires
        0 <= row < cells.len(),
        0 <= index < cells[row].len(),
    ensures
        cells[row][index] + spaces(widest(header, cells, index) - cells[row][index]).len()
            == widest(header, cells, index),
{
    cell_within_column(header, cells, row, index);
}

// ---------------------------------------------------------------------------
// Errors
// ---------------------------------------------------------------------------

/// The causes of an error, each on a line of its own.
pub open spec fn cause_lines(causes: Seq<Seq<char>>) -> Seq<char>
    decreases causes.len(),
{
    if causes.len() == 0 {
        seq![]
    } else {
        cause_lines(causes.drop_last()) + "  caused by: "@ + causes.last() + "\n"@
    }
}

/// An error with its causes, as reported to the user.
pub open spec fn report(message: Seq<char>, causes: Seq<Seq<char>>) -> Seq<char> {
    styled(error_style(), "error:"@) + " "@ + message + "\n"@ + cause_lines(causes)
}

/// An error and its full cause chain, as reported to the user.
pub fn error_report(message: &str, causes: &Vec<String>) -> (lines: String)
    ensures
        lines@ == report(message@, text::texts(causes@)),
{
    let ghost all = text::texts(causes@);
    let mut out = String::new();
    push_styled(
        &mut out,
        Style { bold: true, dimmed: false, color: Some(Color::Red) },
        "error:",
    );
    out.push_str(" ");
    out.push_str(message);
    out.push_str("\n");
    let ghost top = out@;
    assert(top =~= styled(error_style(), "error:"@) + " "@ + message@ + "\n"@);
    let mut i: usize = 0;
    assert(out@ =~= top + cause_lines(all.take(0)));
    while i < causes.len()
        invariant
            i <= causes@.len(),
            all == text::texts(causes@),
            out@ == top + cause_lines(all.take(i as int)),
        decreases causes@.len() - i,
    {
        assert(all.take(i + 1).drop_last() =~= all.take(i as int));
        out.push_str("  caused by: ");
        out.push_str(causes[i].as_str());
        out.push_str("\n");
        assert(out@ =~= top + cause_lines(all.take(i + 1)));
        i += 1;
    }
    assert(all.take(i as int) =~= all);
    out
}

// ---------------------------------------------------------------------------
// Laws
// ---------------------------------------------------------------------------

/// Styled text is the text between escape sequences: headers in bold, detail dimmed, the
/// word `error:` in bold red. Text without a style is the text alone.
pub proof fn styles_surround_the_text(s: Seq<char>)
    ensures
        styled(header_style(), s) == "\u{1b}[1m"@ + s + "\u{1b}[0m"@,
        styled(dim_style(), s) == "\u{1b}[2m"@ + s + "\u{1b}[0m"@,
        styled(error_style(), s) == "\u{1b}[1m"@ + "\u{1b}[31m"@ + s + "\u{1b}[0m"@,
        styled(Style { bold: false, dimmed: false, color: None }, s) == s,
{
    reveal_strlit("");
    assert(styled(header_style(), s) =~= "\u{1b}[1m"@ + s + "\u{1b}[0m"@);
    assert(styled(dim_style(), s) =~= "\u{1b}[2m"@ + s + "\u{1b}[0m"@);
    assert(styled(error_style(), s) =~= "\u{1b}[1m"@ + "\u{1b}[31m"@ + s + "\u{1b}[0m"@);
    assert(styled(Style { bold: false, dimmed: false, color: None }, s) =~= s);
}

/// A column is as wide as its header and every cell of it need, and no wider.
pub proof fn a_column_is_as_wide_as_it_must_be(header: usize, cells: Seq<Seq<usize>>, index: int)
    requires
        0 <= index,
    ensures
        header <= widest(header, cells, index),
        forall|row: int|
            0 <= row < cells.len() && index < (#[trigger] cells[row]).len() ==> cells[row][index]
                <= widest(header, cells, index),
        widest(header, cells, index) == header || exists|row: int|
            0 <= row < cells.len() && index < (#[trigger] cells[row]).len() && cells[row][index]
                == widest(header, cells, index),
    decreases cells.len(),
{
    if cells.len() > 0 {
        let front = cells.drop_last();
        a_column_is_as_wide_as_it_must_be(header, front, index);
        assert forall|row: int|
            0 <= row < cells.len() && index < (
            #[trigger] cells[row]).len() implies cells[row][index] <= widest(
            header,
            cells,
            index,
        ) by {
            if row < front.len() {
                assert(front[row] == cells[row]);
            }
        }
        let earlier = widest(header, front, index);
        if widest(header, cells, index) != earlier {
            assert(cells[cells.len() - 1][index] == widest(header, cells, index));
        } else if earlier != header {
            let row = choose|row: int|
                0 <= row < front.len() && index < (#[trigger] front[row]).len() && front[row][index]
                    == earlier;
            assert(cells[row][index] == widest(header, cells, index));
        }
    }
}

/// Where a column starts: behind the columns before it, each with its width and two
/// spaces.
pub open spec fn column_start(headers: Seq<usize>, cells: Seq<Seq<usize>>, index: nat) -> nat
    decreases index,
{
    if index == 0 {
        0
    } else {
        column_start(headers, cells, (index - 1) as nat) + width_at(
            headers,
            cells,
            index - 1,
        ) as nat + 2
    }
}

/// What stands before the cell at `index` is part of the row, and so is that cell.
proof fn row_starts_with_its_cells(
    columns: Seq<ColumnModel>,
    headers: Seq<usize>,
    cells: Seq<Seq<usize>>,
    row: Seq<Seq<char>>,
    own: Seq<usize>,
    index: nat,
    count: nat,
)
    requires
        index < count,
    ensures
        ({
            let before = row_line(columns, headers, cells, row, own, index);
            let cell = cell_text(columns, row[index as int], index as int);
            let line = row_line(columns, headers, cells, row, own, count);
            &&& before.len() + cell.len() <= line.len()
            &&& line.subrange(before.len() as int, (before.len() + cell.len()) as int) == cell
        }),
    decreases count,
{
    let before = row_line(columns, headers, cells, row, own, index);
    let cell = cell_text(columns, row[index as int], index as int);
    let line = row_line(columns, headers, cells, row, own, count);
    let from = before.len() as int;
    let to = (before.len() + cell.len()) as int;
    if index == count - 1 {
        assert(line.subrange(from, to) =~= cell);
    } else {
        let shorter = row_line(columns, headers, cells, row, own, (count - 1) as nat);
        row_starts_with_its_cells(columns, headers, cells, row, own, index, (count - 1) as nat);
        assert(line.subrange(from, to) =~= shorter.subrange(from, to));
    }
}

/// Cells line up: in a row of cells that are shown as they are, each as wide as it is
/// long, the cell of a column is where the column starts, in every row, and behind the
/// last one there is nothing.
pub proof fn cells_start_where_their_column_starts(
    columns: Seq<ColumnModel>,
    headers: Seq<usize>,
    cells: Seq<Seq<usize>>,
    row: int,
    texts: Seq<Seq<char>>,
    index: int,
)
    requires
        headers.len() == columns.len(),
        0 <= row < cells.len(),
        cells[row].len() == columns.len(),
        texts.len() == columns.len(),
        forall|i: int| 0 <= i < columns.len() ==> !(#[trigger] columns[i]).dim,
        forall|i: int| 0 <= i < texts.len() ==> (#[trigger] texts[i]).len() == cells[row][i],
        0 <= index < columns.len(),
    ensures
        ({
            let line = row_line(columns, headers, cells, texts, cells[row], columns.len());
            let start = column_start(headers, cells, index as nat) as int;
            &&& start + texts[index].len() <= line.len()
            &&& line.subrange(start, (start + texts[index].len()) as int) == texts[index]
            &&& index == columns.len() - 1 ==> line.len() == start + texts[index].len()
        }),
{
    cells_before_a_column(columns, headers, cells, row, texts, index);
    row_starts_with_its_cells(
        columns,
        headers,
        cells,
        texts,
        cells[row],
        index as nat,
        columns.len(),
    );
    assert(!columns[index].dim);
}

/// Cells that are shown as they are take up the columns before them.
proof fn cells_before_a_column(
    columns: Seq<ColumnModel>,
    headers: Seq<usize>,
    cells: Seq<Seq<usize>>,
    row: int,
    texts: Seq<Seq<char>>,
    index: int,
)
    requires
        headers.len() == columns.len(),
        0 <= row < cells.len(),
        cells[row].len() == columns.len(),
        texts.len() == columns.len(),
        forall|i: int| 0 <= i < columns.len() ==> !(#[trigger] columns[i]).dim,
        forall|i: int| 0 <= i < texts.len() ==> (#[trigger] texts[i]).len() == cells[row][i],
        0 <= index < columns.len(),
    ensures
        row_line(columns, headers, cells, texts, cells[row], index as nat).len() == column_start(
            headers,
            cells,
            index as nat,
        ),
    decreases index,
{
    if index > 0 {
        let last = index - 1;
        reveal_strlit("  ");
        cells_before_a_column(columns, headers, cells, row, texts, last);
        assert(!columns[last].dim);
        assert(texts[last].len() == cells[row][last]);
        cells_fill_their_column(headers[last], cells, row, last);
    }
}

/// Whether a text holds no line break.
pub open spec fn unbroken(s: Seq<char>) -> bool {
    forall|i: int| 0 <= i < s.len() ==> #[trigger] s[i] != '\n' && s[i] != '\r'
}

/// Two texts without a line break hold none together.
proof fn unbroken_together(a: Seq<char>, b: Seq<char>)
    requires
        unbroken(a),
        unbroken(b),
    ensures
        unbroken(a + b),
{
    assert forall|i: int| 0 <= i < (a + b).len() implies #[trigger] (a + b)[i] != '\n' && (a + b)[i]
        != '\r' by {
        if i < a.len() {
            assert((a + b)[i] == a[i]);
        } else {
            assert((a + b)[i] == b[i - a.len()]);
        }
    }
}

/// A style adds no line break, and neither does what stands between cells.
proof fn unbroken_parts(s: Seq<char>, count: nat, index: int, own: usize, width: usize)
    requires
        unbroken(s),
    ensures
        unbroken(styled(header_style(), s)),
        unbroken(styled(dim_style(), s)),
        unbroken(gap(count, index, own, width)),
{
    reveal_strlit("\u{1b}[1m");
    reveal_strlit("\u{1b}[2m");
    reveal_strlit("\u{1b}[0m");
    reveal_strlit("  ");
    styles_surround_the_text(s);
    unbroken_together("\u{1b}[1m"@, s);
    unbroken_together("\u{1b}[1m"@ + s, "\u{1b}[0m"@);
    unbroken_together("\u{1b}[2m"@, s);
    unbroken_together("\u{1b}[2m"@ + s, "\u{1b}[0m"@);
    unbroken_together(spaces(width - own), "  "@);
}

/// Headers without line breaks stand on one line.
proof fn unbroken_header(
    columns: Seq<ColumnModel>,
    headers: Seq<usize>,
    cells: Seq<Seq<usize>>,
    count: nat,
)
    requires
        count <= columns.len(),
        forall|i: int| 0 <= i < columns.len() ==> unbroken((#[trigger] columns[i]).header),
    ensures
        unbroken(header_line(columns, headers, cells, count)),
    decreases count,
{
    if count > 0 {
        let index = count - 1;
        let before = header_line(columns, headers, cells, index as nat);
        let own = styled(header_style(), columns[index].header);
        let width = width_at(headers, cells, index);
        unbroken_header(columns, headers, cells, index as nat);
        unbroken_parts(columns[index].header, columns.len(), index, headers[index], width);
        unbroken_together(before, own);
        unbroken_together(before + own, gap(columns.len(), index, headers[index], width));
    }
}

/// Cells without line breaks stand on one line.
proof fn unbroken_row(
    columns: Seq<ColumnModel>,
    headers: Seq<usize>,
    cells: Seq<Seq<usize>>,
    row: Seq<Seq<char>>,
    own: Seq<usize>,
    count: nat,
)
    requires
        count <= row.len(),
        forall|i: int| 0 <= i < row.len() ==> unbroken(#[trigger] row[i]),
    ensures
        unbroken(row_line(columns, headers, cells, row, own, count)),
    decreases count,
{
    if count > 0 {
        let index = count - 1;
        let before = row_line(columns, headers, cells, row, own, index as nat);
        let cell = cell_text(columns, row[index], index);
        let width = width_at(headers, cells, index);
        unbroken_row(columns, headers, cells, row, own, index as nat);
        unbroken_parts(row[index], columns.len(), index, own[index], width);
        unbroken_together(before, cell);
        unbroken_together(before + cell, gap(columns.len(), index, own[index], width));
    }
}

/// A line without line breaks, and a line feed, are a line before what follows.
proof fn a_line_of_its_own(line: Seq<char>, rest: Seq<char>)
    requires
        unbroken(line),
    ensures
        text::lines(line + "\n"@ + rest) == seq![line] + text::lines(rest),
{
    reveal_strlit("\n");
    if line.contains('\n') {
        let i = choose|i: int| 0 <= i < line.len() && line[i] == '\n';
        assert(line[i] != '\n');
    }
    if line.len() > 0 {
        assert(line[line.len() - 1] != '\r');
    }
    text::lines_end_with_line_feeds(line, rest);
    assert(line + "\n"@ + rest =~= line.push('\n') + rest);
}

/// Rows without line breaks are lines, one each, in order.
proof fn rows_are_lines(
    columns: Seq<ColumnModel>,
    rows: Seq<Seq<Seq<char>>>,
    headers: Seq<usize>,
    cells: Seq<Seq<usize>>,
    count: nat,
    rest: Seq<char>,
)
    requires
        count <= rows.len(),
        forall|r: int, i: int|
            0 <= r < rows.len() && 0 <= i < rows[r].len() ==> unbroken(#[trigger] rows[r][i]),
    ensures
        ({
            let lines = text::lines(row_lines(columns, rows, headers, cells, count) + rest);
            &&& lines.len() == count + text::lines(rest).len()
            &&& forall|r: int|
                0 <= r < count ==> #[trigger] lines[r] == row_line(
                    columns,
                    headers,
                    cells,
                    rows[r],
                    cells[r],
                    rows[r].len(),
                )
            &&& lines.skip(count as int) == text::lines(rest)
        }),
    decreases count,
{
    let all = row_lines(columns, rows, headers, cells, count);
    if count == 0 {
        assert(all + rest =~= rest);
        assert(text::lines(rest).skip(0) =~= text::lines(rest));
    } else {
        let index = count - 1;
        let line = row_line(columns, headers, cells, rows[index], cells[index], rows[index].len());
        let front = row_lines(columns, rows, headers, cells, index as nat);
        let tail = line + "\n"@ + rest;
        assert forall|i: int| 0 <= i < rows[index].len() implies unbroken(
            #[trigger] rows[index][i],
        ) by {}
        unbroken_row(columns, headers, cells, rows[index], cells[index], rows[index].len());
        a_line_of_its_own(line, rest);
        rows_are_lines(columns, rows, headers, cells, index as nat, tail);
        assert(all + rest =~= front + tail);
        let lines = text::lines(all + rest);
        assert(lines.skip(index)[0] == line);
        assert(lines.skip(index)[0] == lines[index]);
        assert(lines.skip(count as int) =~= lines.skip(index).skip(1));
        assert((seq![line] + text::lines(rest)).skip(1) =~= text::lines(rest));
    }
}

/// A table is a line of headers and then a line for each row, in order, where no text in
/// it holds a line break.
pub proof fn a_table_has_a_line_for_each_row(
    columns: Seq<ColumnModel>,
    rows: Seq<Seq<Seq<char>>>,
)
    requires
        forall|i: int| 0 <= i < columns.len() ==> unbroken((#[trigger] columns[i]).header),
        forall|r: int, i: int|
            0 <= r < rows.len() && 0 <= i < rows[r].len() ==> unbroken(#[trigger] rows[r][i]),
    ensures
        ({
            let lines = text::lines(table_text(columns, rows));
            let headers = header_widths(columns);
            let cells = all_widths(rows);
            &&& lines.len() == rows.len() + 1
            &&& lines[0] == header_line(columns, headers, cells, columns.len())
            &&& forall|r: int|
                0 <= r < rows.len() ==> #[trigger] lines[r + 1] == row_line(
                    columns,
                    headers,
                    cells,
                    rows[r],
                    row_widths(rows[r]),
                    rows[r].len(),
                )
        }),
{
    let headers = header_widths(columns);
    let cells = all_widths(rows);
    let top = header_line(columns, headers, cells, columns.len());
    let body = row_lines(columns, rows, headers, cells, rows.len());
    let none = Seq::<char>::empty();
    unbroken_header(columns, headers, cells, columns.len());
    a_line_of_its_own(top, body);
    rows_are_lines(columns, rows, headers, cells, rows.len(), none);
    assert(body + none =~= body);
    assert(text::lines(none) =~= seq![]);
    let lines = text::lines(table_text(columns, rows));
    assert forall|r: int| 0 <= r < rows.len() implies #[trigger] lines[r + 1] == row_line(
        columns,
        headers,
        cells,
        rows[r],
        row_widths(rows[r]),
        rows[r].len(),
    ) by {
        assert(lines[r + 1] == text::lines(body)[r]);
        assert(cells[r] == row_widths(rows[r]));
    }
}

/// A table is made of the columns and rows it is given, each cell as wide as the terminal
/// shows it.
pub proof fn tables_are_made_of_their_cells(
    columns: &[Column<'_>],
    rows: &[Vec<String>],
    table: String,
)
    requires
        call_ensures(self::table, (columns, rows), table),
    ensures
        ({
            let models = order::views(columns@);
            let texts = row_views(rows@);
            &&& models.len() == columns@.len()
            &&& forall|i: int|
                0 <= i < columns@.len() ==> (#[trigger] models[i]).header == columns@[i].header@
                    && models[i].dim == columns@[i].dim
            &&& texts.len() == rows@.len()
            &&& forall|r: int|
                0 <= r < rows@.len() ==> (#[trigger] texts[r]).len() == rows@[r]@.len()
            &&& forall|r: int, i: int|
                0 <= r < rows@.len() && 0 <= i < rows@[r]@.len() ==> #[trigger] texts[r][i]
                    == rows@[r]@[i]@
            &&& table@ == laid_out(
                models,
                texts,
                Seq::new(models.len(), |i: int| columns_of(models[i].header)),
                Seq::new(
                    texts.len(),
                    |r: int| Seq::new(texts[r].len(), |i: int| columns_of(texts[r][i])),
                ),
            )
        }),
{
    let models = order::views(columns@);
    let texts = row_views(rows@);
    assert(header_widths(models) =~= Seq::new(
        models.len(),
        |i: int| columns_of(models[i].header),
    ));
    let cells = Seq::new(
        texts.len(),
        |r: int| Seq::new(texts[r].len(), |i: int| columns_of(texts[r][i])),
    );
    assert forall|r: int| 0 <= r < texts.len() implies all_widths(texts)[r] == cells[r] by {
        assert(row_widths(texts[r]) =~= cells[r]);
    }
    assert(all_widths(texts) =~= cells);
}

/// A row shows each of its cells, as it is or dimmed as its column says, whole and in
/// order: the first cells of a row are the start of the row with one cell more.
pub proof fn a_row_shows_its_cells_in_order(
    columns: Seq<ColumnModel>,
    headers: Seq<usize>,
    cells: Seq<Seq<usize>>,
    row: Seq<Seq<char>>,
    own: Seq<usize>,
    index: int,
)
    requires
        headers.len() == columns.len(),
        0 <= index < row.len(),
        index < columns.len(),
    ensures
        ({
            let before = row_line(columns, headers, cells, row, own, index as nat);
            let shown = if columns[index].dim {
                "\u{1b}[2m"@ + row[index] + "\u{1b}[0m"@
            } else {
                row[index]
            };
            let after = row_line(columns, headers, cells, row, own, (index + 1) as nat);
            &&& after.len() >= before.len() + shown.len()
            &&& after.take((before.len() + shown.len()) as int) == before + shown
            &&& forall|i: int|
                before.len() + shown.len() <= i < after.len() ==> #[trigger] after[i] == ' '
            &&& index < columns.len() - 1 && own[index] <= widest(headers[index], cells, index)
                ==> after.len() - before.len() - shown.len() == widest(
                headers[index],
                cells,
                index,
            ) - own[index] + 2
            &&& index == columns.len() - 1 ==> after.len() == before.len() + shown.len()
        }),
{
    reveal_strlit("  ");
    styles_surround_the_text(row[index]);
    let before = row_line(columns, headers, cells, row, own, index as nat);
    let shown = cell_text(columns, row[index], index);
    let after = row_line(columns, headers, cells, row, own, (index + 1) as nat);
    assert(after.take((before.len() + shown.len()) as int) =~= before + shown);
}

/// An error is reported on a line of its own behind the word `error:`, and each of its
/// causes on the next, in order.
pub proof fn causes_are_reported_in_order(message: &str, causes: &Vec<String>, lines: String)
    requires
        call_ensures(error_report, (message, causes), lines),
        unbroken(message@),
        forall|i: int| 0 <= i < causes@.len() ==> unbroken((#[trigger] causes@[i])@),
    ensures
        text::lines(lines@).len() == causes@.len() + 1,
        text::lines(lines@)[0] == "\u{1b}[1m"@ + "\u{1b}[31m"@ + "error:"@ + "\u{1b}[0m"@ + " "@
            + message@,
        forall|i: int|
            0 <= i < causes@.len() ==> #[trigger] text::lines(lines@)[i + 1] == "  caused by: "@
                + causes@[i]@,
{
    let all = text::texts(causes@);
    let none = Seq::<char>::empty();
    let top = "\u{1b}[1m"@ + "\u{1b}[31m"@ + "error:"@ + "\u{1b}[0m"@ + " "@;
    styles_surround_the_text("error:"@);
    assert(unbroken(top)) by {
        reveal_strlit("\u{1b}[1m");
        reveal_strlit("\u{1b}[31m");
        reveal_strlit("error:");
        reveal_strlit("\u{1b}[0m");
        reveal_strlit(" ");
    }
    unbroken_together(top, message@);
    assert forall|i: int| 0 <= i < all.len() implies unbroken(#[trigger] all[i]) by {
        assert(unbroken(causes@[i]@));
    }
    causes_are_lines(all, none);
    assert(cause_lines(all) + none =~= cause_lines(all));
    assert(text::lines(none) =~= seq![]);
    a_line_of_its_own(top + message@, cause_lines(all));
    assert(lines@ =~= top + message@ + "\n"@ + cause_lines(all));
    assert forall|i: int| 0 <= i < causes@.len() implies #[trigger] text::lines(lines@)[i + 1]
        == "  caused by: "@ + causes@[i]@ by {
        assert(text::lines(lines@)[i + 1] == text::lines(cause_lines(all))[i]);
    }
}

/// Causes without line breaks are lines, one each, in order.
proof fn causes_are_lines(causes: Seq<Seq<char>>, rest: Seq<char>)
    requires
        forall|i: int| 0 <= i < causes.len() ==> unbroken(#[trigger] causes[i]),
    ensures
        text::lines(cause_lines(causes) + rest).len() == causes.len() + text::lines(rest).len(),
        forall|i: int|
            0 <= i < causes.len() ==> #[trigger] text::lines(cause_lines(causes) + rest)[i]
                == "  caused by: "@ + causes[i],
        text::lines(cause_lines(causes) + rest).skip(causes.len() as int) == text::lines(rest),
    decreases causes.len(),
{
    let all = cause_lines(causes);
    if causes.len() == 0 {
        assert(all + rest =~= rest);
        assert(text::lines(rest).skip(0) =~= text::lines(rest));
    } else {
        let front = causes.drop_last();
        let last = causes.len() - 1;
        let line = "  caused by: "@ + causes.last();
        let tail = line + "\n"@ + rest;
        assert(unbroken("  caused by: "@)) by {
            reveal_strlit("  caused by: ");
        }
        assert(unbroken(causes[last]));
        unbroken_together("  caused by: "@, causes.last());
        a_line_of_its_own(line, rest);
        assert forall|i: int| 0 <= i < front.len() implies unbroken(#[trigger] front[i]) by {
            assert(front[i] == causes[i]);
        }
        causes_are_lines(front, tail);
        assert(all + rest =~= cause_lines(front) + tail);
        let lines = text::lines(all + rest);
        assert(lines.skip(last)[0] == lines[last]);
        assert(lines.skip(causes.len() as int) =~= lines.skip(last).skip(1));
        assert((seq![line] + text::lines(rest)).skip(1) =~= text::lines(rest));
        assert forall|i: int| 0 <= i < causes.len() implies #[trigger] lines[i]
            == "  caused by: "@ + causes[i] by {
            if i < last {
                assert(front[i] == causes[i]);
            }
        }
    }
}

/// Headers stand in bold one after another, in order, each filled up with spaces to the
/// width of its column, and two more, but for the last.
pub proof fn headers_stand_in_order(
    columns: Seq<ColumnModel>,
    headers: Seq<usize>,
    cells: Seq<Seq<usize>>,
    index: int,
)
    requires
        headers.len() == columns.len(),
        0 <= index < columns.len(),
    ensures
        ({
            let before = header_line(columns, headers, cells, index as nat);
            let shown = "\u{1b}[1m"@ + columns[index].header + "\u{1b}[0m"@;
            let after = header_line(columns, headers, cells, (index + 1) as nat);
            &&& after.len() >= before.len() + shown.len()
            &&& after.take((before.len() + shown.len()) as int) == before + shown
            &&& forall|i: int|
                before.len() + shown.len() <= i < after.len() ==> #[trigger] after[i] == ' '
            &&& index < columns.len() - 1 ==> after.len() - before.len() - shown.len() == widest(
                headers[index],
                cells,
                index,
            ) - headers[index] + 2
            &&& index == columns.len() - 1 ==> after.len() == before.len() + shown.len()
            &&& width_at(headers, cells, index) == widest(headers[index], cells, index)
        }),
{
    reveal_strlit("  ");
    styles_surround_the_text(columns[index].header);
    a_column_is_as_wide_as_it_must_be(headers[index], cells, index);
    let before = header_line(columns, headers, cells, index as nat);
    let shown = styled(header_style(), columns[index].header);
    let after = header_line(columns, headers, cells, (index + 1) as nat);
    assert(after.take((before.len() + shown.len()) as int) =~= before + shown);
}

/// Each colour has its own escape sequence, behind the one for bold.
pub proof fn colors_have_their_codes(s: Seq<char>, bold: Style)
    requires
        bold.bold,
        !bold.dimmed,
    ensures
        bold.color == Some(Color::Red) ==> styled(bold, s) == "\u{1b}[1m"@ + "\u{1b}[31m"@ + s
            + "\u{1b}[0m"@,
        bold.color == Some(Color::Green) ==> styled(bold, s) == "\u{1b}[1m"@ + "\u{1b}[32m"@ + s
            + "\u{1b}[0m"@,
        bold.color == Some(Color::Yellow) ==> styled(bold, s) == "\u{1b}[1m"@ + "\u{1b}[33m"@ + s
            + "\u{1b}[0m"@,
{
    reveal_strlit("");
    match bold.color {
        Some(Color::Red) => assert(styled(bold, s) =~= "\u{1b}[1m"@ + "\u{1b}[31m"@ + s
            + "\u{1b}[0m"@),
        Some(Color::Green) => assert(styled(bold, s) =~= "\u{1b}[1m"@ + "\u{1b}[32m"@ + s
            + "\u{1b}[0m"@),
        Some(Color::Yellow) => assert(styled(bold, s) =~= "\u{1b}[1m"@ + "\u{1b}[33m"@ + s
            + "\u{1b}[0m"@),
        None => {},
    }
}

} // verus!
