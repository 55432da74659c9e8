//! Rendering: entries become color-escaped, padded cells, assembled row by
//! row into the display lines of the grid.

use vstd::prelude::*;
use vstd::string::{StrSliceExecFns, StringExecFns};
use crate::entry::DirectoryEntery;
use crate::entry::EntryType;
use crate::grid::calculate_rows;
use crate::grid::cell_width;
use crate::grid::column_width;
use crate::grid::lemma_calculate_rows_bounds;
use crate::grid::lemma_spec_columns_members;
use crate::grid::sort_to_columns;
use crate::grid::spec_calculate_rows;
use crate::grid::spec_columns;

verus! {

/// The fixed ANSI color prefix of a kind; a plain file has none.
pub open spec fn ansi_of(t: EntryType) -> Seq<char> {
    match t {
        EntryType::File => ""@,
        EntryType::Directory => "\u{1b}[01;34m"@,
        EntryType::BlockDevice => "\u{1b}[01;33m"@,
        EntryType::CharDevice => "\u{1b}[01;33m"@,
        EntryType::Fifo => "\u{1b}[33m"@,
        EntryType::Socket => "\u{1b}[01;35m"@,
        EntryType::Symlink => "\u{1b}[01;36m"@,
    }
}

/// The ANSI reset that closes every cell's color.
pub open spec fn reset_code() -> Seq<char> {
    "\u{1b}[0m"@
}

/// The color prefix a kind is rendered with: bold blue directories, bold
/// yellow devices, yellow fifos, bold magenta sockets, bold cyan symlinks,
/// and no color for a plain file.
pub fn get_ansi_code(entry_type: &EntryType) -> (r: &str)
    ensures
        r@ == ansi_of(*entry_type),
{
    match entry_type {
        EntryType::File => "",
        EntryType::Directory => "\u{1b}[01;34m",
        EntryType::BlockDevice => "\u{1b}[01;33m",
        EntryType::CharDevice => "\u{1b}[01;33m",
        EntryType::Fifo => "\u{1b}[33m",
        EntryType::Socket => "\u{1b}[01;35m",
        EntryType::Symlink => "\u{1b}[01;36m",
    }
}

/// `n` spaces (none for a negative count).
pub open spec fn spaces(n: int) -> Seq<char> {
    Seq::new(
        if n >= 0 {
            n as nat
        } else {
            0
        },
        |i: int| ' ',
    )
}

/// One rendered cell in a column `width` wide: color prefix, display name,
/// color reset, and the spaces that pad the visible text to the column
/// width.
pub open spec fn spec_cell(e: DirectoryEntery, width: int) -> Seq<char> {
    ansi_of(e.entry_type) + e.name@ + reset_code() + spaces(width - e.name@.len())
}

/// Law: a cell is its color prefix, the display name, the color reset and
/// the padding, in that order; the visible characters — name plus padding,
/// color codes excluded — together are exactly the column width, that is,
/// the column's widest name plus the two-space separator.
pub proof fn lemma_cell_visible_width(e: DirectoryEntery, width: int)
    requires
        cell_width(e) <= width,
    ensures
        spec_cell(e, width) == ansi_of(e.entry_type) + e.name@ + reset_code() + spaces(
            width - e.name@.len(),
        ),
        e.name@.len() + spaces(width - e.name@.len()).len() == width,
{
}

/// Every name in the list leaves room for its cell in a machine word.
pub open spec fn names_fit(s: Seq<DirectoryEntery>) -> bool {
    forall|i: int| 0 <= i < s.len() ==> (#[trigger] s[i]).name@.len() + 2 <= usize::MAX
}

/// Whatever the filter keeps was in the list.
proof fn lemma_filter_members(s: Seq<DirectoryEntery>, pred: spec_fn(DirectoryEntery) -> bool)
    ensures
        forall|i: int|
            0 <= i < s.filter(pred).len() ==> s.contains(#[trigger] s.filter(pred)[i]),
    decreases s.len(),
{
    reveal(Seq::filter);
    if s.len() > 0 {
        lemma_filter_members(s.drop_last(), pred);
        let fl = s.filter(pred);
        let dl = s.drop_last().filter(pred);
        assert forall|i: int| 0 <= i < fl.len() implies s.contains(#[trigger] fl[i]) by {
            if i < dl.len() {
                assert(fl[i] == dl[i]);
                assert(s.drop_last().contains(dl[i]));
                let j = choose|j: int| 0 <= j < s.drop_last().len() && s.drop_last()[j] == dl[i];
                assert(s[j] == fl[i]);
            } else {
                assert(pred(s.last()) && fl[i] == s.last());
                assert(s[s.len() - 1] == fl[i]);
            }
        }
    }
}

/// Renders one cell of a column `width` wide.
fn render_cell(entry: &DirectoryEntery, width: usize) -> (cell: String)
    requires
        entry.name@.len() + 2 <= width,
    ensures
        cell@ == spec_cell(*entry, width as int),
{
    let mut cell = String::new();
    cell.append(get_ansi_code(&entry.entry_type));
    cell.append(entry.name.as_str());
    cell.append("\u{1b}[0m");
    let pad = width - entry.name.as_str().unicode_len();
    proof {
        assert(cell@ =~= ansi_of(entry.entry_type) + entry.name@ + reset_code() + spaces(0));
    }
    let mut p: usize = 0;
    while p < pad
        invariant
            p <= pad,
            pad == width - entry.name@.len(),
            cell@ == ansi_of(entry.entry_type) + entry.name@ + reset_code() + spaces(p as int),
        decreases pad - p,
    {
        cell.append(" ");
        proof {
            reveal_strlit(" ");
            assert(spaces(p as int) + " "@ =~= spaces(p + 1));
            assert(cell@ =~= ansi_of(entry.entry_type) + entry.name@ + reset_code() + spaces(
                p + 1,
            ));
        }
        p += 1;
    }
    cell
}

/// Renders each column into its aligned cells: every cell of a column is
/// padded to the column's width — its longest name plus the two-space
/// separator — so that all cells of one column are equally wide.
#[verifier::loop_isolation(false)]
pub fn convert_to_string_and_align(columns: &Vec<Vec<DirectoryEntery>>) -> (aligned: Vec<
    Vec<String>,
>)
    requires
        forall|c: int| 0 <= c < columns@.len() ==> names_fit(#[trigger] columns@[c]@),
    ensures
        aligned@.len() == columns@.len(),
        forall|c: int|
            0 <= c < columns@.len() ==> (#[trigger] aligned@[c]@).len() == columns@[c]@.len(),
        forall|c: int, r: int|
            0 <= c < columns@.len() && 0 <= r < columns@[c]@.len() ==> (#[trigger] aligned@[c]@[r])@
                == spec_cell(columns@[c]@[r], column_width(columns@[c]@)),
{
    let mut aligned: Vec<Vec<String>> = Vec::new();
    let mut c: usize = 0;
    while c < columns.len()
        invariant
            c <= columns@.len(),
            aligned@.len() == c,
            forall|c2: int| 0 <= c2 < c ==> (#[trigger] aligned@[c2]@).len() == columns@[c2]@.len(),
            forall|c2: int, r: int|
                0 <= c2 < c && 0 <= r < columns@[c2]@.len() ==> (#[trigger] aligned@[c2]@[r])@
                    == spec_cell(columns@[c2]@[r], column_width(columns@[c2]@)),
        decreases columns@.len() - c,
    {
        let column = &columns[c];
        let mut max_len: usize = 0;
        let mut k: usize = 0;
        proof {
            assert(column@.take(0) =~= Seq::<DirectoryEntery>::empty());
        }
        while k < column.len()
            invariant
                k <= column@.len(),
                max_len as int == column_width(column@.take(k as int)),
            decreases column@.len() - k,
        {
            let len = column[k].name.as_str().unicode_len();
            let cand = len + 2;
            if cand > max_len {
                max_len = cand;
            }
            proof {
                assert(column@.take(k + 1).drop_last() =~= column@.take(k as int));
                assert(column@.take(k + 1).last() == column@[k as int]);
            }
            k += 1;
        }
        proof {
            assert(column@.take(column@.len() as int) =~= column@);
        }
        let mut cells: Vec<String> = Vec::new();
        let mut r: usize = 0;
        while r < column.len()
            invariant
                r <= column@.len(),
                max_len as int == column_width(column@),
                cells@.len() == r,
                forall|r2: int|
                    0 <= r2 < r ==> (#[trigger] cells@[r2])@ == spec_cell(
                        column@[r2],
                        column_width(column@),
                    ),
            decreases column@.len() - r,
        {
            proof {
                crate::grid::lemma_column_width_member(column@, r as int);
            }
            let cell = render_cell(&column[r], max_len);
            cells.push(cell);
            r += 1;
        }
        aligned.push(cells);
        c += 1;
    }
    aligned
}

/// The display filter: a hidden entry is kept only when hidden entries are
/// shown.
pub open spec fn shown(show_hidden: bool) -> spec_fn(DirectoryEntery) -> bool {
    |e: DirectoryEntery| !e.is_hidden || show_hidden
}

/// One display line of the grid, from column `c` rightwards: the cells of
/// row `r` of the columns that reach down to that row, each padded to its
/// column's width.
pub open spec fn spec_line_from(cols: Seq<Seq<DirectoryEntery>>, r: int, c: int) -> Seq<char>
    decreases cols.len() - c,
{
    if c < 0 || c >= cols.len() {
        Seq::empty()
    } else if r < cols[c].len() {
        spec_cell(cols[c][r], column_width(cols[c])) + spec_line_from(cols, r, c + 1)
    } else {
        spec_line_from(cols, r, c + 1)
    }
}

/// The display lines from row `r` downwards, joined by newlines: rows are
/// emitted top to bottom, and every row after the first is preceded by one
/// newline.
pub open spec fn spec_lines_from(cols: Seq<Seq<DirectoryEntery>>, rows: int, r: int) -> Seq<char>
    decreases rows - r,
{
    if r < 0 || r >= rows {
        Seq::empty()
    } else {
        (if r > 0 {
            "\n"@
        } else {
            Seq::<char>::empty()
        }) + spec_line_from(cols, r, 0) + spec_lines_from(cols, rows, r + 1)
    }
}

/// The rendered grid of an entry list at a width: the row count from the
/// iterative search, the column partition for it, and the rows' lines.
pub open spec fn spec_render(f: Seq<DirectoryEntery>, width: int) -> Seq<char> {
    spec_lines_from(
        spec_columns(f, spec_calculate_rows(f, width, 1)),
        spec_calculate_rows(f, width, 1),
        0,
    )
}

/// The whole table: hidden entries are filtered out first — unless they
/// are shown — and the remaining entries are planned and rendered.
pub open spec fn spec_format_table(
    s: Seq<DirectoryEntery>,
    show_hidden: bool,
    width: int,
) -> Seq<char> {
    spec_render(s.filter(shown(show_hidden)), width)
}

/// Law: planning and rendering are deterministic — two outputs rendered
/// from the same entry list, hidden-display flag and width are equal
/// character for character, so re-running the pipeline reproduces its
/// output byte for byte.
pub proof fn lemma_format_table_deterministic(
    s: Seq<DirectoryEntery>,
    show_hidden: bool,
    width: int,
    out1: Seq<char>,
    out2: Seq<char>,
)
    requires
        out1 == spec_format_table(s, show_hidden, width),
        out2 == spec_format_table(s, show_hidden, width),
    ensures
        out1 == out2,
{
}

/// Renders the table of the entries that the display filter keeps, laid
/// out for the given terminal width: filtering comes first, then planning,
/// then one padded, color-escaped cell per entry, assembled row by row.
#[verifier::loop_isolation(false)]
#[verifier::rlimit(60)]
pub fn format_table(
    enteries_unfiltered: &Vec<DirectoryEntery>,
    show_hidden: bool,
    term_width: u16,
) -> (out: String)
    requires
        names_fit(enteries_unfiltered@),
    ensures
        out@ == spec_format_table(enteries_unfiltered@, show_hidden, term_width as int),
{
    let ghost s = enteries_unfiltered@;
    let ghost pred = shown(show_hidden);
    let mut enteries: Vec<DirectoryEntery> = Vec::new();
    let mut i: usize = 0;
    proof {
        reveal(Seq::filter);
        assert(s.take(0).filter(pred) =~= Seq::<DirectoryEntery>::empty());
    }
    while i < enteries_unfiltered.len()
        invariant
            i <= s.len(),
            enteries@ == s.take(i as int).filter(pred),
        decreases s.len() - i,
    {
        let e = &enteries_unfiltered[i];
        if !e.is_hidden || show_hidden {
            enteries.push(e.clone_entry());
        }
        proof {
            reveal(Seq::filter);
            assert(s.take(i + 1).drop_last() =~= s.take(i as int));
            assert(s.take(i + 1).last() == s[i as int]);
        }
        i += 1;
    }
    proof {
        assert(s.take(s.len() as int) =~= s);
    }
    let ghost f = s.filter(pred);
    proof {
        assert(enteries@ == f);
    }
    if enteries.len() == 0 {
        proof {
            assert(spec_calculate_rows(f, term_width as int, 1) == 0);
            assert(spec_columns(f, 0) == Seq::<Seq<DirectoryEntery>>::empty());
            assert(spec_lines_from(Seq::<Seq<DirectoryEntery>>::empty(), 0, 0) == Seq::<
                char,
            >::empty());
        }
        return String::new();
    }
    let rows = calculate_rows(&enteries, term_width, 1);
    let ghost nrows = spec_calculate_rows(f, term_width as int, 1);
    proof {
        lemma_calculate_rows_bounds(f, term_width as int);
    }
    let ghost colsv = spec_columns(f, nrows);
    let columns = sort_to_columns(&enteries, term_width);
    proof {
        lemma_spec_columns_members(f, nrows);
        lemma_filter_members(s, pred);
        assert forall|c: int| 0 <= c < columns@.len() implies names_fit(
            #[trigger] columns@[c]@,
        ) by {
            assert(columns@.map_values(|col: Vec<DirectoryEntery>| col@)[c] == columns@[c]@);
            assert(columns@[c]@ == colsv[c]);
            assert forall|r: int|
                0 <= r < columns@[c]@.len() implies (#[trigger] columns@[c]@[r]).name@.len() + 2
                <= usize::MAX by {
                assert(f.contains(colsv[c][r]));
                let j = choose|j: int| 0 <= j < f.len() && f[j] == colsv[c][r];
                assert(s.contains(f[j]));
                let m = choose|m: int| 0 <= m < s.len() && s[m] == f[j];
                assert(s[m].name@.len() + 2 <= usize::MAX);
            }
        }
    }
    let cells = convert_to_string_and_align(&columns);
    proof {
        assert(cells@.len() == colsv.len());
        assert forall|c: int| 0 <= c < colsv.len() implies (#[trigger] cells@[c]@).len()
            == colsv[c].len() && forall|r: int|
            0 <= r < colsv[c].len() ==> (#[trigger] cells@[c]@[r])@ == spec_cell(
                colsv[c][r],
                column_width(colsv[c]),
            ) by {
            assert(columns@.map_values(|col: Vec<DirectoryEntery>| col@)[c] == columns@[c]@);
            assert(columns@[c]@ == colsv[c]);
        }
    }
    let mut buf = String::new();
    let ghost goal = spec_lines_from(colsv, nrows, 0);
    let mut r: usize = 0;
    while r < rows
        invariant
            r <= rows,
            goal == buf@ + spec_lines_from(colsv, nrows, r as int),
        decreases rows - r,
    {
        let ghost buf0 = buf@;
        let ghost sep: Seq<char> = if r > 0 {
            "\n"@
        } else {
            Seq::<char>::empty()
        };
        if r > 0 {
            buf.append("\n");
        }
        proof {
            assert(buf@ =~= buf0 + sep);
            assert(spec_lines_from(colsv, nrows, r as int) == sep + spec_line_from(
                colsv,
                r as int,
                0,
            ) + spec_lines_from(colsv, nrows, r as int + 1));
            assert(buf0 + ((sep + spec_line_from(colsv, r as int, 0)) + spec_lines_from(
                colsv,
                nrows,
                r as int + 1,
            )) =~= ((buf0 + sep) + spec_line_from(colsv, r as int, 0)) + spec_lines_from(
                colsv,
                nrows,
                r as int + 1,
            ));
        }
        let mut c: usize = 0;
        while c < cells.len()
            invariant
                c <= cells@.len(),
                r < rows,
                goal == buf@ + spec_line_from(colsv, r as int, c as int) + spec_lines_from(
                    colsv,
                    nrows,
                    r as int + 1,
                ),
            decreases cells@.len() - c,
        {
            let ghost buf1 = buf@;
            let ghost cellv: Seq<char> = if (r as int) < colsv[c as int].len() {
                spec_cell(colsv[c as int][r as int], column_width(colsv[c as int]))
            } else {
                Seq::<char>::empty()
            };
            let column = &cells[c];
            if r < column.len() {
                let cell = &column[r];
                buf.append(cell.as_str());
            }
            proof {
                assert(buf@ =~= buf1 + cellv);
                assert(spec_line_from(colsv, r as int, c as int) == cellv + spec_line_from(
                    colsv,
                    r as int,
                    c as int + 1,
                )) by {
                    if (r as int) >= colsv[c as int].len() {
                        assert(Seq::<char>::empty() + spec_line_from(colsv, r as int, c as int + 1)
                            =~= spec_line_from(colsv, r as int, c as int + 1));
                    }
                }
                assert(buf1 + ((cellv + spec_line_from(colsv, r as int, c as int + 1))
                    + spec_lines_from(colsv, nrows, r as int + 1)) =~= ((buf1 + cellv)
                    + spec_line_from(colsv, r as int, c as int + 1)) + spec_lines_from(
                    colsv,
                    nrows,
                    r as int + 1,
                ));
            }
            c += 1;
        }
        proof {
            assert(spec_line_from(colsv, r as int, c as int) == Seq::<char>::empty());
            assert((buf@ + Seq::<char>::empty()) + spec_lines_from(colsv, nrows, r as int + 1)
                =~= buf@ + spec_lines_from(colsv, nrows, r as int + 1));
        }
        r += 1;
    }
    proof {
        assert(spec_lines_from(colsv, nrows, rows as int) == Seq::<char>::empty());
        assert(buf@ + Seq::<char>::empty() =~= buf@);
    }
    buf
}

} // verus!
