//! Grid planning: an iterative search for the smallest row count whose
//! column-major layout fits the terminal width, and the partition of the
//! entries into columns.

use vstd::prelude::*;
use vstd::string::StrSliceExecFns;
use crate::entry::DirectoryEntery;

verus! {

/// Width one entry's cell asks for: its name length plus the two-space
/// separator.
pub open spec fn cell_width(e: DirectoryEntery) -> int {
    e.name@.len() as int + 2
}

/// The width of a column holding these entries: that of its widest cell
/// (`0` for an empty column).
pub open spec fn column_width(s: Seq<DirectoryEntery>) -> int
    decreases s.len(),
{
    if s.len() == 0 {
        0
    } else {
        let rest = column_width(s.drop_last());
        if cell_width(s.last()) > rest {
            cell_width(s.last())
        } else {
            rest
        }
    }
}

/// Total width of the column-major grid with `rows` rows: the entries fill
/// columns of `rows` consecutive entries (the last column may be shorter),
/// and each column is as wide as its widest cell.
pub open spec fn grid_width(s: Seq<DirectoryEntery>, rows: int) -> int
    decreases s.len() when rows >= 1
{
    if s.len() <= rows {
        column_width(s)
    } else {
        column_width(s.take(rows)) + grid_width(s.skip(rows), rows)
    }
}

/// Whether the grid with `rows` rows fits in `width` columns of text.
pub open spec fn grid_fits(s: Seq<DirectoryEntery>, rows: int, width: int) -> bool {
    grid_width(s, rows) <= width
}

/// The row count the iterative search settles on when it starts at `rows`:
/// the first count at which the grid fits, capped at the entry count,
/// which is accepted whatever the width.
pub open spec fn spec_calculate_rows(s: Seq<DirectoryEntery>, width: int, rows: int) -> int
    decreases s.len() - rows when rows >= 1
{
    if rows >= s.len() {
        s.len() as int
    } else if grid_fits(s, rows, width) {
        rows
    } else {
        spec_calculate_rows(s, width, rows + 1)
    }
}

proof fn lemma_column_width_nonneg(s: Seq<DirectoryEntery>)
    ensures
        column_width(s) >= 0,
    decreases s.len(),
{
    if s.len() > 0 {
        lemma_column_width_nonneg(s.drop_last());
    }
}

proof fn lemma_grid_width_nonneg(s: Seq<DirectoryEntery>, rows: int)
    requires
        rows >= 1,
    ensures
        grid_width(s, rows) >= 0,
    decreases s.len(),
{
    if s.len() <= rows {
        lemma_column_width_nonneg(s);
    } else {
        lemma_column_width_nonneg(s.take(rows));
        lemma_grid_width_nonneg(s.skip(rows), rows);
    }
}

/// A column is at least as wide as any one of its cells.
pub proof fn lemma_column_width_member(s: Seq<DirectoryEntery>, i: int)
    requires
        0 <= i < s.len(),
    ensures
        column_width(s) >= cell_width(s[i]),
    decreases s.len(),
{
    if i < s.len() - 1 {
        lemma_column_width_member(s.drop_last(), i);
        assert(s.drop_last()[i] == s[i]);
    }
}

/// The grid is at least as wide as the column its first chunk makes.
proof fn lemma_grid_width_first_column(s: Seq<DirectoryEntery>, rows: int)
    requires
        rows >= 1,
    ensures
        s.len() <= rows ==> grid_width(s, rows) == column_width(s),
        s.len() > rows ==> grid_width(s, rows) >= column_width(s.take(rows)),
{
    if s.len() > rows {
        lemma_grid_width_nonneg(s.skip(rows), rows);
    }
}

/// Whether the grid with `rows` rows fits in `term_width` columns of text.
fn grid_fits_exec(enteries: &Vec<DirectoryEntery>, rows: usize, term_width: u16) -> (b: bool)
    requires
        rows >= 1,
    ensures
        b == grid_fits(enteries@, rows as int, term_width as int),
{
    let ghost s = enteries@;
    let n = enteries.len();
    let w = term_width as usize;
    let mut used: usize = 0;
    let mut start: usize = 0;
    proof {
        assert(s.skip(0) =~= s);
    }
    while start < n
        invariant
            s == enteries@,
            n == s.len(),
            w == term_width as usize,
            1 <= rows,
            start <= n,
            used <= w,
            grid_width(s, rows as int) == used + grid_width(s.skip(start as int), rows as int),
        decreases n - start,
    {
        let chunk = if n - start > rows {
            rows
        } else {
            n - start
        };
        let end = start + chunk;
        let ghost tail = s.skip(start as int);
        let ghost col = s.subrange(start as int, end as int);
        proof {
            if n - start > rows {
                assert(tail.take(rows as int) =~= col);
                assert(tail.skip(rows as int) =~= s.skip(end as int));
                lemma_grid_width_nonneg(s.skip(end as int), rows as int);
            } else {
                assert(tail =~= col);
            }
            lemma_grid_width_first_column(tail, rows as int);
        }
        let mut cw: usize = 0;
        let mut k: usize = start;
        proof {
            assert(s.subrange(start as int, start as int) =~= Seq::<DirectoryEntery>::empty());
        }
        while k < end
            invariant
                s == enteries@,
                n == s.len(),
                w == term_width as usize,
                1 <= rows,
                used <= w,
                start <= k <= end <= n,
                end == start + chunk,
                cw == column_width(s.subrange(start as int, k as int)),
                cw <= w + 2,
                col == s.subrange(start as int, end as int),
                grid_width(s.skip(start as int), rows as int) >= column_width(col),
                grid_width(s, rows as int) == used + grid_width(s.skip(start as int), rows as int),
            decreases end - k,
        {
            let len = enteries[k].name.as_str().unicode_len();
            if len > w {
                proof {
                    lemma_column_width_member(col, k - start);
                    assert(col[k - start] == s[k as int]);
                    lemma_grid_width_nonneg(s.skip(start as int), rows as int);
                }
                return false;
            }
            let cand = len + 2;
            if cand > cw {
                cw = cand;
            }
            proof {
                assert(s.subrange(start as int, k + 1).drop_last() =~= s.subrange(
                    start as int,
                    k as int,
                ));
                assert(s.subrange(start as int, k + 1).last() == s[k as int]);
            }
            k += 1;
        }
        if cw > w - used {
            proof {
                lemma_grid_width_nonneg(s.skip(start as int), rows as int);
            }
            return false;
        }
        used += cw;
        start = end;
        proof {
            if n - (end - chunk) > rows {
            } else {
                assert(s.skip(end as int).len() == 0);
                assert(grid_width(s.skip(end as int), rows as int) == 0);
            }
        }
    }
    proof {
        assert(s.skip(n as int).len() == 0);
        assert(grid_width(s.skip(n as int), rows as int) == 0);
    }
    true
}

/// The smallest workable row count at or above `rows`: the search tries
/// each count in turn and accepts the first whose grid fits the width, or
/// the entry count itself, at which every entry has a row of its own and
/// which is accepted whatever the width.
pub fn calculate_rows(enteries: &Vec<DirectoryEntery>, term_width: u16, rows: usize) -> (r: usize)
    requires
        rows >= 1,
    ensures
        r as int == spec_calculate_rows(enteries@, term_width as int, rows as int),
{
    let n = enteries.len();
    let mut r = rows;
    while r < n
        invariant
            rows <= r,
            1 <= r,
            n == enteries@.len(),
            spec_calculate_rows(enteries@, term_width as int, rows as int)
                == spec_calculate_rows(enteries@, term_width as int, r as int),
        decreases n - r,
    {
        if grid_fits_exec(enteries, r, term_width) {
            return r;
        }
        r += 1;
    }
    n
}

proof fn lemma_calculate_rows_from(s: Seq<DirectoryEntery>, width: int, start: int)
    requires
        start >= 1,
    ensures
        spec_calculate_rows(s, width, start) <= s.len(),
        spec_calculate_rows(s, width, start) == s.len() || (start <= spec_calculate_rows(
            s,
            width,
            start,
        ) && grid_fits(s, spec_calculate_rows(s, width, start), width)),
        forall|q: int|
            start <= q < spec_calculate_rows(s, width, start) ==> !grid_fits(s, q, width),
    decreases s.len() - start,
{
    if start >= s.len() {
    } else if grid_fits(s, start, width) {
    } else {
        lemma_calculate_rows_from(s, width, start + 1);
    }
}

/// Law: for every entry list and width, the row search lands in
/// `[0, n]` for `n` entries; it gives `0` exactly for an empty list, its
/// grid fits the width whenever the result is below `n`, and no smaller
/// positive row count has a grid that fits — so the result is `n` whenever
/// nothing smaller fits, including at width `0`.
pub proof fn lemma_calculate_rows_bounds(s: Seq<DirectoryEntery>, width: int)
    ensures
        0 <= spec_calculate_rows(s, width, 1) <= s.len(),
        (spec_calculate_rows(s, width, 1) == 0) <==> (s.len() == 0),
        spec_calculate_rows(s, width, 1) < s.len() ==> grid_fits(
            s,
            spec_calculate_rows(s, width, 1),
            width,
        ),
        forall|q: int| 1 <= q < spec_calculate_rows(s, width, 1) ==> !grid_fits(s, q, width),
        (forall|q: int| 1 <= q < s.len() ==> !grid_fits(s, q, width)) ==> spec_calculate_rows(
            s,
            width,
            1,
        ) == s.len(),
{
    lemma_calculate_rows_from(s, width, 1);
}

/// The column-major partition of the entries for a given row count: chunks
/// of `rows` consecutive entries, the last possibly shorter.
pub open spec fn spec_columns(s: Seq<DirectoryEntery>, rows: int) -> Seq<Seq<DirectoryEntery>>
    decreases s.len() when rows >= 1 || s.len() == 0
{
    if s.len() == 0 {
        Seq::empty()
    } else if s.len() <= rows {
        seq![s]
    } else {
        seq![s.take(rows)] + spec_columns(s.skip(rows), rows)
    }
}

/// Every entry a column holds comes from the entry list.
pub proof fn lemma_spec_columns_members(s: Seq<DirectoryEntery>, rows: int)
    requires
        rows >= 1,
    ensures
        forall|c: int, r: int|
            0 <= c < spec_columns(s, rows).len() && 0 <= r < spec_columns(s, rows)[c].len()
                ==> s.contains(#[trigger] spec_columns(s, rows)[c][r]),
    decreases s.len(),
{
    let cols = spec_columns(s, rows);
    if s.len() == 0 {
    } else if s.len() <= rows {
        assert(cols == seq![s]);
        assert forall|c: int, r: int|
            0 <= c < cols.len() && 0 <= r < cols[c].len() implies s.contains(
            #[trigger] cols[c][r],
        ) by {
            assert(cols[c][r] == s[r]);
        }
    } else {
        lemma_spec_columns_members(s.skip(rows), rows);
        let inner = spec_columns(s.skip(rows), rows);
        assert forall|c: int, r: int|
            0 <= c < cols.len() && 0 <= r < cols[c].len() implies s.contains(
            #[trigger] cols[c][r],
        ) by {
            if c == 0 {
                assert(cols[0] == s.take(rows));
                assert(cols[c][r] == s[r]);
            } else {
                assert(cols[c] == inner[c - 1]);
                assert(s.skip(rows).contains(inner[c - 1][r]));
                let j = choose|j: int|
                    0 <= j < s.skip(rows).len() && s.skip(rows)[j] == inner[c - 1][r];
                assert(s[j + rows] == cols[c][r]);
            }
        }
    }
}

/// Law: the column partition loses, adds and reorders nothing — read down
/// each column, left to right, the grid holds exactly the entry list.
pub proof fn lemma_spec_columns_flatten(s: Seq<DirectoryEntery>, rows: int)
    requires
        rows >= 1,
    ensures
        spec_columns(s, rows).flatten() == s,
    decreases s.len(),
{
    let cols = spec_columns(s, rows);
    if s.len() == 0 {
        assert(cols.flatten() =~= s);
    } else if s.len() <= rows {
        assert(cols == seq![s]);
        assert(cols.first() == s);
        assert(cols.drop_first() =~= Seq::<Seq<DirectoryEntery>>::empty());
        assert(cols.drop_first().flatten() =~= Seq::<DirectoryEntery>::empty());
        assert(cols.flatten() =~= s);
    } else {
        lemma_spec_columns_flatten(s.skip(rows), rows);
        let inner = spec_columns(s.skip(rows), rows);
        assert(cols.first() == s.take(rows));
        assert(cols.drop_first() =~= inner);
        assert(cols.flatten() == s.take(rows) + inner.flatten());
        assert(s.take(rows) + s.skip(rows) =~= s);
    }
}

/// Splits the (already filtered and sorted) entries into the column-major
/// grid for the given width: the row count comes from the iterative
/// search, and the columns are chunks of that many consecutive entries.
/// An empty list gives no columns.
pub fn sort_to_columns(enteries: &Vec<DirectoryEntery>, term_width: u16) -> (columns: Vec<
    Vec<DirectoryEntery>,
>)
    ensures
        columns@.map_values(|col: Vec<DirectoryEntery>| col@) == spec_columns(
            enteries@,
            spec_calculate_rows(enteries@, term_width as int, 1),
        ),
{
    let ghost s = enteries@;
    let n = enteries.len();
    let mut columns: Vec<Vec<DirectoryEntery>> = Vec::new();
    if n == 0 {
        proof {
            assert(columns@.map_values(|col: Vec<DirectoryEntery>| col@) =~= spec_columns(
                s,
                spec_calculate_rows(s, term_width as int, 1),
            ));
        }
        return columns;
    }
    let num_rows = calculate_rows(enteries, term_width, 1);
    proof {
        lemma_calculate_rows_bounds(s, term_width as int);
        assert(s.skip(0) =~= s);
    }
    let mut start: usize = 0;
    while start < n
        invariant
            s == enteries@,
            n == s.len(),
            1 <= num_rows,
            start <= n,
            num_rows as int == spec_calculate_rows(s, term_width as int, 1),
            spec_columns(s, num_rows as int) == columns@.map_values(
                |col: Vec<DirectoryEntery>| col@,
            ) + spec_columns(s.skip(start as int), num_rows as int),
        decreases n - start,
    {
        let chunk = if n - start > num_rows {
            num_rows
        } else {
            n - start
        };
        let end = start + chunk;
        let mut column: Vec<DirectoryEntery> = Vec::new();
        let mut k: usize = start;
        while k < end
            invariant
                s == enteries@,
                n == s.len(),
                start <= k <= end <= n,
                column@ == s.subrange(start as int, k as int),
            decreases end - k,
        {
            column.push(enteries[k].clone_entry());
            proof {
                assert(s.subrange(start as int, k as int).push(s[k as int]) =~= s.subrange(
                    start as int,
                    k + 1,
                ));
            }
            k += 1;
        }
        proof {
            let tail = s.skip(start as int);
            if n - start > num_rows {
                assert(tail.take(num_rows as int) =~= s.subrange(start as int, end as int));
                assert(tail.skip(num_rows as int) =~= s.skip(end as int));
            } else {
                assert(tail =~= s.subrange(start as int, end as int));
                assert(s.skip(end as int).len() == 0);
                assert(spec_columns(s.skip(end as int), num_rows as int) =~= Seq::<
                    Seq<DirectoryEntery>,
                >::empty());
            }
            assert(spec_columns(tail, num_rows as int) == seq![s.subrange(start as int, end as int)]
                + spec_columns(s.skip(end as int), num_rows as int));
        }
        let ghost prev = columns@.map_values(|col: Vec<DirectoryEntery>| col@);
        columns.push(column);
        proof {
            assert(columns@.map_values(|col: Vec<DirectoryEntery>| col@) =~= prev.push(
                s.subrange(start as int, end as int),
            ));
            assert(prev.push(s.subrange(start as int, end as int)) + spec_columns(
                s.skip(end as int),
                num_rows as int,
            ) =~= prev + (seq![s.subrange(start as int, end as int)] + spec_columns(
                s.skip(end as int),
                num_rows as int,
            )));
        }
        start = end;
    }
    proof {
        assert(s.skip(n as int).len() == 0);
        assert(spec_columns(s.skip(n as int), num_rows as int) =~= Seq::<
            Seq<DirectoryEntery>,
        >::empty());
        assert(columns@.map_values(|col: Vec<DirectoryEntery>| col@) + Seq::<
            Seq<DirectoryEntery>,
        >::empty() =~= columns@.map_values(|col: Vec<DirectoryEntery>| col@));
    }
    columns
}

/// The width the planner is given for a terminal-size reading: the reading
/// itself where it is present and positive, the fixed default of `80`
/// columns where the query failed or returned nothing usable.
pub open spec fn spec_effective_width(reading: Option<u16>) -> u16 {
    match reading {
        Option::Some(w) => if w > 0 {
            w
        } else {
            80
        },
        Option::None => 80,
    }
}

/// Resolves a terminal-size reading to the width the planner uses,
/// falling back to the default where the reading is missing or zero.
pub fn effective_width(reading: Option<u16>) -> (w: u16)
    ensures
        w == spec_effective_width(reading),
{
    match reading {
        Option::Some(w) => if w > 0 {
            w
        } else {
            80
        },
        Option::None => 80,
    }
}

} // verus!
