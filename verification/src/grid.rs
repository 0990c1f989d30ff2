//! The short-format grid: packs display cells into terminal-width
//! columns. When everything fits on one line the cells are joined with
//! two-space separators; otherwise the cells flow row-major through
//! columns sized to the widest cell plus a two-space gutter, the last
//! cell of each row unpadded.

use vstd::prelude::*;

verus! {

use crate::entry::Entry;
use crate::style::{kind_suffix, styled_cell, styled_cell_ok};
use crate::text::{push_char, push_spaces, spaces};
use vstd::string::{StrSliceExecFns, StringExecFns};

/// The display width of an entry: the character count of its name,
/// plus one for the trailing slash of a directory.
pub open spec fn width_of(e: Entry) -> int {
    e.name@.len() + if e.kind is Directory {
        1int
    } else {
        0int
    }
}

/// The unstyled display cell of an entry: its name and its kind's
/// display suffix.
pub open spec fn plain_cell_of(e: Entry) -> Seq<char> {
    e.name@ + kind_suffix(e.kind)
}

/// The sum of a sequence of widths.
pub open spec fn width_sum(ws: Seq<int>) -> int
    decreases ws.len(),
{
    if ws.len() == 0 {
        0
    } else {
        width_sum(ws.drop_last()) + ws.last()
    }
}

/// The largest width in the sequence, or zero when it is empty.
pub open spec fn max_width(ws: Seq<int>) -> int
    decreases ws.len(),
{
    if ws.len() == 0 {
        0
    } else if ws.last() > max_width(ws.drop_last()) {
        ws.last()
    } else {
        max_width(ws.drop_last())
    }
}

/// The cells joined on one line with two-space separators.
pub open spec fn joined(cells: Seq<Seq<char>>) -> Seq<char>
    decreases cells.len(),
{
    if cells.len() == 0 {
        Seq::empty()
    } else if cells.len() == 1 {
        cells[0]
    } else {
        joined(cells.drop_last()) + seq![' ', ' '] + cells.last()
    }
}

/// The non-terminal part of a row: every cell padded with spaces to
/// `maxw` columns and followed by a two-space gutter.
pub open spec fn padded_cells(cells: Seq<Seq<char>>, ws: Seq<int>, maxw: int) -> Seq<char>
    decreases cells.len(),
{
    if cells.len() == 0 {
        Seq::empty()
    } else {
        padded_cells(cells.drop_last(), ws.drop_last(), maxw) + cells.last() + spaces(
            maxw - ws.last(),
        ) + seq![' ', ' ']
    }
}

/// One grid row: all cells but the last padded and guttered, the last
/// cell bare.
pub open spec fn row_line(cells: Seq<Seq<char>>, ws: Seq<int>, maxw: int) -> Seq<char> {
    if cells.len() == 0 {
        Seq::empty()
    } else {
        padded_cells(cells.drop_last(), ws.drop_last(), maxw) + cells.last()
    }
}

/// The grid rows: the cells taken `epl` at a time, row-major; the last
/// row may be shorter.
pub open spec fn grid_rows(cells: Seq<Seq<char>>, ws: Seq<int>, maxw: int, epl: int) -> Seq<
    Seq<char>,
>
    decreases cells.len(),
{
    if epl < 1 || cells.len() == 0 {
        Seq::empty()
    } else if cells.len() <= epl {
        seq![row_line(cells, ws, maxw)]
    } else {
        seq![row_line(cells.take(epl), ws.take(epl), maxw)] + grid_rows(
            cells.skip(epl),
            ws.skip(epl),
            maxw,
            epl,
        )
    }
}

/// The lines of the short-format grid. With no cells there are no
/// lines. When the cells and their two-space separators fit within
/// `width` they make a single line. Otherwise the column width is the
/// largest cell width plus a two-space gutter, `width` divided by the
/// column width gives the cells per row (at least one, so a too-narrow
/// terminal degrades to one cell per line), and the cells flow
/// row-major.
pub open spec fn grid_lines(cells: Seq<Seq<char>>, ws: Seq<int>, width: int) -> Seq<Seq<char>> {
    let n = cells.len();
    if n == 0 {
        Seq::empty()
    } else if width_sum(ws) + 2 * (n - 1) <= width {
        seq![joined(cells)]
    } else {
        let maxw = max_width(ws);
        let epl0 = width / (maxw + 2);
        let epl = if epl0 < 1 {
            1int
        } else {
            epl0
        };
        grid_rows(cells, ws, maxw, epl)
    }
}

/// The shape of the column layout: row `k` holds the cells from
/// `k * epl` up to the next multiple of `epl` (or the end), rendered as
/// one row line — every cell but the row's last padded to the widest
/// width and followed by a two-space gutter. Every row but the last
/// holds exactly `epl` cells, and the rows cover all the cells.
pub proof fn lemma_grid_rows_shape(
    cells: Seq<Seq<char>>,
    ws: Seq<int>,
    maxw: int,
    epl: int,
    k: int,
)
    requires
        epl >= 1,
        cells.len() == ws.len(),
        0 <= k < grid_rows(cells, ws, maxw, epl).len(),
    ensures
        ({
            let n = cells.len() as int;
            let rows = grid_rows(cells, ws, maxw, epl);
            let end = if (k + 1) * epl <= n {
                (k + 1) * epl
            } else {
                n
            };
            &&& rows[k] == row_line(
                cells.subrange(k * epl, end),
                ws.subrange(k * epl, end),
                maxw,
            )
            &&& (k < rows.len() - 1 ==> end - k * epl == epl)
            &&& rows.len() * epl >= n
            &&& n > (rows.len() - 1) * epl
        }),
    decreases cells.len(),
{
    let n = cells.len() as int;
    let rows = grid_rows(cells, ws, maxw, epl);
    if n <= epl {
        assert(rows.len() == 1 && k == 0);
        assert(cells.subrange(0int, n) =~= cells);
        assert(ws.subrange(0int, n) =~= ws);
        if epl <= n {
            assert(cells.subrange(0int, epl) =~= cells);
            assert(ws.subrange(0int, epl) =~= ws);
        }
    } else {
        let tail_rows = grid_rows(cells.skip(epl), ws.skip(epl), maxw, epl);
        assert(rows.len() == 1 + tail_rows.len());
        if k == 0 {
            assert(cells.subrange(0int, epl) =~= cells.take(epl));
            assert(ws.subrange(0int, epl) =~= ws.take(epl));
        } else {
            lemma_grid_rows_shape(cells.skip(epl), ws.skip(epl), maxw, epl, k - 1);
            let m = (n - epl) as int;
            let tail_end = if k * epl <= m {
                k * epl
            } else {
                m
            };
            assert((k - 1) * epl == k * epl - epl && (k + 1) * epl == k * epl + epl)
                by (nonlinear_arith);
            assert((k - 1) * epl >= 0) by (nonlinear_arith)
                requires
                    k >= 1,
                    epl >= 1,
            ;
            assert((k - 1) * epl <= (tail_rows.len() - 1) * epl) by (nonlinear_arith)
                requires
                    k - 1 <= tail_rows.len() - 1,
                    epl >= 1,
            ;
            assert((k - 1) * epl <= tail_end);
            assert(cells.skip(epl).subrange((k - 1) * epl, tail_end) =~= cells.subrange(
                k * epl,
                tail_end + epl,
            ));
            assert(ws.skip(epl).subrange((k - 1) * epl, tail_end) =~= ws.subrange(
                k * epl,
                tail_end + epl,
            ));
            assert(rows[k] == tail_rows[k - 1]);
        }
        lemma_grid_rows_shape(cells.skip(epl), ws.skip(epl), maxw, epl, 0);
        assert(tail_rows.len() * epl >= n - epl);
        assert(rows.len() * epl == tail_rows.len() * epl + epl) by (nonlinear_arith)
            requires
                rows.len() == 1 + tail_rows.len(),
        ;
        assert((rows.len() - 1) * epl == (tail_rows.len() - 1) * epl + epl) by (nonlinear_arith)
            requires
                rows.len() == 1 + tail_rows.len(),
        ;
    }
}

/// Prefix sums of widths grow with the prefix.
proof fn lemma_width_sum_take_succ(ws: Seq<int>, i: int)
    requires
        0 <= i < ws.len(),
    ensures
        width_sum(ws.take(i + 1)) == width_sum(ws.take(i)) + ws[i],
{
    assert(ws.take(i + 1).drop_last() =~= ws.take(i));
    assert(ws.take(i + 1).last() == ws[i]);
}

/// Every width is bounded by the maximum.
proof fn lemma_max_width_bound(ws: Seq<int>, i: int)
    requires
        0 <= i < ws.len(),
    ensures
        ws[i] <= max_width(ws),
    decreases ws.len(),
{
    if i == ws.len() - 1 {
    } else {
        lemma_max_width_bound(ws.drop_last(), i);
        assert(ws.drop_last()[i] == ws[i]);
    }
}

/// The maximum over a prefix never exceeds the overall maximum.
proof fn lemma_max_width_take_succ(ws: Seq<int>, i: int)
    requires
        0 <= i < ws.len(),
    ensures
        max_width(ws.take(i + 1)) == if ws[i] > max_width(ws.take(i)) {
            ws[i]
        } else {
            max_width(ws.take(i))
        },
{
    assert(ws.take(i + 1).drop_last() =~= ws.take(i));
    assert(ws.take(i + 1).last() == ws[i]);
}

/// Whether the cells of the given widths, joined with two-space
/// separators, fit within `width` columns. The running total is capped
/// at the terminal width, so the sum cannot overflow.
#[verifier::loop_isolation(false)]
fn fits_one_line(widths: &Vec<u128>, width: usize) -> (r: bool)
    requires
        widths@.len() >= 1,
        forall|i: int| 0 <= i < widths@.len() ==> #[trigger] widths@[i] <= usize::MAX as u128 + 1,
    ensures
        r == (width_sum(widths@.map_values(|w: u128| w as int)) + 2 * (widths@.len() - 1)
            <= width as int),
{
    let ghost gws = widths@.map_values(|w: u128| w as int);
    let n = widths.len();
    let mut fits = true;
    let mut total: u128 = 0;
    let mut i: usize = 0;
    while i < n
        invariant
            0 <= i <= n,
            fits ==> total as int == width_sum(gws.take(i as int)) + if i > 0 {
                2 * (i as int - 1)
            } else {
                0
            },
            fits ==> total <= width as u128,
            !fits ==> i > 0 && width_sum(gws.take(i as int)) + 2 * (i as int - 1) > width as int,
        decreases n - i,
    {
        proof {
            lemma_width_sum_take_succ(gws, i as int);
        }
        if fits {
            let add: u128 = if i > 0 {
                widths[i] + 2
            } else {
                widths[i]
            };
            if total + add > width as u128 {
                fits = false;
            } else {
                total = total + add;
            }
        }
        i += 1;
    }
    proof {
        assert(gws.take(n as int) =~= gws);
    }
    fits
}

/// The widest of the given display widths.
#[verifier::loop_isolation(false)]
fn max_of_widths(widths: &Vec<u128>) -> (m: u128)
    requires
        forall|i: int| 0 <= i < widths@.len() ==> #[trigger] widths@[i] <= usize::MAX as u128 + 1,
    ensures
        m as int == max_width(widths@.map_values(|w: u128| w as int)),
        m <= usize::MAX as u128 + 1,
{
    let ghost gws = widths@.map_values(|w: u128| w as int);
    let n = widths.len();
    let mut maxw: u128 = 0;
    let mut j: usize = 0;
    while j < n
        invariant
            0 <= j <= n,
            maxw as int == max_width(gws.take(j as int)),
            maxw <= usize::MAX as u128 + 1,
        decreases n - j,
    {
        proof {
            lemma_max_width_take_succ(gws, j as int);
        }
        if widths[j] > maxw {
            maxw = widths[j];
        }
        j += 1;
    }
    proof {
        assert(gws.take(n as int) =~= gws);
    }
    maxw
}

/// Lays the display cells out as grid lines. `widths` gives each
/// cell's display width; styling escapes do not count toward it.
#[verifier::loop_isolation(false)]
#[verifier::rlimit(100)]
fn layout_grid(cells: &Vec<String>, widths: &Vec<u128>, width: usize) -> (lines: Vec<String>)
    requires
        cells@.len() == widths@.len(),
        forall|i: int| 0 <= i < widths@.len() ==> #[trigger] widths@[i] <= usize::MAX as u128 + 1,
    ensures
        lines@.map_values(|s: String| s@) == grid_lines(
            cells@.map_values(|c: String| c@),
            widths@.map_values(|w: u128| w as int),
            width as int,
        ),
{
    let ghost gcells = cells@.map_values(|c: String| c@);
    let ghost gws = widths@.map_values(|w: u128| w as int);
    let n = cells.len();
    let mut lines: Vec<String> = Vec::new();
    if n == 0 {
        proof {
            assert(lines@.map_values(|s: String| s@) =~= grid_lines(gcells, gws, width as int));
        }
        return lines;
    }
    let fits = fits_one_line(widths, width);
    if fits {
        // One line: cells joined with two-space separators.
        let mut s = String::new();
        let mut k: usize = 0;
        while k < n
            invariant
                0 <= k <= n,
                s@ == joined(gcells.take(k as int)),
            decreases n - k,
        {
            if k > 0 {
                push_char(&mut s, ' ');
                push_char(&mut s, ' ');
            }
            s.append(cells[k].as_str());
            proof {
                assert(gcells.take(k as int + 1).drop_last() =~= gcells.take(k as int));
                assert(gcells.take(k as int + 1).last() == gcells[k as int]);
                if k > 0 {
                    assert(s@ =~= joined(gcells.take(k as int)) + seq![' ', ' ']
                        + gcells[k as int]);
                } else {
                    assert(s@ =~= gcells[0int]);
                    assert(gcells.take(1int).len() == 1);
                }
            }
            k += 1;
        }
        proof {
            assert(gcells.take(n as int) =~= gcells);
        }
        lines.push(s);
        proof {
            assert(lines@.map_values(|s: String| s@) =~= seq![joined(gcells)]);
        }
        return lines;
    }
    // Column layout: the widest cell plus a two-space gutter sets the
    // column width; at least one cell goes on each row.
    let maxw = max_of_widths(widths);
    let epl0: u128 = (width as u128) / (maxw + 2);
    let epl: usize = if epl0 < 1 {
        1
    } else {
        proof {
            assert(epl0 as int <= width as int) by (nonlinear_arith)
                requires
                    epl0 as int == (width as int) / (maxw as int + 2),
                    maxw as int + 2 >= 2,
                    width as int >= 0,
            ;
        }
        epl0 as usize
    };
    let ghost gepl = epl as int;
    proof {
        assert(grid_lines(gcells, gws, width as int) == grid_rows(gcells, gws, maxw as int, gepl));
        assert forall|k: int| 0 <= k < n implies #[trigger] gws[k] <= maxw as int by {
            lemma_max_width_bound(gws, k);
        }
        assert(gcells.skip(0int) =~= gcells);
        assert(gws.skip(0int) =~= gws);
        assert(lines@.map_values(|s: String| s@) + grid_rows(gcells, gws, maxw as int, gepl)
            =~= grid_rows(gcells, gws, maxw as int, gepl));
    }
    let mut done: usize = 0;
    while done < n
        invariant
            0 <= done <= n,
            epl >= 1,
            n == gcells.len() == gws.len() == cells@.len() == widths@.len(),
            forall|k: int| 0 <= k < n ==> gws[k] == widths@[k] as int,
            forall|k: int| 0 <= k < n ==> #[trigger] gws[k] <= maxw as int,
            lines@.map_values(|s: String| s@) + grid_rows(
                gcells.skip(done as int),
                gws.skip(done as int),
                maxw as int,
                gepl,
            ) == grid_rows(gcells, gws, maxw as int, gepl),
        decreases n - done,
    {
        let end: usize = if n - done > epl {
            done + epl
        } else {
            n
        };
        let ghost rcells = gcells.subrange(done as int, end as int);
        let ghost rws = gws.subrange(done as int, end as int);
        let mut s = String::new();
        let mut k: usize = done;
        while k + 1 < end
            invariant
                done <= k < end,
                s@ == padded_cells(
                    gcells.subrange(done as int, k as int),
                    gws.subrange(done as int, k as int),
                    maxw as int,
                ),
            decreases end - k,
        {
            s.append(cells[k].as_str());
            proof {
                lemma_max_width_bound(gws, k as int);
            }
            push_spaces(&mut s, maxw - widths[k]);
            push_char(&mut s, ' ');
            push_char(&mut s, ' ');
            proof {
                let prev = gcells.subrange(done as int, k as int);
                let prevw = gws.subrange(done as int, k as int);
                let cur = gcells.subrange(done as int, k as int + 1);
                let curw = gws.subrange(done as int, k as int + 1);
                assert(cur.drop_last() =~= prev);
                assert(curw.drop_last() =~= prevw);
                assert(cur.last() == gcells[k as int]);
                assert(curw.last() == gws[k as int]);
                assert(s@ =~= padded_cells(prev, prevw, maxw as int) + gcells[k as int] + spaces(
                    maxw as int - gws[k as int],
                ) + seq![' ', ' ']);
            }
            k += 1;
        }
        s.append(cells[k].as_str());
        proof {
            assert(k == end - 1);
            assert(rcells.drop_last() =~= gcells.subrange(done as int, k as int));
            assert(rws.drop_last() =~= gws.subrange(done as int, k as int));
            assert(rcells.last() == gcells[k as int]);
            assert(s@ =~= padded_cells(rcells.drop_last(), rws.drop_last(), maxw as int)
                + rcells.last());
            assert(s@ == row_line(rcells, rws, maxw as int));
        }
        let ghost old_lines = lines@.map_values(|s: String| s@);
        lines.push(s);
        proof {
            let tail_cells = gcells.skip(done as int);
            let tail_ws = gws.skip(done as int);
            if tail_cells.len() > gepl {
                assert(tail_cells.take(gepl) =~= rcells);
                assert(tail_ws.take(gepl) =~= rws);
                assert(tail_cells.skip(gepl) =~= gcells.skip(end as int));
                assert(tail_ws.skip(gepl) =~= gws.skip(end as int));
                assert(grid_rows(tail_cells, tail_ws, maxw as int, gepl) == seq![
                    row_line(rcells, rws, maxw as int),
                ] + grid_rows(gcells.skip(end as int), gws.skip(end as int), maxw as int, gepl));
            } else {
                assert(end == n);
                assert(tail_cells =~= rcells);
                assert(tail_ws =~= rws);
                assert(grid_rows(tail_cells, tail_ws, maxw as int, gepl) == seq![
                    row_line(rcells, rws, maxw as int),
                ]);
                assert(gcells.skip(end as int).len() == 0);
                assert(grid_rows(
                    gcells.skip(end as int),
                    gws.skip(end as int),
                    maxw as int,
                    gepl,
                ) == Seq::<Seq<char>>::empty());
            }
            assert(lines@.map_values(|s: String| s@) =~= old_lines.push(s@));
            assert(old_lines.push(s@) + grid_rows(
                gcells.skip(end as int),
                gws.skip(end as int),
                maxw as int,
                gepl,
            ) =~= old_lines + grid_rows(gcells.skip(done as int), gws.skip(done as int),
            maxw as int, gepl));
        }
        done = end;
    }
    proof {
        assert(gcells.skip(n as int).len() == 0);
        assert(grid_rows(gcells.skip(n as int), gws.skip(n as int), maxw as int, gepl)
            == Seq::<Seq<char>>::empty());
        assert(lines@.map_values(|s: String| s@) + Seq::<Seq<char>>::empty() =~= lines@.map_values(
            |s: String| s@,
        ));
    }
    lines
}

/// The display width of an entry, as rendered: name length in
/// characters, plus one for a directory's trailing slash.
pub fn entry_width(e: &Entry) -> (w: u128)
    ensures
        w as int == width_of(*e),
        w <= usize::MAX as u128 + 1,
{
    let len = e.name.as_str().unicode_len();
    match e.kind {
        crate::entry::Kind::Directory => len as u128 + 1,
        _ => len as u128,
    }
}

/// The unstyled display cell of an entry.
pub fn plain_cell(e: &Entry) -> (r: String)
    ensures
        r@ == plain_cell_of(*e),
{
    let mut s = e.name.clone();
    match e.kind {
        crate::entry::Kind::Directory => {
            push_char(&mut s, '/');
            proof {
                assert(s@ =~= plain_cell_of(*e));
            }
        },
        _ => {
            proof {
                assert(s@ =~= plain_cell_of(*e));
            }
        },
    }
    s
}

/// Renders the entries as an unstyled short-format grid: exactly the
/// grid lines of their display cells at the given terminal width.
#[verifier::loop_isolation(false)]
pub fn render_entries_short_plain(entries: &Vec<Entry>, term_width: usize) -> (lines: Vec<String>)
    ensures
        lines@.map_values(|s: String| s@) == grid_lines(
            entries@.map_values(|e: Entry| plain_cell_of(e)),
            entries@.map_values(|e: Entry| width_of(e)),
            term_width as int,
        ),
{
    let mut cells: Vec<String> = Vec::new();
    let mut widths: Vec<u128> = Vec::new();
    let mut i: usize = 0;
    while i < entries.len()
        invariant
            0 <= i <= entries@.len(),
            cells@.map_values(|c: String| c@) == entries@.take(i as int).map_values(
                |e: Entry| plain_cell_of(e),
            ),
            widths@.map_values(|w: u128| w as int) == entries@.take(i as int).map_values(
                |e: Entry| width_of(e),
            ),
            cells@.len() == widths@.len() == i,
            forall|k: int| 0 <= k < i ==> #[trigger] widths@[k] <= usize::MAX as u128 + 1,
        decreases entries@.len() - i,
    {
        let ghost prev_cells = cells@;
        let ghost prev_widths = widths@;
        let c = plain_cell(&entries[i]);
        let w = entry_width(&entries[i]);
        cells.push(c);
        widths.push(w);
        proof {
            assert forall|j: int| 0 <= j < i as int + 1 implies #[trigger] entries@[j]
                == entries@[j] && cells@.map_values(|c: String| c@)[j] == entries@.take(
                i as int + 1,
            ).map_values(|e: Entry| plain_cell_of(e))[j] by {
                if j < i as int {
                    assert(cells@[j] == prev_cells[j]);
                    assert(prev_cells.map_values(|c: String| c@)[j] == entries@.take(
                        i as int,
                    ).map_values(|e: Entry| plain_cell_of(e))[j]);
                }
            }
            assert(cells@.map_values(|c: String| c@) =~= entries@.take(i as int + 1).map_values(
                |e: Entry| plain_cell_of(e),
            ));
            assert forall|j: int| 0 <= j < i as int + 1 implies #[trigger] entries@[j]
                == entries@[j] && widths@.map_values(|w: u128| w as int)[j] == entries@.take(
                i as int + 1,
            ).map_values(|e: Entry| width_of(e))[j] by {
                if j < i as int {
                    assert(widths@[j] == prev_widths[j]);
                    assert(prev_widths.map_values(|w: u128| w as int)[j] == entries@.take(
                        i as int,
                    ).map_values(|e: Entry| width_of(e))[j]);
                }
            }
            assert(widths@.map_values(|w: u128| w as int) =~= entries@.take(i as int
                + 1).map_values(|e: Entry| width_of(e)));
        }
        i += 1;
    }
    proof {
        assert(entries@.take(i as int) =~= entries@);
    }
    layout_grid(&cells, &widths, term_width)
}

/// Renders the entries as a styled short-format grid: the grid lines
/// of styled display cells — each a faithful styling of its entry —
/// laid out by the entries' unstyled display widths.
#[verifier::loop_isolation(false)]
pub fn render_entries_short(entries: &Vec<Entry>, term_width: usize) -> (lines: Vec<String>)
    ensures
        exists|cells: Seq<Seq<char>>|
            #![trigger cells.len()]
            {
                &&& cells.len() == entries@.len()
                &&& (forall|i: int|
                    0 <= i < entries@.len() && !entries@[i].name@.contains('\u{1b}')
                        ==> styled_cell_ok(entries@[i], #[trigger] cells[i]))
                &&& (forall|i: int|
                    0 <= i < entries@.len() && entries@[i].kind is File && entries@[i].mode & 0o111
                        == 0 ==> #[trigger] cells[i] == entries@[i].name@)
                &&& lines@.map_values(|s: String| s@) == grid_lines(
                    cells,
                    entries@.map_values(|e: Entry| width_of(e)),
                    term_width as int,
                )
            },
{
    let mut cells: Vec<String> = Vec::new();
    let mut widths: Vec<u128> = Vec::new();
    let mut i: usize = 0;
    while i < entries.len()
        invariant
            0 <= i <= entries@.len(),
            cells@.len() == widths@.len() == i,
            forall|k: int|
                0 <= k < i && !entries@[k].name@.contains('\u{1b}') ==> styled_cell_ok(
                    entries@[k],
                    #[trigger] cells@[k]@,
                ),
            forall|k: int|
                0 <= k < i && entries@[k].kind is File && entries@[k].mode & 0o111 == 0
                    ==> #[trigger] cells@[k]@ == entries@[k].name@,
            widths@.map_values(|w: u128| w as int) == entries@.take(i as int).map_values(
                |e: Entry| width_of(e),
            ),
            forall|k: int| 0 <= k < i ==> #[trigger] widths@[k] <= usize::MAX as u128 + 1,
        decreases entries@.len() - i,
    {
        let ghost prev_widths = widths@;
        let c = styled_cell(&entries[i]);
        let w = entry_width(&entries[i]);
        cells.push(c);
        widths.push(w);
        proof {
            assert forall|j: int| 0 <= j < i as int + 1 implies #[trigger] entries@[j]
                == entries@[j] && widths@.map_values(|w: u128| w as int)[j] == entries@.take(
                i as int + 1,
            ).map_values(|e: Entry| width_of(e))[j] by {
                if j < i as int {
                    assert(widths@[j] == prev_widths[j]);
                    assert(prev_widths.map_values(|w: u128| w as int)[j] == entries@.take(
                        i as int,
                    ).map_values(|e: Entry| width_of(e))[j]);
                }
            }
            assert(widths@.map_values(|w: u128| w as int) =~= entries@.take(i as int
                + 1).map_values(|e: Entry| width_of(e)));
        }
        i += 1;
    }
    proof {
        assert(entries@.take(i as int) =~= entries@);
    }
    let lines = layout_grid(&cells, &widths, term_width);
    proof {
        let gcells = cells@.map_values(|c: String| c@);
        assert(gcells.len() == entries@.len());
        assert forall|k: int|
            0 <= k < entries@.len() && !entries@[k].name@.contains(
                '\u{1b}',
            ) implies styled_cell_ok(entries@[k], #[trigger] gcells[k]) by {
            assert(gcells[k] == cells@[k]@);
        }
        assert forall|k: int|
            0 <= k < entries@.len() && entries@[k].kind is File && entries@[k].mode & 0o111
                == 0 implies #[trigger] gcells[k] == entries@[k].name@ by {
            assert(gcells[k] == cells@[k]@);
        }
    }
    lines
}

/// Relies on terminal_size::terminal_size: the current terminal's
/// width in columns, when one can be determined.
#[verifier::external_body]
fn query_terminal_width() -> (r: Option<u16>)
{
    terminal_size::terminal_size().map(|size| size.0.0)
}

/// The width to lay grids out against, given what the terminal query
/// returned: the queried width when there is one, and the documented
/// fallback of 80 columns when the width could not be determined.
pub fn width_or_default(queried: Option<u16>) -> (r: usize)
    ensures
        queried is Some ==> r == queried->0 as usize,
        queried is None ==> r == 80,
{
    match queried {
        Some(w) => w as usize,
        None => 80,
    }
}

/// The terminal width to lay grids out against: the queried width, or
/// 80 columns when it cannot be determined. The query's outcome depends
/// on the terminal, so this promises only what holds either way; the
/// fallback rule itself is the contract of `width_or_default`.
pub fn terminal_width() -> (r: usize)
    ensures
        r <= u16::MAX as usize,
{
    width_or_default(query_terminal_width())
}

} // verus!

