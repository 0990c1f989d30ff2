//! The long format: one line per entry with right-aligned owner,
//! group and size columns, each padded to that column's widest value
//! across the whole batch, then the entry's name; symlinks show
//! `name -> target`.

use vstd::prelude::*;

verus! {

use crate::entry::Entry;
use crate::grid::plain_cell_of;
use crate::size::{format_size, size_str};
use crate::style::{styled_cell, styled_cell_ok};
use crate::text::{push_char, push_spaces, spaces};
use vstd::string::{StrSliceExecFns, StringExecFns};

/// An entry enriched for the long format: the resolved owner and group
/// names, the human-readable size, and for symlinks the link target.
#[derive(Debug)]
pub struct LongEntry {
    pub entry: Entry,
    pub owner: String,
    pub group: String,
    pub size: String,
    pub link_target: Option<String>,
}

/// A well-formed long entry carries a link target exactly when it is a
/// symlink.
pub open spec fn long_wf(le: LongEntry) -> bool {
    le.link_target is Some <==> le.entry.kind is Symlink
}

impl LongEntry {
    /// Enriches an entry with its resolved owner and group names and
    /// its link target; the size string is computed from the entry's
    /// byte count.
    pub fn new(entry: Entry, owner: String, group: String, link_target: Option<String>) -> (r:
        LongEntry)
        requires
            link_target is Some <==> entry.kind is Symlink,
        ensures
            r.entry == entry,
            r.owner == owner,
            r.group == group,
            r.size@ == size_str(entry.size as int),
            r.link_target == link_target,
            long_wf(r),
    {
        let size = format_size(entry.size);
        LongEntry { entry, owner, group, size, link_target }
    }
}

/// The unstyled name cell of a long-format line: symlinks render as
/// `name -> target`; everything else renders as in the short format.
pub open spec fn long_cell_of(le: LongEntry) -> Seq<char> {
    if le.entry.kind is Symlink {
        le.entry.name@ + seq![' ', '-', '>', ' '] + le.link_target->0@
    } else {
        plain_cell_of(le.entry)
    }
}

/// The largest length among the sequences, or zero when there are none.
pub open spec fn max_len(ss: Seq<Seq<char>>) -> int
    decreases ss.len(),
{
    if ss.len() == 0 {
        0
    } else if ss.last().len() > max_len(ss.drop_last()) {
        ss.last().len() as int
    } else {
        max_len(ss.drop_last())
    }
}

/// One long-format line: each field right-aligned in its column, a
/// single space between columns, then the name cell.
pub open spec fn long_line_of(
    owner: Seq<char>,
    group: Seq<char>,
    size: Seq<char>,
    cell: Seq<char>,
    maxo: int,
    maxg: int,
    maxs: int,
) -> Seq<char> {
    spaces(maxo - owner.len()) + owner + seq![' '] + spaces(maxg - group.len()) + group + seq![' ']
        + spaces(maxs - size.len()) + size + seq![' '] + cell
}

/// The owner names of a batch.
pub open spec fn owners_of(les: Seq<LongEntry>) -> Seq<Seq<char>> {
    les.map_values(|le: LongEntry| le.owner@)
}

/// The group names of a batch.
pub open spec fn groups_of(les: Seq<LongEntry>) -> Seq<Seq<char>> {
    les.map_values(|le: LongEntry| le.group@)
}

/// The size strings of a batch.
pub open spec fn sizes_of(les: Seq<LongEntry>) -> Seq<Seq<char>> {
    les.map_values(|le: LongEntry| le.size@)
}

/// The long-format lines of a batch, given its name cells: each field
/// padded to the widest value of that field over the whole batch,
/// independent of the other fields.
pub open spec fn long_lines(les: Seq<LongEntry>, cells: Seq<Seq<char>>) -> Seq<Seq<char>> {
    let maxo = max_len(owners_of(les));
    let maxg = max_len(groups_of(les));
    let maxs = max_len(sizes_of(les));
    Seq::new(
        les.len(),
        |i: int|
            long_line_of(les[i].owner@, les[i].group@, les[i].size@, cells[i], maxo, maxg, maxs),
    )
}

/// In the long format a symlink's name cell is exactly
/// `name -> target`, and no other kind's cell carries an arrow: it is
/// the name alone, with a slash after a directory.
pub proof fn lemma_long_cell_arrow(le: LongEntry)
    ensures
        le.entry.kind is Symlink ==> long_cell_of(le) == le.entry.name@ + seq![' ', '-', '>', ' ']
            + le.link_target->0@,
        !(le.entry.kind is Symlink) ==> long_cell_of(le) == le.entry.name@ + crate::style::kind_suffix(
            le.entry.kind,
        ),
{
}

/// Every length is bounded by the batch maximum.
proof fn lemma_max_len_bound(ss: Seq<Seq<char>>, i: int)
    requires
        0 <= i < ss.len(),
    ensures
        ss[i].len() <= max_len(ss),
    decreases ss.len(),
{
    if i == ss.len() - 1 {
    } else {
        lemma_max_len_bound(ss.drop_last(), i);
        assert(ss.drop_last()[i] == ss[i]);
    }
}

/// The maximum over a prefix, extended by one element.
proof fn lemma_max_len_take_succ(ss: Seq<Seq<char>>, i: int)
    requires
        0 <= i < ss.len(),
    ensures
        max_len(ss.take(i + 1)) == if ss[i].len() > max_len(ss.take(i)) {
            ss[i].len() as int
        } else {
            max_len(ss.take(i))
        },
{
    assert(ss.take(i + 1).drop_last() =~= ss.take(i));
    assert(ss.take(i + 1).last() == ss[i]);
}

/// Lays the batch out as long-format lines, one per entry, against
/// the given name cells.
#[verifier::loop_isolation(false)]
#[verifier::rlimit(60)]
fn layout_long(les: &Vec<LongEntry>, cells: &Vec<String>) -> (lines: Vec<String>)
    requires
        cells@.len() == les@.len(),
    ensures
        lines@.map_values(|s: String| s@) == long_lines(
            les@,
            cells@.map_values(|c: String| c@),
        ),
{
    let ghost gowners = owners_of(les@);
    let ghost ggroups = groups_of(les@);
    let ghost gsizes = sizes_of(les@);
    let ghost gcells = cells@.map_values(|c: String| c@);
    let n = les.len();
    let mut maxo: usize = 0;
    let mut maxg: usize = 0;
    let mut maxs: usize = 0;
    let mut i: usize = 0;
    while i < n
        invariant
            0 <= i <= n,
            maxo as int == max_len(gowners.take(i as int)),
            maxg as int == max_len(ggroups.take(i as int)),
            maxs as int == max_len(gsizes.take(i as int)),
        decreases n - i,
    {
        proof {
            lemma_max_len_take_succ(gowners, i as int);
            lemma_max_len_take_succ(ggroups, i as int);
            lemma_max_len_take_succ(gsizes, i as int);
        }
        let lo = les[i].owner.as_str().unicode_len();
        if lo > maxo {
            maxo = lo;
        }
        let lg = les[i].group.as_str().unicode_len();
        if lg > maxg {
            maxg = lg;
        }
        let ls = les[i].size.as_str().unicode_len();
        if ls > maxs {
            maxs = ls;
        }
        i += 1;
    }
    proof {
        assert(gowners.take(i as int) =~= gowners);
        assert(ggroups.take(i as int) =~= ggroups);
        assert(gsizes.take(i as int) =~= gsizes);
    }
    let mut lines: Vec<String> = Vec::new();
    let mut k: usize = 0;
    while k < n
        invariant
            0 <= k <= n,
            lines@.len() == k,
            forall|j: int| 0 <= j < k ==> #[trigger] lines@[j]@ == long_lines(les@, gcells)[j],
        decreases n - k,
    {
        proof {
            lemma_max_len_bound(gowners, k as int);
            lemma_max_len_bound(ggroups, k as int);
            lemma_max_len_bound(gsizes, k as int);
        }
        let mut s = String::new();
        let lo = les[k].owner.as_str().unicode_len();
        push_spaces(&mut s, (maxo - lo) as u128);
        s.append(les[k].owner.as_str());
        push_char(&mut s, ' ');
        let lg = les[k].group.as_str().unicode_len();
        push_spaces(&mut s, (maxg - lg) as u128);
        s.append(les[k].group.as_str());
        push_char(&mut s, ' ');
        let ls = les[k].size.as_str().unicode_len();
        push_spaces(&mut s, (maxs - ls) as u128);
        s.append(les[k].size.as_str());
        push_char(&mut s, ' ');
        s.append(cells[k].as_str());
        proof {
            assert(s@ =~= long_line_of(
                les@[k as int].owner@,
                les@[k as int].group@,
                les@[k as int].size@,
                gcells[k as int],
                maxo as int,
                maxg as int,
                maxs as int,
            ));
        }
        lines.push(s);
        k += 1;
    }
    proof {
        assert(lines@.map_values(|s: String| s@) =~= long_lines(les@, gcells));
    }
    lines
}

/// Renders the batch as unstyled long-format lines: exactly the lines
/// of `long_lines` over the entries' unstyled name cells.
#[verifier::loop_isolation(false)]
pub fn render_entries_long_plain(entries: &Vec<LongEntry>) -> (lines: Vec<String>)
    requires
        forall|i: int| 0 <= i < entries@.len() ==> long_wf(#[trigger] entries@[i]),
    ensures
        lines@.map_values(|s: String| s@) == long_lines(
            entries@,
            entries@.map_values(|le: LongEntry| long_cell_of(le)),
        ),
{
    let mut cells: Vec<String> = Vec::new();
    let mut i: usize = 0;
    while i < entries.len()
        invariant
            0 <= i <= entries@.len(),
            cells@.len() == i,
            forall|j: int| 0 <= j < i ==> #[trigger] cells@[j]@ == long_cell_of(entries@[j]),
        decreases entries@.len() - i,
    {
        let c = long_cell_plain(&entries[i]);
        cells.push(c);
        i += 1;
    }
    let lines = layout_long(entries, &cells);
    proof {
        assert(cells@.map_values(|c: String| c@) =~= entries@.map_values(
            |le: LongEntry| long_cell_of(le),
        ));
    }
    lines
}

/// Renders the batch as styled long-format lines: the lines of
/// `long_lines` over styled name cells, each a faithful presentation
/// of its entry.
#[verifier::loop_isolation(false)]
pub fn render_entries_long(entries: &Vec<LongEntry>) -> (lines: Vec<String>)
    requires
        forall|i: int| 0 <= i < entries@.len() ==> long_wf(#[trigger] entries@[i]),
    ensures
        exists|cells: Seq<Seq<char>>|
            #![trigger cells.len()]
            {
                &&& cells.len() == entries@.len()
                &&& (forall|i: int|
                    0 <= i < entries@.len() && !entries@[i].entry.name@.contains('\u{1b}')
                        ==> long_styled_cell_ok(entries@[i], #[trigger] cells[i]))
                &&& lines@.map_values(|s: String| s@) == long_lines(entries@, cells)
            },
{
    let mut cells: Vec<String> = Vec::new();
    let mut i: usize = 0;
    while i < entries.len()
        invariant
            0 <= i <= entries@.len(),
            cells@.len() == i,
            forall|j: int|
                0 <= j < i && !entries@[j].entry.name@.contains('\u{1b}')
                    ==> long_styled_cell_ok(entries@[j], #[trigger] cells@[j]@),
        decreases entries@.len() - i,
    {
        let c = long_cell_styled(&entries[i]);
        cells.push(c);
        i += 1;
    }
    let lines = layout_long(entries, &cells);
    proof {
        let gcells = cells@.map_values(|c: String| c@);
        assert(gcells.len() == entries@.len());
        assert forall|j: int|
            0 <= j < entries@.len() && !entries@[j].entry.name@.contains(
                '\u{1b}',
            ) implies long_styled_cell_ok(entries@[j], #[trigger] gcells[j]) by {
            assert(gcells[j] == cells@[j]@);
        }
    }
    lines
}

/// The unstyled name cell of a long entry.
pub fn long_cell_plain(le: &LongEntry) -> (r: String)
    requires
        long_wf(*le),
    ensures
        r@ == long_cell_of(*le),
{
    match le.entry.kind {
        crate::entry::Kind::Symlink => {
            let mut s = le.entry.name.clone();
            push_char(&mut s, ' ');
            push_char(&mut s, '-');
            push_char(&mut s, '>');
            push_char(&mut s, ' ');
            match &le.link_target {
                Some(t) => {
                    s.append(t.as_str());
                },
                None => {
                    proof {
                        assert(false);
                    }
                },
            }
            proof {
                assert(s@ =~= long_cell_of(*le));
            }
            s
        },
        _ => {
            let s = crate::grid::plain_cell(&le.entry);
            proof {
                assert(s@ == long_cell_of(*le));
            }
            s
        },
    }
}

/// The styled name cell of a long entry: the short-format styled cell,
/// with ` -> target` appended for a symlink.
fn long_cell_styled(le: &LongEntry) -> (r: String)
    requires
        long_wf(*le),
    ensures
        !le.entry.name@.contains('\u{1b}') ==> long_styled_cell_ok(*le, r@),
{
    let mut s = styled_cell(&le.entry);
    match le.entry.kind {
        crate::entry::Kind::Symlink => {
            let ghost base = s@;
            push_char(&mut s, ' ');
            push_char(&mut s, '-');
            push_char(&mut s, '>');
            push_char(&mut s, ' ');
            match &le.link_target {
                Some(t) => {
                    s.append(t.as_str());
                },
                None => {
                    proof {
                        assert(false);
                    }
                },
            }
            proof {
                if !le.entry.name@.contains('\u{1b}') {
                    assert(s@ =~= base + seq![' ', '-', '>', ' '] + le.link_target->0@);
                }
            }
            s
        },
        _ => s,
    }
}

/// Whether a rendered long-format name cell presents the entry
/// faithfully: a faithful styled cell, with ` -> target` appended for
/// a symlink.
pub open spec fn long_styled_cell_ok(le: LongEntry, cell: Seq<char>) -> bool {
    if le.entry.kind is Symlink {
        exists|base: Seq<char>|
            styled_cell_ok(le.entry, base) && cell == base + seq![' ', '-', '>', ' ']
                + le.link_target->0@
    } else {
        styled_cell_ok(le.entry, cell)
    }
}

} // verus!
