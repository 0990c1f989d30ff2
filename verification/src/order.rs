//! The total order over entries and the sort that applies it:
//! directories first, then symlinks, then files; within a kind,
//! case-insensitive name order, with the exact name breaking ties.

use vstd::prelude::*;

verus! {

use crate::entry::{Entry, Kind};
use vstd::string::StrSliceExecFns;

/// The position of a kind in the listing order: directories first,
/// then symlinks, then files.
pub open spec fn kind_rank(k: Kind) -> int {
    match k {
        Kind::Directory => 0,
        Kind::Symlink => 1,
        Kind::File => 2,
    }
}

/// The lowercase form of a string, as `str::to_lowercase` computes it.
pub uninterp spec fn lower_of(s: Seq<char>) -> Seq<char>;

/// Relies on str::to_lowercase: the lowercase form depends on the
/// characters alone.
#[verifier::external_body]
fn lowercase(s: &str) -> (r: String)
    ensures
        r@ == lower_of(s@),
{
    s.to_lowercase()
}

/// Strict lexicographic order on character sequences, by code point.
pub open spec fn chars_lt(a: Seq<char>, b: Seq<char>) -> bool
    decreases a.len(),
{
    if b.len() == 0 {
        false
    } else if a.len() == 0 {
        true
    } else if (a[0] as int) < (b[0] as int) {
        true
    } else if a[0] == b[0] {
        chars_lt(a.drop_first(), b.drop_first())
    } else {
        false
    }
}

/// Lexicographic order is asymmetric.
pub proof fn lemma_chars_lt_asym(a: Seq<char>, b: Seq<char>)
    ensures
        chars_lt(a, b) ==> !chars_lt(b, a),
    decreases a.len(),
{
    if a.len() > 0 && b.len() > 0 && a[0] == b[0] {
        lemma_chars_lt_asym(a.drop_first(), b.drop_first());
    }
}

/// Lexicographic order is transitive.
pub proof fn lemma_chars_lt_trans(a: Seq<char>, b: Seq<char>, c: Seq<char>)
    ensures
        chars_lt(a, b) && chars_lt(b, c) ==> chars_lt(a, c),
    decreases a.len(),
{
    if a.len() > 0 && b.len() > 0 && c.len() > 0 && a[0] == b[0] && b[0] == c[0] {
        lemma_chars_lt_trans(a.drop_first(), b.drop_first(), c.drop_first());
    }
}

/// Two sequences neither of which precedes the other are equal.
pub proof fn lemma_chars_lt_connected(a: Seq<char>, b: Seq<char>)
    ensures
        !chars_lt(a, b) && !chars_lt(b, a) ==> a == b,
    decreases a.len(),
{
    if !chars_lt(a, b) && !chars_lt(b, a) {
        if a.len() == 0 || b.len() == 0 {
            assert(a =~= b);
        } else {
            assert(a[0] == b[0]);
            lemma_chars_lt_connected(a.drop_first(), b.drop_first());
            assert(a.drop_first() == b.drop_first());
            assert(a.len() == b.len());
            assert forall|k: int| 0 <= k < a.len() implies a[k] == b[k] by {
                if k > 0 {
                    assert(a[k] == a.drop_first()[k - 1]);
                    assert(b[k] == b.drop_first()[k - 1]);
                }
            }
            assert(a =~= b);
        }
    }
}

/// Strict order over entries: by kind rank, then by the lowercase
/// name, then by the exact name.
pub open spec fn entry_lt(a: Entry, b: Entry) -> bool {
    let ra = kind_rank(a.kind);
    let rb = kind_rank(b.kind);
    if ra != rb {
        ra < rb
    } else {
        let la = lower_of(a.name@);
        let lb = lower_of(b.name@);
        if chars_lt(la, lb) {
            true
        } else if chars_lt(lb, la) {
            false
        } else {
            chars_lt(a.name@, b.name@)
        }
    }
}

/// Non-strict order over entries: `a` need not come after `b`.
pub open spec fn entry_le(a: Entry, b: Entry) -> bool {
    !entry_lt(b, a)
}

/// The entry order is asymmetric.
pub proof fn lemma_entry_lt_asym(a: Entry, b: Entry)
    ensures
        entry_lt(a, b) ==> !entry_lt(b, a),
{
    lemma_chars_lt_asym(lower_of(a.name@), lower_of(b.name@));
    lemma_chars_lt_asym(a.name@, b.name@);
}

/// The non-strict entry order is total.
pub proof fn lemma_entry_le_total(a: Entry, b: Entry)
    ensures
        entry_le(a, b) || entry_le(b, a),
{
    lemma_entry_lt_asym(a, b);
    lemma_entry_lt_asym(b, a);
}

/// The non-strict entry order is transitive.
pub proof fn lemma_entry_le_trans(a: Entry, b: Entry, c: Entry)
    ensures
        entry_le(a, b) && entry_le(b, c) ==> entry_le(a, c),
{
    let la = lower_of(a.name@);
    let lb = lower_of(b.name@);
    let lc = lower_of(c.name@);
    lemma_chars_lt_trans(la, lb, lc);
    lemma_chars_lt_trans(lc, lb, la);
    lemma_chars_lt_trans(lb, la, lc);
    lemma_chars_lt_trans(lc, la, lb);
    lemma_chars_lt_trans(la, lc, lb);
    lemma_chars_lt_trans(lb, lc, la);
    lemma_chars_lt_connected(la, lb);
    lemma_chars_lt_connected(lb, lc);
    lemma_chars_lt_connected(la, lc);
    lemma_chars_lt_trans(a.name@, b.name@, c.name@);
    lemma_chars_lt_trans(c.name@, b.name@, a.name@);
    lemma_chars_lt_trans(b.name@, a.name@, c.name@);
    lemma_chars_lt_trans(c.name@, a.name@, b.name@);
    lemma_chars_lt_trans(a.name@, c.name@, b.name@);
    lemma_chars_lt_trans(b.name@, c.name@, a.name@);
    lemma_chars_lt_connected(a.name@, b.name@);
    lemma_chars_lt_connected(b.name@, c.name@);
    lemma_chars_lt_connected(a.name@, c.name@);
    lemma_chars_lt_asym(a.name@, b.name@);
    lemma_chars_lt_asym(b.name@, c.name@);
    lemma_chars_lt_asym(a.name@, c.name@);
}

/// Whether a sequence of entries is sorted by the entry order.
pub open spec fn entries_sorted(s: Seq<Entry>) -> bool {
    forall|i: int, j: int| 0 <= i < j < s.len() ==> entry_le(#[trigger] s[i], #[trigger] s[j])
}

/// Stable insertion of an entry into a sorted sequence: the entry
/// lands after every element it does not strictly precede.
pub open spec fn insert_sorted(s: Seq<Entry>, x: Entry) -> Seq<Entry>
    decreases s.len(),
{
    if s.len() == 0 {
        seq![x]
    } else if entry_lt(x, s.last()) {
        insert_sorted(s.drop_last(), x).push(s.last())
    } else {
        s.push(x)
    }
}

/// Stable insertion sort over entries: each element in turn is
/// inserted into the sorted prefix.
pub open spec fn sort_entries_spec(s: Seq<Entry>) -> Seq<Entry>
    decreases s.len(),
{
    if s.len() == 0 {
        s
    } else {
        insert_sorted(sort_entries_spec(s.drop_last()), s.last())
    }
}

/// Insertion adds exactly the inserted entry to the contents.
pub proof fn lemma_insert_sorted_multiset(s: Seq<Entry>, x: Entry)
    ensures
        insert_sorted(s, x).to_multiset() == s.to_multiset().insert(x),
    decreases s.len(),
{
    broadcast use vstd::seq_lib::group_to_multiset_ensures;

    if s.len() == 0 {
        assert(seq![x] =~= Seq::<Entry>::empty().push(x));
        assert(s =~= Seq::<Entry>::empty());
        assert(insert_sorted(s, x).to_multiset() =~= s.to_multiset().insert(x));
    } else if entry_lt(x, s.last()) {
        lemma_insert_sorted_multiset(s.drop_last(), x);
        assert(s =~= s.drop_last().push(s.last()));
        assert(s.to_multiset() == s.drop_last().push(s.last()).to_multiset());
        assert(insert_sorted(s, x).to_multiset() =~= s.to_multiset().insert(x));
    } else {
        assert(insert_sorted(s, x).to_multiset() =~= s.to_multiset().insert(x));
    }
}

/// Insertion into a sorted sequence yields a sorted sequence.
pub proof fn lemma_insert_sorted_sorted(s: Seq<Entry>, x: Entry)
    requires
        entries_sorted(s),
    ensures
        entries_sorted(insert_sorted(s, x)),
    decreases s.len(),
{
    broadcast use vstd::seq_lib::group_to_multiset_ensures;
    broadcast use vstd::multiset::group_multiset_axioms;

    let r = insert_sorted(s, x);
    if s.len() == 0 {
        assert(entries_sorted(r));
    } else if entry_lt(x, s.last()) {
        let inner = insert_sorted(s.drop_last(), x);
        lemma_insert_sorted_sorted(s.drop_last(), x);
        lemma_insert_sorted_multiset(s.drop_last(), x);
        assert forall|i: int, j: int| 0 <= i < j < r.len() implies entry_le(r[i], r[j]) by {
            if j < inner.len() {
                assert(entry_le(inner[i], inner[j]));
            } else {
                assert(r[j] == s.last());
                let e = inner[i];
                assert(inner.contains(e));
                assert(inner.to_multiset().count(e) > 0);
                assert(s.drop_last().to_multiset().insert(x).count(e) > 0);
                if e == x {
                    lemma_entry_lt_asym(x, s.last());
                    assert(entry_le(e, s.last()));
                } else {
                    assert(s.drop_last().to_multiset().count(e) > 0);
                    assert(s.drop_last().contains(e));
                    let k = choose|k: int|
                        0 <= k < s.drop_last().len() && s.drop_last()[k] == e;
                    assert(s[k] == e);
                    assert(entry_le(s[k], s[s.len() - 1]));
                }
            }
        }
    } else {
        assert(entry_le(s.last(), x));
        assert forall|i: int, j: int| 0 <= i < j < r.len() implies entry_le(r[i], r[j]) by {
            if j < s.len() {
                assert(entry_le(s[i], s[j]));
            } else {
                assert(r[j] == x);
                if i == s.len() - 1 {
                    assert(entry_le(r[i], x));
                } else {
                    assert(entry_le(s[i], s[s.len() - 1]));
                    lemma_entry_le_trans(s[i], s.last(), x);
                }
            }
        }
    }
}

/// The sort yields a sorted sequence.
pub proof fn lemma_sort_sorted(s: Seq<Entry>)
    ensures
        entries_sorted(sort_entries_spec(s)),
    decreases s.len(),
{
    if s.len() > 0 {
        lemma_sort_sorted(s.drop_last());
        lemma_insert_sorted_sorted(sort_entries_spec(s.drop_last()), s.last());
    }
}

/// The sort keeps exactly the entries it was given.
pub proof fn lemma_sort_multiset(s: Seq<Entry>)
    ensures
        sort_entries_spec(s).to_multiset() == s.to_multiset(),
    decreases s.len(),
{
    broadcast use vstd::seq_lib::group_to_multiset_ensures;

    if s.len() > 0 {
        lemma_sort_multiset(s.drop_last());
        lemma_insert_sorted_multiset(sort_entries_spec(s.drop_last()), s.last());
        assert(s =~= s.drop_last().push(s.last()));
        assert(s.to_multiset() == s.drop_last().push(s.last()).to_multiset());
    }
}

/// Insertion is stable: the inserted entry splits the sequence at one
/// position, before exactly the entries it strictly precedes — so it
/// lands after every entry whose key equals its own, and the sort
/// never swaps entries with equal keys.
pub proof fn lemma_insert_sorted_position(s: Seq<Entry>, x: Entry)
    ensures
        exists|p: int|
            #![trigger s.take(p)]
            {
                &&& 0 <= p <= s.len()
                &&& insert_sorted(s, x) == s.take(p) + seq![x] + s.skip(p)
                &&& (forall|k: int| p <= k < s.len() ==> entry_lt(x, #[trigger] s[k]))
                &&& (p > 0 ==> !entry_lt(x, s[p - 1]))
            },
    decreases s.len(),
{
    if s.len() == 0 {
        assert(insert_sorted(s, x) =~= s.take(0int) + seq![x] + s.skip(0int));
        assert(s.take(0int) == s.take(0int));
    } else if entry_lt(x, s.last()) {
        lemma_insert_sorted_position(s.drop_last(), x);
        let d = s.drop_last();
        let p = choose|p: int|
            #![trigger d.take(p)]
            {
                &&& 0 <= p <= d.len()
                &&& insert_sorted(d, x) == d.take(p) + seq![x] + d.skip(p)
                &&& (forall|k: int| p <= k < d.len() ==> entry_lt(x, #[trigger] d[k]))
                &&& (p > 0 ==> !entry_lt(x, d[p - 1]))
            };
        assert(d.take(p) =~= s.take(p));
        assert((d.take(p) + seq![x] + d.skip(p)).push(s.last()) =~= s.take(p) + seq![x] + s.skip(
            p,
        ));
        assert(insert_sorted(s, x) == s.take(p) + seq![x] + s.skip(p));
        assert forall|k: int| p <= k < s.len() implies entry_lt(x, #[trigger] s[k]) by {
            if k < s.len() - 1 {
                assert(d[k] == s[k]);
            }
        }
        assert(p > 0 ==> !entry_lt(x, s[p - 1]));
        assert(s.take(p) == s.take(p));
    } else {
        let p = s.len() as int;
        assert(insert_sorted(s, x) =~= s.take(p) + seq![x] + s.skip(p));
        assert(!entry_lt(x, s[p - 1]));
        assert(s.take(p) == s.take(p));
    }
}

/// In a sorted listing, kinds appear in rank order; within a kind the
/// lowercase names do not decrease, and where even those agree the
/// exact names do not decrease.
pub proof fn lemma_sorted_order(s: Seq<Entry>, i: int, j: int)
    requires
        entries_sorted(s),
        0 <= i < j < s.len(),
    ensures
        kind_rank(s[i].kind) <= kind_rank(s[j].kind),
        s[i].kind == s[j].kind ==> !chars_lt(lower_of(s[j].name@), lower_of(s[i].name@)),
        s[i].kind == s[j].kind && lower_of(s[i].name@) == lower_of(s[j].name@) ==> !chars_lt(
            s[j].name@,
            s[i].name@,
        ),
{
    assert(entry_le(s[i], s[j]));
    lemma_chars_lt_asym(lower_of(s[i].name@), lower_of(s[j].name@));
}

fn rank_of(k: Kind) -> (r: u8)
    ensures
        r as int == kind_rank(k),
{
    match k {
        Kind::Directory => 0,
        Kind::Symlink => 1,
        Kind::File => 2,
    }
}

/// Decides the strict lexicographic order on two strings.
fn str_lt(a: &str, b: &str) -> (r: bool)
    ensures
        r == chars_lt(a@, b@),
    decreases a@.len(),
{
    let bl = b.unicode_len();
    let al = a.unicode_len();
    if bl == 0 {
        false
    } else if al == 0 {
        true
    } else {
        let ca = a.get_char(0);
        let cb = b.get_char(0);
        if (ca as u32) < (cb as u32) {
            true
        } else if ca == cb {
            let ra = a.substring_char(1, al);
            let rb = b.substring_char(1, bl);
            proof {
                assert(ra@ =~= a@.drop_first());
                assert(rb@ =~= b@.drop_first());
            }
            str_lt(ra, rb)
        } else {
            proof {
                assert((ca as int) != (cb as int));
            }
            false
        }
    }
}

/// Decides the strict entry order.
fn entry_lt_exec(a: &Entry, b: &Entry) -> (r: bool)
    ensures
        r == entry_lt(*a, *b),
{
    let ra = rank_of(a.kind);
    let rb = rank_of(b.kind);
    if ra != rb {
        ra < rb
    } else {
        let la = lowercase(a.name.as_str());
        let lb = lowercase(b.name.as_str());
        if str_lt(la.as_str(), lb.as_str()) {
            true
        } else if str_lt(lb.as_str(), la.as_str()) {
            false
        } else {
            str_lt(a.name.as_str(), b.name.as_str())
        }
    }
}

/// Sorts the entries: directories first, then symlinks, then files;
/// within a kind, case-insensitive name order with the exact name
/// breaking ties. The sort is the stable insertion sort that
/// `sort_entries_spec` describes, so entries with equal keys keep
/// their relative order.
pub fn sort_entries(entries: &mut Vec<Entry>)
    ensures
        final(entries)@ == sort_entries_spec(old(entries)@),
{
    let ghost orig = old(entries)@;
    if entries.len() == 0 {
        return ;
    }
    let mut i: usize = 1;
    proof {
        assert(entries@.take(1int) =~= sort_entries_spec(orig.take(1int))) by {
            assert(orig.take(1int).drop_last() =~= Seq::<Entry>::empty());
            assert(sort_entries_spec(Seq::<Entry>::empty()) =~= Seq::<Entry>::empty());
            assert(orig.take(1int).last() == orig[0]);
            assert(sort_entries_spec(orig.take(1int)) == insert_sorted(
                Seq::<Entry>::empty(),
                orig[0],
            ));
            assert(insert_sorted(Seq::<Entry>::empty(), orig[0]) =~= seq![orig[0]]);
            assert(entries@.take(1int) =~= seq![orig[0]]);
        }
    }
    while i < entries.len()
        invariant
            1 <= i <= entries@.len(),
            entries@.len() == orig.len(),
            entries@.skip(i as int) == orig.skip(i as int),
            entries@.take(i as int) == sort_entries_spec(orig.take(i as int)),
        decreases entries@.len() - i,
    {
        let ghost p = entries@.take(i as int);
        let ghost x = orig[i as int];
        proof {
            assert(entries@[i as int] == orig.skip(i as int)[0]);
            assert(entries@[i as int] == x);
            assert(insert_sorted(p.take(i as int), x) + p.skip(i as int) =~= insert_sorted(
                p,
                x,
            )) by {
                assert(p.take(i as int) =~= p);
                assert(p.skip(i as int) =~= Seq::<Entry>::empty());
            }
        }
        let mut j: usize = i;
        while j > 0 && entry_lt_exec(&entries[i], &entries[j - 1])
            invariant
                0 <= j <= i < entries@.len(),
                entries@.take(i as int) == p,
                entries@[i as int] == x,
                insert_sorted(p, x) == insert_sorted(p.take(j as int), x) + p.skip(j as int),
            decreases j,
        {
            proof {
                assert(entries@[j - 1] == p[j - 1]);
                let q = p.take(j as int);
                assert(q.last() == p[j - 1]);
                assert(entry_lt(x, q.last()));
                assert(q.drop_last() =~= p.take(j as int - 1));
                assert(insert_sorted(q, x) == insert_sorted(p.take(j as int - 1), x).push(
                    p[j - 1],
                ));
                assert(insert_sorted(p.take(j as int - 1), x).push(p[j - 1]) + p.skip(j as int)
                    =~= insert_sorted(p.take(j as int - 1), x) + p.skip(j as int - 1));
            }
            j -= 1;
        }
        proof {
            if j == 0 {
                assert(p.take(0int) =~= Seq::<Entry>::empty());
                assert(insert_sorted(p.take(0int), x) =~= seq![x]);
                assert(insert_sorted(p, x) =~= seq![x] + p.skip(0int));
                assert(p.skip(0int) =~= p);
            } else {
                assert(entries@[j - 1] == p[j - 1]);
                let q = p.take(j as int);
                assert(q.last() == p[j - 1]);
                assert(!entry_lt(x, q.last()));
                assert(q.len() > 0);
                assert(insert_sorted(q, x) == q.push(x));
            }
            assert(insert_sorted(p, x) =~= p.take(j as int) + seq![x] + p.skip(j as int));
        }
        let ghost before = entries@;
        proof {
            assert(before =~= p + seq![x] + orig.skip(i as int + 1)) by {
                assert forall|k: int| 0 <= k < before.len() implies before[k] == (p + seq![x]
                    + orig.skip(i as int + 1))[k] by {
                    if k < i {
                        assert(before[k] == before.take(i as int)[k]);
                    } else if k > i {
                        assert(before[k] == before.skip(i as int)[k - i]);
                        assert(orig.skip(i as int)[k - i] == orig[k]);
                        assert(orig.skip(i as int + 1)[k - i - 1] == orig[k]);
                    }
                }
            }
        }
        let moved = entries.remove(i);
        proof {
            assert(moved == x);
            assert(entries@ =~= p + orig.skip(i as int + 1));
        }
        entries.insert(j, moved);
        proof {
            let now = entries@;
            assert(now =~= p.take(j as int) + seq![x] + p.skip(j as int) + orig.skip(i as int + 1));
            assert(now.take(i as int + 1) =~= insert_sorted(p, x));
            assert(now.skip(i as int + 1) =~= orig.skip(i as int + 1));
            assert(orig.take(i as int + 1).drop_last() =~= orig.take(i as int));
            assert(orig.take(i as int + 1).last() == x);
            assert(sort_entries_spec(orig.take(i as int + 1)) == insert_sorted(
                sort_entries_spec(orig.take(i as int)),
                x,
            ));
        }
        i += 1;
    }
    proof {
        assert(orig.take(i as int) =~= orig);
        assert(entries@.take(i as int) =~= entries@);
    }
}

} // verus!
