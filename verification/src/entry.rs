//! The data model: entry kinds, classified entries, and the
//! classification and hidden-entry filtering applied to a directory scan.

use vstd::prelude::*;

verus! {

use crate::error::Error;
use vstd::string::StrSliceExecFns;

/// The classification of a directory member. Directories order first,
/// then symlinks, then files; a member that is neither a regular file
/// nor a directory counts as a symlink.
#[derive(Clone, Copy, PartialEq, Eq, Debug, Structural)]
pub enum Kind {
    Directory,
    Symlink,
    File,
}

/// One raw directory member as the operating system hands it out:
/// the file name when it is valid Unicode (`None` otherwise), the
/// file-type classification, the permission bits, the size in bytes,
/// and the numeric owner and group ids.
#[derive(Debug)]
pub struct RawEntry {
    pub name: Option<String>,
    pub is_file: bool,
    pub is_dir: bool,
    pub mode: u32,
    pub size: u64,
    pub uid: u32,
    pub gid: u32,
}

/// One classified directory member.
#[derive(Debug)]
pub struct Entry {
    pub kind: Kind,
    pub name: String,
    pub mode: u32,
    pub size: u64,
    pub uid: u32,
    pub gid: u32,
}

/// The kind a file-type classification maps to: regular files are
/// `File`, directories are `Directory`, and everything else is `Symlink`.
pub open spec fn kind_of_spec(is_file: bool, is_dir: bool) -> Kind {
    if is_file {
        Kind::File
    } else if is_dir {
        Kind::Directory
    } else {
        Kind::Symlink
    }
}

/// Maps a file-type classification to a `Kind`.
pub fn kind_of(is_file: bool, is_dir: bool) -> (k: Kind)
    ensures
        k == kind_of_spec(is_file, is_dir),
{
    if is_file {
        Kind::File
    } else if is_dir {
        Kind::Directory
    } else {
        Kind::Symlink
    }
}

/// The entry a raw directory member classifies to, assuming its name
/// is valid Unicode.
pub open spec fn classify_spec(r: RawEntry) -> Entry {
    Entry {
        kind: kind_of_spec(r.is_file, r.is_dir),
        name: r.name->0,
        mode: r.mode,
        size: r.size,
        uid: r.uid,
        gid: r.gid,
    }
}

/// Whether an entry is hidden: its name starts with `.`.
pub open spec fn is_hidden_spec(e: Entry) -> bool {
    e.name@.len() > 0 && e.name@[0] == '.'
}

/// Whether an entry survives the hidden-entry filter.
pub open spec fn keep_spec(e: Entry, all: bool) -> bool {
    all || !is_hidden_spec(e)
}

impl Entry {
    /// Whether this entry is hidden: its name starts with `.`.
    pub fn is_hidden(&self) -> (r: bool)
        ensures
            r == is_hidden_spec(*self),
    {
        let n = self.name.as_str().unicode_len();
        n > 0 && self.name.as_str().get_char(0) == '.'
    }

    /// Whether this entry is an executable regular file: a `File`
    /// with at least one of the execute permission bits set.
    pub fn is_executable(&self) -> (r: bool)
        ensures
            r == (self.kind is File && self.mode & 0o111 != 0),
    {
        self.kind == Kind::File && self.mode & 0o111 != 0
    }
}

/// The entries a directory scan yields: each raw member classified in
/// order, then those rejected by the hidden-entry filter removed.
pub open spec fn entries_of(raws: Seq<RawEntry>, all: bool) -> Seq<Entry> {
    raws.map_values(|r: RawEntry| classify_spec(r)).filter(|e: Entry| keep_spec(e, all))
}

/// Classifies a directory scan and filters hidden entries.
///
/// Fails with `Error::StringConversion` exactly when some raw member's
/// name is not valid Unicode; the whole scan fails, no partial result
/// comes back. Otherwise every member is classified, and when `all` is
/// false the entries whose name starts with `.` are excluded; no
/// ordering is applied.
pub fn build_entries(raws: Vec<RawEntry>, all: bool) -> (res: Result<Vec<Entry>, Error>)
    ensures
        res is Ok <==> (forall|i: int| 0 <= i < raws@.len() ==> raws@[i].name is Some),
        res is Ok ==> res->Ok_0@ == entries_of(raws@, all),
        res is Err ==> res->Err_0 is StringConversion,
{
    let mut out: Vec<Entry> = Vec::new();
    let mut idx: usize = 0;
    while idx < raws.len()
        invariant
            0 <= idx <= raws@.len(),
            forall|i: int| 0 <= i < idx ==> (#[trigger] raws@[i]).name is Some,
            out@ == raws@.take(idx as int).map_values(|r: RawEntry| classify_spec(r)).filter(
                |e: Entry| keep_spec(e, all),
            ),
        decreases raws@.len() - idx,
    {
        let name = match &raws[idx].name {
            Some(n) => n.clone(),
            None => {
                return Err(Error::StringConversion);
            },
        };
        let entry = Entry {
            kind: kind_of(raws[idx].is_file, raws[idx].is_dir),
            name,
            mode: raws[idx].mode,
            size: raws[idx].size,
            uid: raws[idx].uid,
            gid: raws[idx].gid,
        };
        let hidden = entry.is_hidden();
        proof {
            broadcast use vstd::prelude::Seq::lemma_filter_push;

            let classify = |r: RawEntry| classify_spec(r);
            let keep = |e: Entry| keep_spec(e, all);
            let prefix = raws@.take(idx as int).map_values(classify);
            let next = raws@.take(idx as int + 1).map_values(classify);
            assert(next =~= prefix.push(classify_spec(raws@[idx as int])));
            assert(entry == classify_spec(raws@[idx as int]));
        }
        if all || !hidden {
            out.push(entry);
        }
        idx += 1;
    }
    proof {
        assert(raws@.take(idx as int) =~= raws@);
    }
    Ok(out)
}

/// When `all` is true the hidden-entry filter excludes nothing: the
/// scan yields every member, classified, in scan order.
pub proof fn lemma_all_excludes_none(raws: Seq<RawEntry>)
    ensures
        entries_of(raws, true) == raws.map_values(|r: RawEntry| classify_spec(r)),
{
    let classified = raws.map_values(|r: RawEntry| classify_spec(r));
    let keep = |e: Entry| keep_spec(e, true);
    lemma_filter_true_id(classified, keep);
}

proof fn lemma_filter_true_id<A>(s: Seq<A>, p: spec_fn(A) -> bool)
    requires
        forall|i: int| 0 <= i < s.len() ==> p(#[trigger] s[i]),
    ensures
        s.filter(p) == s,
    decreases s.len(),
{
    reveal(Seq::filter);
    if s.len() > 0 {
        lemma_filter_true_id(s.drop_last(), p);
        assert(s.filter(p) =~= s);
    } else {
        assert(s.filter(p) =~= s);
    }
}

/// The hidden-entry filter excludes exactly the entries whose name
/// starts with `.`: every entry it yields is not hidden, and every
/// classified member that is not hidden appears in its result.
pub proof fn lemma_hidden_excluded(raws: Seq<RawEntry>)
    ensures
        forall|j: int|
            0 <= j < entries_of(raws, false).len() ==> !is_hidden_spec(
                #[trigger] entries_of(raws, false)[j],
            ),
        forall|i: int|
            0 <= i < raws.len() && !is_hidden_spec(classify_spec(#[trigger] raws[i]))
                ==> entries_of(raws, false).contains(classify_spec(raws[i])),
{
    broadcast use vstd::seq_lib::group_filter_ensures;

    let classified = raws.map_values(|r: RawEntry| classify_spec(r));
    let keep = |e: Entry| keep_spec(e, false);
    assert forall|i: int|
        0 <= i < raws.len() && !is_hidden_spec(classify_spec(#[trigger] raws[i])) implies entries_of(
        raws,
        false,
    ).contains(classify_spec(raws[i])) by {
        assert(classified[i] == classify_spec(raws[i]));
        assert(keep(classified[i]));
        classified.lemma_filter_contains(keep, i);
    }
}

} // verus!
