//! Terminal styling: each entry kind gets a visually distinct form.
//! The colour escapes come from the colored crate behind trusted
//! wrappers; whether they appear depends on the terminal, so contracts
//! state only that the name is embedded unchanged.

use vstd::prelude::*;

verus! {

use colored::Colorize;
use crate::entry::{Entry, Kind};
use crate::text::push_char;
use vstd::string::StringExecFns;

/// Whether a rendered form of `text` is a faithful styling of it: the
/// text itself, possibly wrapped in a style prefix and a reset suffix.
pub open spec fn styled_ok(text: Seq<char>, rendered: Seq<char>) -> bool {
    exists|a: Seq<char>, b: Seq<char>| rendered == a + text + b
}

/// Relies on colored's Colorize::blue and ColoredString::bold: the
/// result is the input wrapped in a style prefix and a reset suffix,
/// or the bare input when colouring is off; input without an escape
/// character is embedded verbatim either way.
#[verifier::external_body]
fn style_directory(s: &str) -> (r: String)
    ensures
        !s@.contains('\u{1b}') ==> styled_ok(s@, r@),
{
    format!("{}", s.blue().bold())
}

/// Relies on colored's Colorize::bright_blue and
/// ColoredString::underline, as `style_directory` relies on its calls.
#[verifier::external_body]
fn style_symlink(s: &str) -> (r: String)
    ensures
        !s@.contains('\u{1b}') ==> styled_ok(s@, r@),
{
    format!("{}", s.bright_blue().underline())
}

/// Relies on colored's Colorize::bright_green, as `style_directory`
/// relies on its calls.
#[verifier::external_body]
fn style_executable(s: &str) -> (r: String)
    ensures
        !s@.contains('\u{1b}') ==> styled_ok(s@, r@),
{
    format!("{}", s.bright_green())
}

/// Relies on colored's Colorize::red and ColoredString::bold, as
/// `style_directory` relies on its calls.
#[verifier::external_body]
pub(crate) fn style_error_label(s: &str) -> (r: String)
    ensures
        !s@.contains('\u{1b}') ==> styled_ok(s@, r@),
{
    format!("{}", s.red().bold())
}

/// The display suffix of a kind: directories show a trailing slash,
/// counted in the entry's display width.
pub open spec fn kind_suffix(k: Kind) -> Seq<char> {
    if k is Directory {
        seq!['/']
    } else {
        Seq::<char>::empty()
    }
}

/// Whether a rendered cell presents entry `e` faithfully: its name,
/// possibly wrapped in styling, followed by its kind's display suffix.
pub open spec fn styled_cell_ok(e: Entry, cell: Seq<char>) -> bool {
    exists|a: Seq<char>, b: Seq<char>| cell == a + e.name@ + b + kind_suffix(e.kind)
}

/// The styled display cell of an entry: directories bold with a
/// trailing slash, symlinks underlined, executable files highlighted,
/// plain files unstyled.
pub fn styled_cell(e: &Entry) -> (r: String)
    ensures
        !e.name@.contains('\u{1b}') ==> styled_cell_ok(*e, r@),
        e.kind is File && e.mode & 0o111 == 0 ==> r@ == e.name@,
{
    match e.kind {
        Kind::Directory => {
            let mut s = style_directory(e.name.as_str());
            let ghost base = s@;
            push_char(&mut s, '/');
            proof {
                if !e.name@.contains('\u{1b}') {
                    let (a, b) = choose|a: Seq<char>, b: Seq<char>| base == a + e.name@ + b;
                    assert(s@ =~= a + e.name@ + b + kind_suffix(e.kind));
                    assert(styled_cell_ok(*e, s@));
                }
            }
            s
        },
        Kind::Symlink => {
            let s = style_symlink(e.name.as_str());
            proof {
                if !e.name@.contains('\u{1b}') {
                    let (a, b) = choose|a: Seq<char>, b: Seq<char>| s@ == a + e.name@ + b;
                    assert(s@ =~= a + e.name@ + b + kind_suffix(e.kind));
                    assert(styled_cell_ok(*e, s@));
                }
            }
            s
        },
        Kind::File => {
            if e.is_executable() {
                let s = style_executable(e.name.as_str());
                proof {
                    if !e.name@.contains('\u{1b}') {
                        let (a, b) = choose|a: Seq<char>, b: Seq<char>| s@ == a + e.name@ + b;
                        assert(s@ =~= a + e.name@ + b + kind_suffix(e.kind));
                        assert(styled_cell_ok(*e, s@));
                    }
                }
                s
            } else {
                let s = e.name.clone();
                proof {
                    assert(s@ =~= Seq::<char>::empty() + e.name@ + Seq::<char>::empty()
                        + kind_suffix(e.kind));
                    assert(styled_cell_ok(*e, s@));
                }
                s
            }
        },
    }
}

} // verus!
