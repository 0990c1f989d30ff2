//! Command-line flag and path-argument parsing. Flags are single
//! characters bundled after leading dashes; parsing stops at the first
//! non-flag argument or at a literal `--`; an unrecognized flag
//! character fails the whole invocation.

use vstd::prelude::*;

verus! {

use crate::error::Error;
use crate::text::push_char;
use vstd::string::StrSliceExecFns;

/// Whether an argument is treated as a bundle of flags: it starts with
/// `-` and is not the literal `--`.
pub open spec fn is_flag_arg(a: Seq<char>) -> bool {
    a.len() > 0 && a[0] == '-' && a != seq!['-', '-']
}

/// The argument with its leading dashes removed.
pub open spec fn trim_dashes(a: Seq<char>) -> Seq<char>
    decreases a.len(),
{
    if a.len() > 0 && a[0] == '-' {
        trim_dashes(a.drop_first())
    } else {
        a
    }
}

/// The flag characters of an argument list: the leading flag arguments'
/// characters, dashes stripped, in order.
pub open spec fn flag_chars(args: Seq<Seq<char>>) -> Seq<char>
    decreases args.len(),
{
    if args.len() == 0 || !is_flag_arg(args[0]) {
        Seq::empty()
    } else {
        trim_dashes(args[0]) + flag_chars(args.drop_first())
    }
}

/// How many leading arguments are flag bundles.
pub open spec fn flag_arg_count(args: Seq<Seq<char>>) -> int
    decreases args.len(),
{
    if args.len() == 0 || !is_flag_arg(args[0]) {
        0
    } else {
        1 + flag_arg_count(args.drop_first())
    }
}

/// Whether a flag character is recognized: `a` or `l`.
pub open spec fn flag_known(c: char) -> bool {
    c == 'a' || c == 'l'
}

/// The position of the first unrecognized flag character.
pub open spec fn first_unknown(fc: Seq<char>) -> int
    decreases fc.len(),
{
    if fc.len() == 0 {
        0
    } else if !flag_known(fc[0]) {
        0
    } else {
        1 + first_unknown(fc.drop_first())
    }
}

/// The first remaining argument that is not the literal `--`, if any:
/// the target path.
pub open spec fn first_path_arg(rest: Seq<Seq<char>>) -> Option<Seq<char>>
    decreases rest.len(),
{
    if rest.len() == 0 {
        Option::None
    } else if rest[0] != seq!['-', '-'] {
        Option::Some(rest[0])
    } else {
        first_path_arg(rest.drop_first())
    }
}

/// A sequence of known flags followed by an unknown one puts the first
/// unknown exactly after the known prefix.
proof fn lemma_first_unknown_at(prefix: Seq<char>, c: char, rest: Seq<char>)
    requires
        forall|i: int| 0 <= i < prefix.len() ==> flag_known(#[trigger] prefix[i]),
        !flag_known(c),
    ensures
        first_unknown(prefix + seq![c] + rest) == prefix.len(),
        (prefix + seq![c] + rest)[prefix.len() as int] == c,
    decreases prefix.len(),
{
    let whole = prefix + seq![c] + rest;
    if prefix.len() == 0 {
        assert(whole[0] == c);
    } else {
        assert(whole[0] == prefix[0]);
        assert(whole.drop_first() =~= prefix.drop_first() + seq![c] + rest);
        lemma_first_unknown_at(prefix.drop_first(), c, rest);
    }
}

/// Whether the argument is a bundle of flags.
fn is_flag_arg_exec(a: &String) -> (r: bool)
    ensures
        r == is_flag_arg(a@),
{
    let n = a.as_str().unicode_len();
    if n == 0 {
        return false;
    }
    if a.as_str().get_char(0) != '-' {
        return false;
    }
    if n == 2 && a.as_str().get_char(1) == '-' {
        proof {
            assert(a@ =~= seq!['-', '-']);
        }
        false
    } else {
        proof {
            if a@ == seq!['-', '-'] {
                assert(a@.len() == 2 && a@[1] == '-');
            }
        }
        true
    }
}

/// Whether the argument is the literal `--`.
fn is_double_dash(a: &String) -> (r: bool)
    ensures
        r == (a@ == seq!['-', '-']),
{
    let n = a.as_str().unicode_len();
    if n == 2 && a.as_str().get_char(0) == '-' && a.as_str().get_char(1) == '-' {
        proof {
            assert(a@ =~= seq!['-', '-']);
        }
        true
    } else {
        proof {
            if a@ == seq!['-', '-'] {
                assert(a@.len() == 2 && a@[0] == '-' && a@[1] == '-');
            }
        }
        false
    }
}

/// Parses the leading flag bundles of the argument list (the arguments
/// after the program name).
///
/// Returns `(all, long)`: whether `a` and `l` occur among the flag
/// characters. Fails with `Error::UnknownFlag` carrying the first flag
/// character that is neither `a` nor `l`, exactly when one occurs; no
/// other failure is possible.
#[verifier::loop_isolation(false)]
#[verifier::rlimit(60)]
pub fn parse_flags(args: &Vec<String>) -> (res: Result<(bool, bool), Error>)
    ensures
        ({
            let fc = flag_chars(args@.map_values(|s: String| s@));
            &&& (res is Ok <==> (forall|i: int|
                0 <= i < fc.len() ==> flag_known(#[trigger] fc[i])))
            &&& (res is Ok ==> (res->Ok_0.0 <==> fc.contains('a')) && (res->Ok_0.1
                <==> fc.contains('l')))
            &&& (res is Err ==> res->Err_0 is UnknownFlag && res->Err_0->UnknownFlag_0@ == seq![
                fc[first_unknown(fc)],
            ])
        }),
{
    let ghost gargs = args@.map_values(|s: String| s@);
    let ghost fc = flag_chars(gargs);
    let mut all = false;
    let mut long = false;
    let ghost mut processed = Seq::<char>::empty();
    let mut t: usize = 0;
    proof {
        assert(gargs.skip(0int) =~= gargs);
        assert(processed + flag_chars(gargs) =~= flag_chars(gargs));
    }
    while t < args.len() && is_flag_arg_exec(&args[t])
        invariant
            0 <= t <= gargs.len(),
            fc == processed + flag_chars(gargs.skip(t as int)),
            forall|i: int| 0 <= i < processed.len() ==> flag_known(#[trigger] processed[i]),
            all <==> processed.contains('a'),
            long <==> processed.contains('l'),
        decreases gargs.len() - t,
    {
        let ghost arg = gargs[t as int];
        proof {
            assert(gargs.skip(t as int)[0] == arg);
            assert(gargs.skip(t as int).drop_first() =~= gargs.skip(t as int + 1));
            assert(flag_chars(gargs.skip(t as int)) == trim_dashes(arg) + flag_chars(
                gargs.skip(t as int + 1),
            ));
        }
        let n = args[t].as_str().unicode_len();
        // Skip the leading dashes.
        let mut d: usize = 0;
        proof {
            assert(arg.skip(0int) =~= arg);
        }
        while d < n && args[t].as_str().get_char(d) == '-'
            invariant
                0 <= d <= n,
                trim_dashes(arg) == trim_dashes(arg.skip(d as int)),
            decreases n - d,
        {
            proof {
                assert(arg.skip(d as int)[0] == arg[d as int]);
                assert(arg.skip(d as int).drop_first() =~= arg.skip(d as int + 1));
            }
            d += 1;
        }
        proof {
            if d < n {
                assert(arg.skip(d as int)[0] == arg[d as int]);
            }
            assert(trim_dashes(arg.skip(d as int)) == arg.skip(d as int));
        }
        let ghost trimmed = arg.skip(d as int);
        let ghost arg_start = processed;
        proof {
            assert(fc =~= arg_start + trimmed + flag_chars(gargs.skip(t as int + 1)));
            assert(trimmed.take(0int) =~= Seq::<char>::empty());
            assert(processed =~= arg_start + trimmed.take(0int));
        }
        // Read each flag character of this bundle.
        let mut j: usize = d;
        while j < n
            invariant
                d <= j <= n,
                processed == arg_start + trimmed.take(j as int - d),
                fc == arg_start + trimmed + flag_chars(gargs.skip(t as int + 1)),
                forall|i: int| 0 <= i < processed.len() ==> flag_known(#[trigger] processed[i]),
                all <==> processed.contains('a'),
                long <==> processed.contains('l'),
            decreases n - j,
        {
            let c = args[t].as_str().get_char(j);
            proof {
                assert(trimmed[j as int - d] == arg[j as int]);
            }
            if c == 'a' {
                all = true;
            } else if c == 'l' {
                long = true;
            } else {
                let mut f = String::new();
                push_char(&mut f, c);
                proof {
                    let rest = trimmed.skip(j as int - d + 1) + flag_chars(
                        gargs.skip(t as int + 1),
                    );
                    assert(fc =~= processed + seq![c] + rest);
                    lemma_first_unknown_at(processed, c, rest);
                    assert(f@ =~= seq![fc[first_unknown(fc)]]);
                }
                return Err(Error::UnknownFlag(f));
            }
            proof {
                let next = arg_start + trimmed.take(j as int - d + 1);
                assert(next =~= processed.push(c));
                assert(next.contains('a') <==> (processed.contains('a') || c == 'a')) by {
                    assert(forall|i: int|
                        0 <= i < processed.len() ==> next[i] == #[trigger] processed[i]);
                    assert(next[processed.len() as int] == c);
                    if next.contains('a') {
                        let w = choose|w: int| 0 <= w < next.len() && next[w] == 'a';
                        if w < processed.len() {
                            assert(processed[w] == 'a');
                        }
                    }
                }
                assert(next.contains('l') <==> (processed.contains('l') || c == 'l')) by {
                    assert(forall|i: int|
                        0 <= i < processed.len() ==> next[i] == #[trigger] processed[i]);
                    assert(next[processed.len() as int] == c);
                    if next.contains('l') {
                        let w = choose|w: int| 0 <= w < next.len() && next[w] == 'l';
                        if w < processed.len() {
                            assert(processed[w] == 'l');
                        }
                    }
                }
                processed = next;
            }
            j += 1;
        }
        proof {
            assert(trimmed.take(n as int - d) =~= trimmed);
            assert(fc =~= processed + flag_chars(gargs.skip(t as int + 1)));
        }
        t += 1;
    }
    proof {
        if t < gargs.len() {
            assert(!is_flag_arg(gargs[t as int]));
            assert(gargs.skip(t as int)[0] == gargs[t as int]);
            assert(flag_chars(gargs.skip(t as int)) =~= Seq::<char>::empty());
        } else {
            assert(gargs.skip(t as int).len() == 0);
        }
        assert(fc =~= processed);
    }
    Ok((all, long))
}

/// Picks the target path from the argument list: the first argument
/// after the leading flag bundles that is not the literal `--`.
#[verifier::loop_isolation(false)]
pub fn parse_args(args: &Vec<String>) -> (res: Option<String>)
    ensures
        ({
            let gargs = args@.map_values(|s: String| s@);
            let found = first_path_arg(gargs.skip(flag_arg_count(gargs)));
            &&& (res is Some <==> found is Some)
            &&& (res is Some ==> res->0@ == found->0)
        }),
{
    let ghost gargs = args@.map_values(|s: String| s@);
    let mut t: usize = 0;
    proof {
        assert(gargs.skip(0int) =~= gargs);
    }
    while t < args.len() && is_flag_arg_exec(&args[t])
        invariant
            0 <= t <= gargs.len(),
            flag_arg_count(gargs) == t + flag_arg_count(gargs.skip(t as int)),
        decreases gargs.len() - t,
    {
        proof {
            assert(gargs.skip(t as int)[0] == gargs[t as int]);
            assert(gargs.skip(t as int).drop_first() =~= gargs.skip(t as int + 1));
        }
        t += 1;
    }
    proof {
        if t < gargs.len() {
            assert(gargs.skip(t as int)[0] == gargs[t as int]);
        }
        assert(flag_arg_count(gargs.skip(t as int)) == 0);
        assert(flag_arg_count(gargs) == t as int);
    }
    let mut u: usize = t;
    while u < args.len()
        invariant
            t <= u <= gargs.len(),
            first_path_arg(gargs.skip(t as int)) == first_path_arg(gargs.skip(u as int)),
        decreases gargs.len() - u,
    {
        proof {
            assert(gargs.skip(u as int)[0] == gargs[u as int]);
            assert(gargs.skip(u as int).drop_first() =~= gargs.skip(u as int + 1));
        }
        if !is_double_dash(&args[u]) {
            return Some(args[u].clone());
        }
        u += 1;
    }
    proof {
        assert(gargs.skip(u as int).len() == 0);
    }
    None
}

} // verus!
