//! Choosing the base directory from the command line.

use vstd::prelude::*;
use crate::text::{chars_eq, chars_of, has_prefix, matches_at, string_of, sub_chars};

verus! {

/// Why the command line was refused.
pub enum ArgError {
    /// `--dir` or `-d` came last, without a path.
    MissingDirValue,
    /// An argument that starts with `-` and is no known option.
    UnknownArgument(String),
}

/// The mathematical value of an [`ArgError`].
pub enum ArgErrorSpec {
    MissingDirValue,
    UnknownArgument(Seq<char>),
}

impl View for ArgError {
    type V = ArgErrorSpec;

    open spec fn view(&self) -> ArgErrorSpec {
        match self {
            ArgError::MissingDirValue => ArgErrorSpec::MissingDirValue,
            ArgError::UnknownArgument(a) => ArgErrorSpec::UnknownArgument(a@),
        }
    }
}

impl ArgError {
    /// The message shown to the user.
    pub fn message(&self) -> (res: String)
        ensures
            res@ == match self@ {
                ArgErrorSpec::MissingDirValue => "--dir requires a path argument"@,
                ArgErrorSpec::UnknownArgument(a) => "unknown argument: "@ + a,
            },
    {
        match self {
            ArgError::MissingDirValue => "--dir requires a path argument".to_string(),
            ArgError::UnknownArgument(a) => {
                let mut m = chars_of("unknown argument: ");
                let ac = chars_of(a.as_str());
                crate::text::extend_chars(&mut m, &ac);
                string_of(&m)
            },
        }
    }
}

/// `--dir`
pub open spec fn long_flag() -> Seq<char> {
    seq!['-', '-', 'd', 'i', 'r']
}

/// `-d`
pub open spec fn short_flag() -> Seq<char> {
    seq!['-', 'd']
}

/// `--dir=`
pub open spec fn assign_prefix() -> Seq<char> {
    seq!['-', '-', 'd', 'i', 'r', '=']
}

/// Reads the arguments from the left, starting from the path chosen so far:
/// `--dir <path>` and `-d <path>` choose the path that follows,
/// `--dir=<path>` chooses what follows the `=`, an argument that does not
/// start with `-` chooses itself, and any other argument is refused. A later
/// choice replaces an earlier one.
pub open spec fn scan_args(args: Seq<Seq<char>>, base: Option<Seq<char>>) -> Result<Option<Seq<char>>, ArgErrorSpec>
    decreases args.len(),
{
    if args.len() == 0 {
        Ok(base)
    } else {
        let a = args[0];
        if a == long_flag() || a == short_flag() {
            if args.len() < 2 {
                Err(ArgErrorSpec::MissingDirValue)
            } else {
                scan_args(args.skip(2), Some(args[1]))
            }
        } else if has_prefix(a, assign_prefix()) {
            scan_args(args.drop_first(), Some(a.skip(6)))
        } else if !has_prefix(a, seq!['-']) {
            scan_args(args.drop_first(), Some(a))
        } else {
            Err(ArgErrorSpec::UnknownArgument(a))
        }
    }
}

/// The base directory the arguments choose: the last path given, or `.`.
pub open spec fn chosen_dir(args: Seq<Seq<char>>) -> Result<Seq<char>, ArgErrorSpec> {
    match scan_args(args, None) {
        Ok(Some(b)) => Ok(b),
        Ok(None) => Ok(seq!['.']),
        Err(e) => Err(e),
    }
}

/// The values of a list of strings.
pub open spec fn args_view(v: Seq<String>) -> Seq<Seq<char>> {
    v.map_values(|s: String| s@)
}

/// Chooses the base directory that all runtime files and folders are
/// resolved against. Accepts either a positional path or `--dir <path>` /
/// `-d <path>` (or `--dir=<path>`); defaults to `.` when no path is given.
/// Whether the directory exists is for the caller to check.
pub fn parse_base_dir(args: &Vec<String>) -> (res: Result<String, ArgError>)
    ensures
        match res {
            Ok(d) => chosen_dir(args_view(args@)) == Ok::<Seq<char>, ArgErrorSpec>(d@),
            Err(e) => chosen_dir(args_view(args@)) == Err::<Seq<char>, ArgErrorSpec>(e@),
        },
{
    let ghost av = args_view(args@);
    let long: Vec<char> = vec!['-', '-', 'd', 'i', 'r'];
    let short: Vec<char> = vec!['-', 'd'];
    let assign: Vec<char> = vec!['-', '-', 'd', 'i', 'r', '='];
    let dash: Vec<char> = vec!['-'];
    assert(long@ =~= long_flag());
    assert(short@ =~= short_flag());
    assert(assign@ =~= assign_prefix());
    assert(dash@ =~= seq!['-']);
    let mut base: Option<String> = None;
    let n = args.len();
    let mut i: usize = 0;
    assert(av.skip(0) == av);
    while i < n
        invariant
            n == args@.len(),
            av == args_view(args@),
            i <= n,
            long@ == long_flag(),
            short@ == short_flag(),
            assign@ == assign_prefix(),
            dash@ == seq!['-'],
            scan_args(av, None) == scan_args(
                av.skip(i as int),
                match base {
                    Some(b) => Some(b@),
                    None => None,
                },
            ),
        decreases n - i,
    {
        let a = chars_of(args[i].as_str());
        assert(av[i as int] == a@);
        assert(av.skip(i as int)[0] == a@);
        if chars_eq(&a, &long) || chars_eq(&a, &short) {
            if i + 1 >= n {
                return Err(ArgError::MissingDirValue);
            }
            base = Some(args[i + 1].clone());
            assert(av.skip(i as int).skip(2) == av.skip(i + 2));
            assert(av.skip(i as int)[1] == av[i + 1]);
            i = i + 2;
        } else if matches_at(&a, 0, &assign) {
            assert(a@.skip(0) == a@);
            let rest = sub_chars(&a, 6, a.len());
            assert(rest@ == a@.skip(6));
            base = Some(string_of(&rest));
            assert(av.skip(i as int).drop_first() == av.skip(i + 1));
            i = i + 1;
        } else if !matches_at(&a, 0, &dash) {
            assert(a@.skip(0) == a@);
            base = Some(args[i].clone());
            assert(av.skip(i as int).drop_first() == av.skip(i + 1));
            i = i + 1;
        } else {
            assert(a@.skip(0) == a@);
            return Err(ArgError::UnknownArgument(args[i].clone()));
        }
    }
    match base {
        Some(b) => Ok(b),
        None => {
            let dot: Vec<char> = vec!['.'];
            assert(dot@ =~= seq!['.']);
            Ok(string_of(&dot))
        },
    }
}

} // verus!
