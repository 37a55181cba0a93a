//! Configuration for a renumbering run, read from command-line style
//! arguments: the floor for relocation targets, the directory to walk, and
//! the optional name to keep when a duplicate group holds it.
use vstd::prelude::*;

use crate::numbers::digits_value;
use crate::numbers::is_digit;
use crate::numbers::parse_leading_number;

verus! {

/// Configuration of one renumbering run.
#[derive(Debug)]
pub struct Parameters {
    /// The first number considered as a relocation target.
    pub start: u32,
    /// The directory to search for files in.
    pub directory_buf: String,
    /// When a duplicate group is found, the name of the file to keep. When
    /// absent or not in the group, the first file encountered is kept.
    pub keep_file: Option<String>,
}

impl PartialEq for Parameters {
    fn eq(&self, other: &Self) -> (r: bool) {
        let keep_eq = match (&self.keep_file, &other.keep_file) {
            (Some(a), Some(b)) => a.eq(b),
            (None, None) => true,
            _ => false,
        };
        self.start == other.start && self.directory_buf.eq(&other.directory_buf) && keep_eq
    }
}

impl vstd::std_specs::cmp::PartialEqSpecImpl for Parameters {
    open spec fn obeys_eq_spec() -> bool {
        true
    }

    open spec fn eq_spec(&self, other: &Parameters) -> bool {
        self.start == other.start && self.directory_buf@ == other.directory_buf@
            && self.keep_file.deep_view() == other.keep_file.deep_view()
    }
}

/// Why the arguments were rejected.
#[derive(Debug, PartialEq, Eq, Structural, Clone, Copy)]
pub enum ParseError {
    /// An argument that is none of the recognized options.
    UnknownOption,
    /// An option at the end of the arguments, with no value after it.
    MissingValue,
    /// An option given twice.
    DuplicateOption,
    /// A start value that is not a plain number in range.
    InvalidNumber,
}

/// A non-empty string of digits whose value fits the number type.
pub open spec fn valid_number(s: Seq<char>) -> bool {
    s.len() > 0 && (forall|j: int| 0 <= j < s.len() ==> is_digit(s[j])) && digits_value(s)
        <= u32::MAX
}

/// The view of a parsed number option.
pub open spec fn opt_nat(o: Option<u32>) -> Option<nat> {
    match o {
        Some(v) => Some(v as nat),
        None => None,
    }
}

/// Parsing the arguments from position `i`, with the options seen so far.
/// Options come in flag-value pairs, each flag at most once; what is missing
/// at the end takes its default: a floor of one and the current directory.
pub open spec fn spec_parse_args(
    args: Seq<Seq<char>>,
    i: int,
    st: Option<nat>,
    dir: Option<Seq<char>>,
    keep: Option<Seq<char>>,
) -> Result<(nat, Seq<char>, Option<Seq<char>>), ParseError>
    decreases args.len() - i,
{
    if i < 0 || i >= args.len() {
        Ok(
            (
                if st is Some {
                    st->0
                } else {
                    1
                },
                if dir is Some {
                    dir->0
                } else {
                    "."@
                },
                keep,
            ),
        )
    } else if args[i] == "--start"@ {
        if st is Some {
            Err(ParseError::DuplicateOption)
        } else if i + 1 >= args.len() {
            Err(ParseError::MissingValue)
        } else if !valid_number(args[i + 1]) {
            Err(ParseError::InvalidNumber)
        } else {
            spec_parse_args(args, i + 2, Some(digits_value(args[i + 1])), dir, keep)
        }
    } else if args[i] == "--directory"@ {
        if dir is Some {
            Err(ParseError::DuplicateOption)
        } else if i + 1 >= args.len() {
            Err(ParseError::MissingValue)
        } else {
            spec_parse_args(args, i + 2, st, Some(args[i + 1]), keep)
        }
    } else if args[i] == "--keep-file"@ {
        if keep is Some {
            Err(ParseError::DuplicateOption)
        } else if i + 1 >= args.len() {
            Err(ParseError::MissingValue)
        } else {
            spec_parse_args(args, i + 2, st, dir, Some(args[i + 1]))
        }
    } else {
        Err(ParseError::UnknownOption)
    }
}

/// What a full argument list parses to.
pub open spec fn spec_from_args(args: Seq<Seq<char>>) -> Result<
    (nat, Seq<char>, Option<Seq<char>>),
    ParseError,
> {
    spec_parse_args(args, 0, None, None, None)
}

/// Whether two strings hold the same characters.
fn str_equal(a: &str, b: &str) -> (r: bool)
    ensures
        r == (a@ == b@),
{
    let la = a.unicode_len();
    let lb = b.unicode_len();
    if la != lb {
        return false;
    }
    let mut i: usize = 0;
    while i < la
        invariant
            0 <= i <= la,
            la == a@.len(),
            la == b@.len(),
            forall|j: int| 0 <= j < i ==> a@[j] == b@[j],
        decreases la - i,
    {
        if a.get_char(i) != b.get_char(i) {
            return false;
        }
        i = i + 1;
    }
    proof {
        assert(a@ =~= b@);
    }
    true
}

/// The value of `s` when it is all digits and in range, else `None`.
fn parse_full_number(s: &str) -> (r: Option<u32>)
    ensures
        r is Some <==> valid_number(s@),
        r matches Some(v) ==> v as nat == digits_value(s@),
{
    let n = s.unicode_len();
    match parse_leading_number(s) {
        None => {
            proof {
                crate::numbers::lemma_digit_run_len_props(s@);
                if s@.len() > 0 && (forall|j: int| 0 <= j < s@.len() ==> is_digit(s@[j])) {
                    crate::numbers::lemma_digit_run_len_is(s@, s@.len());
                    assert(s@.take(s@.len() as int) =~= s@);
                }
            }
            None
        },
        Some((v, k)) => {
            if k == n {
                proof {
                    crate::numbers::lemma_digit_run_len_props(s@);
                    assert(s@.take(s@.len() as int) =~= s@);
                }
                Some(v)
            } else {
                proof {
                    crate::numbers::lemma_digit_run_len_props(s@);
                    if forall|j: int| 0 <= j < s@.len() ==> is_digit(s@[j]) {
                        crate::numbers::lemma_digit_run_len_is(s@, s@.len());
                    }
                }
                None
            }
        },
    }
}

impl Parameters {
    /// Read the configuration from arguments: `--start` with a number,
    /// `--directory` with a path, `--keep-file` with a name, each at most
    /// once and in any order. A missing `--start` defaults to one, a missing
    /// `--directory` to the current directory; the command name is not read.
    pub fn from_args(_command_name: &[&str], args: &[&str]) -> (r: Result<
        Parameters,
        ParseError,
    >)
        ensures
            ({
                let a = args.deep_view();
                match spec_from_args(a) {
                    Ok(cfg) => r matches Ok(p) && p.start as nat == cfg.0 && p.directory_buf@
                        == cfg.1 && p.keep_file.deep_view() == cfg.2,
                    Err(e) => r matches Err(e2) && e2 == e,
                }
            }),
    {
        let ghost a = args.deep_view();
        let mut i: usize = 0;
        let mut st: Option<u32> = None;
        let mut dir: Option<String> = None;
        let mut keep: Option<String> = None;
        while i < args.len()
            invariant
                a == args.deep_view(),
                a.len() == args@.len(),
                0 <= i <= args@.len(),
                spec_parse_args(a, i as int, opt_nat(st), dir.deep_view(), keep.deep_view())
                    == spec_from_args(a),
            decreases args@.len() - i,
        {
            proof {
                assert(a[i as int] == args@[i as int]@);
            }
            let argi = args[i];
            if str_equal(argi, "--start") {
                if st.is_some() {
                    return Err(ParseError::DuplicateOption);
                }
                if i + 1 >= args.len() {
                    return Err(ParseError::MissingValue);
                }
                proof {
                    assert(a[i + 1] == args@[i + 1]@);
                }
                match parse_full_number(args[i + 1]) {
                    None => {
                        return Err(ParseError::InvalidNumber);
                    },
                    Some(v) => {
                        st = Some(v);
                        i = i + 2;
                    },
                }
            } else if str_equal(argi, "--directory") {
                if dir.is_some() {
                    return Err(ParseError::DuplicateOption);
                }
                if i + 1 >= args.len() {
                    return Err(ParseError::MissingValue);
                }
                proof {
                    assert(a[i + 1] == args@[i + 1]@);
                }
                dir = Some(String::from_str(args[i + 1]));
                i = i + 2;
            } else if str_equal(argi, "--keep-file") {
                if keep.is_some() {
                    return Err(ParseError::DuplicateOption);
                }
                if i + 1 >= args.len() {
                    return Err(ParseError::MissingValue);
                }
                proof {
                    assert(a[i + 1] == args@[i + 1]@);
                }
                keep = Some(String::from_str(args[i + 1]));
                i = i + 2;
            } else {
                return Err(ParseError::UnknownOption);
            }
        }
        let start = match st {
            Some(v) => v,
            None => 1,
        };
        let directory_buf = match dir {
            Some(d) => d,
            None => String::from_str("."),
        };
        Ok(Parameters { start, directory_buf, keep_file: keep })
    }

    /// The directory to search for files in.
    pub fn directory(self: &Self) -> (r: &str)
        ensures
            r@ == self.directory_buf@,
    {
        self.directory_buf.as_str()
    }
}

} // verus!
