//! Command-line options and the choice of the entry to show.
use rand::Rng;
use vstd::prelude::*;

verus! {

/// Options given on the command line.
#[derive(Clone, Copy, Debug, PartialEq, Eq, Structural)]
pub struct CliArgs {
    /// `--help` was given.
    pub help: bool,
    /// `--debug`: report errors instead of suppressing them.
    pub debug: bool,
    /// `--validate`: check the whole message file instead of showing an entry.
    pub validate: bool,
    /// `-e` / `--entry`: show this entry instead of a random one.
    pub entry: Option<u32>,
    /// `--img-height`: height of images in terminal rows.
    pub img_height: Option<u32>,
    /// `--img-width`: width of images in terminal columns.
    pub img_width: Option<u32>,
}

/// An option that needs a value came last.
#[derive(Clone, Copy, Debug, PartialEq, Eq, Structural)]
pub enum CliError {
    MissingEntry,
    MissingImgHeight,
    MissingImgWidth,
}

/// Why the requested entry cannot be shown.
#[derive(Clone, Copy, Debug, PartialEq, Eq, Structural)]
pub enum SelectError {
    /// The entry asked for is not below the number of entries, which is given.
    OutOfRange { count: usize },
}

pub open spec fn no_options() -> CliArgs {
    CliArgs { help: false, debug: false, validate: false, entry: None, img_height: None, img_width: None }
}

pub open spec fn is_digit(c: char) -> bool {
    '0' <= c && c <= '9'
}

/// The value of a sequence of decimal digits.
pub open spec fn digits_value(d: Seq<char>) -> nat
    decreases d.len(),
{
    if d.len() == 0 {
        0
    } else {
        digits_value(d.drop_last()) * 10 + (d.last() as nat - '0' as nat) as nat
    }
}

/// `d` read as decimal digits, where all are digits and the value fits a `u32`.
pub open spec fn digits_u32(d: Seq<char>) -> Option<u32> {
    if (forall|i: int| 0 <= i < d.len() ==> is_digit(#[trigger] d[i])) && digits_value(d)
        <= u32::MAX {
        Some(digits_value(d) as u32)
    } else {
        None
    }
}

/// `s` read as a decimal `u32`: an optional `+`, then one or more digits whose
/// value fits; `None` for anything else.
pub open spec fn decimal_u32(s: Seq<char>) -> Option<u32> {
    let d = if s.len() > 0 && s[0] == '+' { s.drop_first() } else { s };
    if d.len() > 0 {
        digits_u32(d)
    } else {
        None
    }
}

/// The options that `args` give, on top of `acc`.
pub open spec fn read_options(args: Seq<Seq<char>>, acc: CliArgs) -> Result<CliArgs, CliError>
    decreases args.len(),
{
    if args.len() == 0 {
        Ok(acc)
    } else {
        let a = args[0];
        let rest = args.drop_first();
        if a == "--help"@ {
            read_options(rest, CliArgs { help: true, ..acc })
        } else if a == "--debug"@ {
            read_options(rest, CliArgs { debug: true, ..acc })
        } else if a == "--validate"@ {
            read_options(rest, CliArgs { validate: true, ..acc })
        } else if a == "-e"@ || a == "--entry"@ {
            if rest.len() == 0 {
                Err(CliError::MissingEntry)
            } else {
                read_options(rest.drop_first(), CliArgs { entry: decimal_u32(rest[0]), ..acc })
            }
        } else if a == "--img-height"@ {
            if rest.len() == 0 {
                Err(CliError::MissingImgHeight)
            } else {
                read_options(rest.drop_first(), CliArgs { img_height: decimal_u32(rest[0]), ..acc })
            }
        } else if a == "--img-width"@ {
            if rest.len() == 0 {
                Err(CliError::MissingImgWidth)
            } else {
                read_options(rest.drop_first(), CliArgs { img_width: decimal_u32(rest[0]), ..acc })
            }
        } else {
            read_options(rest, acc)
        }
    }
}

pub open spec fn strings_view(v: Seq<String>) -> Seq<Seq<char>> {
    v.map_values(|s: String| s@)
}

proof fn lemma_digits_grow(d: Seq<char>)
    requires
        d.len() > 0,
    ensures
        digits_value(d) >= digits_value(d.drop_last()),
{
}

/// Reads the characters of `s` from `start` on as decimal digits.
fn read_digits(s: &str, start: usize) -> (r: Option<u32>)
    requires
        start <= s@.len(),
    ensures
        r == digits_u32(s@.subrange(start as int, s@.len() as int)),
{
    let n = s.unicode_len();
    let mut i: usize = start;
    let mut acc: u64 = 0;
    proof {
        assert(s@.subrange(start as int, i as int) =~= Seq::<char>::empty());
    }
    while i < n
        invariant
            start <= i <= n,
            n == s@.len(),
            forall|j: int| start <= j < i ==> is_digit(#[trigger] s@[j]),
            digits_value(s@.subrange(start as int, i as int)) <= u32::MAX ==> acc
                == digits_value(s@.subrange(start as int, i as int)),
            digits_value(s@.subrange(start as int, i as int)) > u32::MAX ==> u32::MAX < acc
                <= u32::MAX as nat * 10 + 9,
        decreases n - i,
    {
        let c = s.get_char(i);
        let ghost p = s@.subrange(start as int, i as int);
        let ghost q = s@.subrange(start as int, i + 1);
        proof {
            assert(q.drop_last() =~= p);
            assert(q.last() == c);
        }
        if !('0' <= c && c <= '9') {
            proof {
                let d = s@.subrange(start as int, n as int);
                assert(d[i - start] == c);
            }
            return None;
        }
        let v = (c as u32 - 48) as u64;
        proof {
            lemma_digits_grow(q);
        }
        if acc <= 0xffff_ffff {
            acc = acc * 10 + v;
        }
        i = i + 1;
    }
    proof {
        let d = s@.subrange(start as int, n as int);
        assert forall|j: int| 0 <= j < d.len() implies is_digit(#[trigger] d[j]) by {
            assert(d[j] == s@[start + j]);
        }
    }
    if acc > 0xffff_ffff {
        None
    } else {
        Some(acc as u32)
    }
}

/// Reads `s` as a decimal `u32`.
pub fn parse_u32(s: &str) -> (r: Option<u32>)
    ensures
        r == decimal_u32(s@),
{
    let n = s.unicode_len();
    let mut start: usize = 0;
    if n > 0 && s.get_char(0) == '+' {
        start = 1;
    }
    proof {
        if start == 1 {
            assert(s@.drop_first() =~= s@.subrange(1, n as int));
        } else {
            assert(s@ =~= s@.subrange(0, n as int));
        }
    }
    if start == n {
        return None;
    }
    read_digits(s, start)
}

fn arg_is(arg: &String, flag: &str) -> (r: bool)
    ensures
        r == (arg@ == flag@),
{
    *arg == String::from_str(flag)
}

impl CliArgs {
    /// No option given.
    pub fn none() -> (r: CliArgs)
        ensures
            r == no_options(),
    {
        CliArgs { help: false, debug: false, validate: false, entry: None, img_height: None, img_width: None }
    }

    /// Reads the options in `args`, in order; a later option overrides an
    /// earlier one. An option that takes a value takes the next argument
    /// whatever it is, and records `None` where it is no decimal `u32`.
    /// Unknown arguments are passed over.
    pub fn from_args(args: &Vec<String>) -> (r: Result<CliArgs, CliError>)
        ensures
            r == read_options(strings_view(args@), no_options()),
    {
        let mut value = CliArgs::none();
        let mut i: usize = 0;
        let ghost all = strings_view(args@);
        proof {
            assert(all.subrange(0, all.len() as int) =~= all);
        }
        while i < args.len()
            invariant
                i <= args@.len(),
                all == strings_view(args@),
                read_options(all, no_options()) == read_options(
                    all.subrange(i as int, all.len() as int),
                    value,
                ),
            decreases args@.len() - i,
        {
            let ghost rest = all.subrange(i as int, all.len() as int);
            proof {
                assert(rest[0] == args@[i as int]@);
                assert(rest.drop_first() =~= all.subrange(i + 1, all.len() as int));
                if i + 1 < args@.len() {
                    assert(rest.drop_first()[0] == args@[i + 1]@);
                    assert(rest.drop_first().drop_first() =~= all.subrange(i + 2, all.len() as int));
                }
            }
            let arg = &args[i];
            if arg_is(arg, "--help") {
                value.help = true;
            } else if arg_is(arg, "--debug") {
                value.debug = true;
            } else if arg_is(arg, "--validate") {
                value.validate = true;
            } else if arg_is(arg, "-e") || arg_is(arg, "--entry") {
                if i + 1 >= args.len() {
                    return Err(CliError::MissingEntry);
                }
                i = i + 1;
                value.entry = parse_u32(args[i].as_str());
            } else if arg_is(arg, "--img-height") {
                if i + 1 >= args.len() {
                    return Err(CliError::MissingImgHeight);
                }
                i = i + 1;
                value.img_height = parse_u32(args[i].as_str());
            } else if arg_is(arg, "--img-width") {
                if i + 1 >= args.len() {
                    return Err(CliError::MissingImgWidth);
                }
                i = i + 1;
                value.img_width = parse_u32(args[i].as_str());
            }
            i = i + 1;
        }
        proof {
            assert(all.subrange(i as int, all.len() as int) =~= Seq::<Seq<char>>::empty());
        }
        Ok(value)
    }
}

impl CliError {
    /// Describes the error for the command line's user.
    pub fn message(&self) -> (r: String)
        ensures
            r@ == match *self {
                CliError::MissingEntry => "--entry option requires a valid line number."@,
                CliError::MissingImgHeight => "--img-height option requires a valid size."@,
                CliError::MissingImgWidth => "--img-width option requires a valid size."@,
            },
    {
        match self {
            CliError::MissingEntry => String::from_str("--entry option requires a valid line number."),
            CliError::MissingImgHeight => String::from_str("--img-height option requires a valid size."),
            CliError::MissingImgWidth => String::from_str("--img-width option requires a valid size."),
        }
    }
}

/// The index of the entry to show among `count`: the one requested, or else
/// `random`, drawn by the caller below `count`.
pub fn choose_entry(requested: Option<u32>, count: usize, random: usize) -> (r: Result<usize, SelectError>)
    requires
        random < count,
    ensures
        match requested {
            Some(e) => if (e as nat) < count {
                r == Ok::<usize, SelectError>(e as usize)
            } else {
                r == Err::<usize, SelectError>(SelectError::OutOfRange { count })
            },
            None => r == Ok::<usize, SelectError>(random),
        },
{
    match requested {
        Some(e) => {
            if (e as u64) < (count as u64) {
                Ok(e as usize)
            } else {
                Err(SelectError::OutOfRange { count })
            }
        },
        None => Ok(random),
    }
}

/// Relies on rand's `Rng::gen_range` over `0..n` with the thread-local
/// generator: a value below `n`. It panics on an empty range.
#[verifier::external_body]
fn random_below(n: usize) -> (r: usize)
    requires
        n > 0,
    ensures
        r < n,
{
    rand::thread_rng().gen_range(0..n)
}

/// The index of the entry to show among `count`: the one requested, or else
/// one drawn at random.
pub fn pick_entry(requested: Option<u32>, count: usize) -> (r: Result<usize, SelectError>)
    requires
        count > 0,
    ensures
        match requested {
            Some(e) => if (e as nat) < count {
                r == Ok::<usize, SelectError>(e as usize)
            } else {
                r == Err::<usize, SelectError>(SelectError::OutOfRange { count })
            },
            None => r matches Ok(i) && i < count,
        },
{
    let random = if requested.is_none() {
        random_below(count)
    } else {
        0
    };
    choose_entry(requested, count, random)
}

} // verus!
