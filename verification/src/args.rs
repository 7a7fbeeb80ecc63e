//! The command line of the mosaic generator: its argument grammar, parsed
//! into a plain configuration value.
//!
//! The grammar: one positional argument, the playlist reference; `--creds`
//! with a value, required; `-t`/`--tiles` with a number in 1 to 128,
//! defaulting to 2; `-o`/`--out` with a path, defaulting to `mosaic.png`;
//! `-a`/`--arrange` with one of `first`, `last`, `random`, defaulting to
//! `first`; `-r`/`--res` with a number in 16 to 4096, defaulting to 640.
//! Every flag takes its value as the following argument.

use vstd::prelude::*;

verus! {

/// Which albums of the deduplicated playlist fill the grid, and in what
/// order.
#[derive(Debug, Clone, Copy, PartialEq, Eq, Structural)]
pub enum TileArrangement {
    /// The leading albums, in playlist order.
    First,
    /// The trailing albums, in playlist order.
    Last,
    /// A uniformly random subset, in random order.
    Random,
}

/// The parsed command line.
pub struct CliArgs {
    /// Playlist reference.
    pub playlist_uri: String,
    /// Client identifier and secret, delimited by a colon.
    pub credentials: String,
    /// Number of tiles forming the mosaic's side.
    pub tile_side_len: u32,
    /// Output image file path.
    pub output_path: String,
    /// Ordering of the mosaic's tiles.
    pub arrangement: TileArrangement,
    /// Output image's resolution; the image may be rounded down.
    pub resolution: u32,
}

/// Why the command line was rejected.
#[derive(Debug, Clone, Copy, PartialEq, Eq, Structural)]
pub enum ArgError {
    /// A flag that the grammar does not know.
    UnknownArgument,
    /// A flag at the end of the line, with no value after it.
    MissingValue,
    /// A flag given twice.
    DuplicateArgument,
    /// A numeric value that is not a plain decimal number.
    InvalidNumber,
    /// A numeric value outside the flag's range.
    OutOfRange,
    /// An arrangement value that names no arrangement.
    InvalidArrangement,
    /// A second positional argument.
    UnexpectedArgument,
    /// No playlist reference given.
    MissingPlaylistUri,
    /// No credentials given.
    MissingCredentials,
}

/// What the arguments seen so far have set.
pub struct ArgDraft {
    pub playlist_uri: Option<String>,
    pub credentials: Option<String>,
    pub tile_side_len: Option<u32>,
    pub output_path: Option<String>,
    pub arrangement: Option<TileArrangement>,
    pub resolution: Option<u32>,
}

/// A draft with nothing set.
pub open spec fn empty_draft() -> ArgDraft {
    ArgDraft {
        playlist_uri: None,
        credentials: None,
        tile_side_len: None,
        output_path: None,
        arrangement: None,
        resolution: None,
    }
}

/// A decimal digit.
pub open spec fn is_digit(c: char) -> bool {
    48 <= c as int && c as int <= 57
}

/// Every character is a decimal digit.
pub open spec fn all_digits(s: Seq<char>) -> bool {
    forall|i: int| 0 <= i < s.len() ==> is_digit(#[trigger] s[i])
}

/// The number that a digit string denotes.
pub open spec fn dec_value(s: Seq<char>) -> int
    decreases s.len(),
{
    if s.len() == 0 {
        0
    } else {
        dec_value(s.drop_last()) * 10 + (s.last() as int - 48)
    }
}

/// How a numeric flag value parses: a nonempty digit string whose value
/// lies in `lo` to `hi`; otherwise the error that names what went wrong.
pub open spec fn parse_number(s: Seq<char>, lo: u32, hi: u32) -> Result<u32, ArgError> {
    if s.len() == 0 || !all_digits(s) {
        Err(ArgError::InvalidNumber)
    } else if dec_value(s) < lo as int || dec_value(s) > hi as int {
        Err(ArgError::OutOfRange)
    } else {
        Ok(dec_value(s) as u32)
    }
}

/// How an arrangement flag value parses.
pub open spec fn parse_arrangement_name(s: Seq<char>) -> Result<TileArrangement, ArgError> {
    if s == "first"@ {
        Ok(TileArrangement::First)
    } else if s == "last"@ {
        Ok(TileArrangement::Last)
    } else if s == "random"@ {
        Ok(TileArrangement::Random)
    } else {
        Err(ArgError::InvalidArrangement)
    }
}

/// An argument that the grammar reads as a flag.
pub open spec fn is_flag(a: Seq<char>) -> bool {
    a.len() >= 1 && a[0] == '-'
}

/// What one flag and its value do to the draft.
pub open spec fn step_flag(d: ArgDraft, flag: Seq<char>, value: String) -> Result<
    ArgDraft,
    ArgError,
> {
    if flag == "--creds"@ {
        if d.credentials is Some {
            Err(ArgError::DuplicateArgument)
        } else {
            Ok(ArgDraft { credentials: Some(value), ..d })
        }
    } else if flag == "-t"@ || flag == "--tiles"@ {
        if d.tile_side_len is Some {
            Err(ArgError::DuplicateArgument)
        } else {
            match parse_number(value@, 1, 128) {
                Ok(n) => Ok(ArgDraft { tile_side_len: Some(n), ..d }),
                Err(e) => Err(e),
            }
        }
    } else if flag == "-o"@ || flag == "--out"@ {
        if d.output_path is Some {
            Err(ArgError::DuplicateArgument)
        } else {
            Ok(ArgDraft { output_path: Some(value), ..d })
        }
    } else if flag == "-a"@ || flag == "--arrange"@ {
        if d.arrangement is Some {
            Err(ArgError::DuplicateArgument)
        } else {
            match parse_arrangement_name(value@) {
                Ok(a) => Ok(ArgDraft { arrangement: Some(a), ..d }),
                Err(e) => Err(e),
            }
        }
    } else if flag == "-r"@ || flag == "--res"@ {
        if d.resolution is Some {
            Err(ArgError::DuplicateArgument)
        } else {
            match parse_number(value@, 16, 4096) {
                Ok(n) => Ok(ArgDraft { resolution: Some(n), ..d }),
                Err(e) => Err(e),
            }
        }
    } else {
        Err(ArgError::UnknownArgument)
    }
}

/// How the whole argument list folds into a draft, left to right.
pub open spec fn parse_rec(args: Seq<String>, d: ArgDraft) -> Result<ArgDraft, ArgError>
    decreases args.len(),
{
    if args.len() == 0 {
        Ok(d)
    } else if is_flag(args[0]@) {
        if args.len() == 1 {
            Err(ArgError::MissingValue)
        } else {
            match step_flag(d, args[0]@, args[1]) {
                Ok(d2) => parse_rec(args.skip(2), d2),
                Err(e) => Err(e),
            }
        }
    } else {
        if d.playlist_uri is Some {
            Err(ArgError::UnexpectedArgument)
        } else {
            parse_rec(args.skip(1), ArgDraft { playlist_uri: Some(args[0]), ..d })
        }
    }
}

/// The draft names everything that has no default.
pub open spec fn draft_complete(d: ArgDraft) -> bool {
    d.playlist_uri is Some && d.credentials is Some
}

/// Which required argument an incomplete draft misses.
pub open spec fn draft_missing(d: ArgDraft) -> ArgError {
    if d.playlist_uri is None {
        ArgError::MissingPlaylistUri
    } else {
        ArgError::MissingCredentials
    }
}

fn str_is(v: &String, lit: &str) -> (b: bool)
    ensures
        b == (v@ == lit@),
{
    let s: String = lit.to_owned();
    v.eq(&s)
}

fn is_flag_token(a: &String) -> (b: bool)
    ensures
        b == is_flag(a@),
{
    let st = a.as_str();
    if st.is_empty() {
        return false;
    }
    let c = st.get_char(0);
    c == '-'
}

proof fn lemma_dec_value_nonneg(s: Seq<char>)
    requires
        all_digits(s),
    ensures
        dec_value(s) >= 0,
    decreases s.len(),
{
    if s.len() > 0 {
        assert(forall|i: int|
            0 <= i < s.drop_last().len() ==> #[trigger] s.drop_last()[i] == s[i]);
        lemma_dec_value_nonneg(s.drop_last());
        assert(is_digit(s[s.len() - 1]));
    }
}

proof fn lemma_dec_value_monotone(s: Seq<char>, i: int)
    requires
        all_digits(s),
        0 <= i <= s.len(),
    ensures
        dec_value(s.take(i)) <= dec_value(s),
    decreases s.len() - i,
{
    if i == s.len() {
        assert(s.take(i) =~= s);
    } else {
        lemma_dec_value_monotone(s, i + 1);
        assert(s.take(i + 1).drop_last() =~= s.take(i));
        assert(forall|j: int| 0 <= j < i ==> #[trigger] s.take(i)[j] == s[j]);
        lemma_dec_value_nonneg(s.take(i));
        assert(s.take(i + 1).last() == s[i]);
        assert(is_digit(s[i]));
    }
}

fn parse_number_arg(s: &String, lo: u32, hi: u32) -> (r: Result<u32, ArgError>)
    requires
        1 <= lo <= hi <= 100000,
    ensures
        r == parse_number(s@, lo, hi),
{
    let st = s.as_str();
    let len = st.unicode_len();
    if len == 0 {
        return Err(ArgError::InvalidNumber);
    }
    let mut i: usize = 0;
    while i < len
        invariant
            len == s@.len(),
            st@ == s@,
            i <= len,
            forall|j: int| 0 <= j < i ==> is_digit(#[trigger] s@[j]),
        decreases len - i,
    {
        let c = st.get_char(i);
        let cv = c as u32;
        if cv < 48 || cv > 57 {
            assert(!is_digit(s@[i as int]));
            return Err(ArgError::InvalidNumber);
        }
        assert(is_digit(s@[i as int]));
        i = i + 1;
    }
    assert(all_digits(s@));
    let mut acc: u32 = 0;
    let mut i: usize = 0;
    proof {
        assert(s@.take(0) =~= Seq::<char>::empty());
    }
    while i < len
        invariant
            1 <= lo <= hi <= 100000,
            len == s@.len(),
            st@ == s@,
            i <= len,
            all_digits(s@),
            acc as int == dec_value(s@.take(i as int)),
            acc <= hi,
        decreases len - i,
    {
        let c = st.get_char(i);
        let cv = c as u32;
        assert(is_digit(s@[i as int]));
        assert(48 <= cv <= 57);
        let tentative = acc * 10 + (cv - 48);
        proof {
            assert(s@.take(i + 1).drop_last() =~= s@.take(i as int));
            assert(s@.take(i + 1).last() == s@[i as int]);
            assert(tentative as int == dec_value(s@.take(i + 1)));
        }
        if tentative > hi {
            proof {
                lemma_dec_value_monotone(s@, i + 1);
            }
            return Err(ArgError::OutOfRange);
        }
        acc = tentative;
        i = i + 1;
    }
    proof {
        assert(s@.take(len as int) =~= s@);
    }
    if acc < lo {
        return Err(ArgError::OutOfRange);
    }
    Ok(acc)
}

fn parse_arrangement_arg(s: &String) -> (r: Result<TileArrangement, ArgError>)
    ensures
        r == parse_arrangement_name(s@),
{
    if str_is(s, "first") {
        Ok(TileArrangement::First)
    } else if str_is(s, "last") {
        Ok(TileArrangement::Last)
    } else if str_is(s, "random") {
        Ok(TileArrangement::Random)
    } else {
        Err(ArgError::InvalidArrangement)
    }
}

/// Parse the command line, the program's own name not among the arguments.
/// The result is exactly what the grammar's fold yields: the draft's
/// settings over the defaults, or the first error.
pub fn parse_args(args: &Vec<String>) -> (r: Result<CliArgs, ArgError>)
    ensures
        match parse_rec(args@, empty_draft()) {
            Ok(d) => {
                if draft_complete(d) {
                    &&& r is Ok
                    &&& r->Ok_0.playlist_uri == d.playlist_uri->0
                    &&& r->Ok_0.credentials == d.credentials->0
                    &&& r->Ok_0.tile_side_len == (match d.tile_side_len {
                        Some(n) => n,
                        None => 2u32,
                    })
                    &&& r->Ok_0.output_path@ == (match d.output_path {
                        Some(p) => p@,
                        None => "mosaic.png"@,
                    })
                    &&& r->Ok_0.arrangement == (match d.arrangement {
                        Some(a) => a,
                        None => TileArrangement::First,
                    })
                    &&& r->Ok_0.resolution == (match d.resolution {
                        Some(n) => n,
                        None => 640u32,
                    })
                } else {
                    r == Err::<CliArgs, ArgError>(draft_missing(d))
                }
            },
            Err(e) => r == Err::<CliArgs, ArgError>(e),
        },
{
    let ghost all = args@;
    let mut d = ArgDraft {
        playlist_uri: None,
        credentials: None,
        tile_side_len: None,
        output_path: None,
        arrangement: None,
        resolution: None,
    };
    let mut i: usize = 0;
    proof {
        assert(all.skip(0) =~= all);
    }
    while i < args.len()
        invariant
            i <= all.len(),
            all == args@,
            parse_rec(all, empty_draft()) == parse_rec(all.skip(i as int), d),
        decreases all.len() - i,
    {
        let ghost rest = all.skip(i as int);
        proof {
            assert(rest[0] == all[i as int]);
        }
        let a = &args[i];
        if is_flag_token(a) {
            if i + 1 >= args.len() {
                assert(rest.len() == 1);
                return Err(ArgError::MissingValue);
            }
            proof {
                assert(rest[1] == all[i + 1]);
                assert(rest.skip(2) =~= all.skip(i + 2));
            }
            let v = &args[i + 1];
            let ghost pre = d;
            if str_is(a, "--creds") {
                if d.credentials.is_some() {
                    return Err(ArgError::DuplicateArgument);
                }
                d.credentials = Some(v.clone());
            } else if str_is(a, "-t") || str_is(a, "--tiles") {
                if d.tile_side_len.is_some() {
                    return Err(ArgError::DuplicateArgument);
                }
                match parse_number_arg(v, 1, 128) {
                    Ok(n) => {
                        d.tile_side_len = Some(n);
                    },
                    Err(e) => {
                        return Err(e);
                    },
                }
            } else if str_is(a, "-o") || str_is(a, "--out") {
                if d.output_path.is_some() {
                    return Err(ArgError::DuplicateArgument);
                }
                d.output_path = Some(v.clone());
            } else if str_is(a, "-a") || str_is(a, "--arrange") {
                if d.arrangement.is_some() {
                    return Err(ArgError::DuplicateArgument);
                }
                match parse_arrangement_arg(v) {
                    Ok(arr) => {
                        d.arrangement = Some(arr);
                    },
                    Err(e) => {
                        return Err(e);
                    },
                }
            } else if str_is(a, "-r") || str_is(a, "--res") {
                if d.resolution.is_some() {
                    return Err(ArgError::DuplicateArgument);
                }
                match parse_number_arg(v, 16, 4096) {
                    Ok(n) => {
                        d.resolution = Some(n);
                    },
                    Err(e) => {
                        return Err(e);
                    },
                }
            } else {
                return Err(ArgError::UnknownArgument);
            }
            proof {
                assert(step_flag(pre, all[i as int]@, all[i + 1]) == Ok::<ArgDraft, ArgError>(d));
            }
            i = i + 2;
        } else {
            if d.playlist_uri.is_some() {
                return Err(ArgError::UnexpectedArgument);
            }
            proof {
                assert(rest.skip(1) =~= all.skip(i + 1));
            }
            d.playlist_uri = Some(a.clone());
            i = i + 1;
        }
    }
    proof {
        assert(all.skip(i as int) =~= Seq::<String>::empty());
    }
    if d.playlist_uri.is_none() {
        return Err(ArgError::MissingPlaylistUri);
    }
    if d.credentials.is_none() {
        return Err(ArgError::MissingCredentials);
    }
    let ghost dfin = d;
    let playlist_uri = d.playlist_uri.unwrap();
    let credentials = d.credentials.unwrap();
    let tile_side_len = match d.tile_side_len {
        Some(n) => n,
        None => 2,
    };
    let output_path = match d.output_path {
        Some(p) => p,
        None => "mosaic.png".to_owned(),
    };
    let arrangement = match d.arrangement {
        Some(a) => a,
        None => TileArrangement::First,
    };
    let resolution = match d.resolution {
        Some(n) => n,
        None => 640,
    };
    Ok(CliArgs { playlist_uri, credentials, tile_side_len, output_path, arrangement, resolution })
}

} // verus!
