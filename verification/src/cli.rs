//! Command-line arguments. Each argument is the raw bytes of an OS string.
use crate::text::{chars_of, from_utf8_lossy, lossy_utf8, push_str, string_of};
use vstd::prelude::*;

verus! {

#[derive(Debug, PartialEq, Eq)]
pub enum CliAction {
    Help,
    Version,
    Play { path: Vec<u8>, perf_log: bool },
}

/// What parsing the command line decides, in terms of plain values.
pub enum CliOutcome {
    Help,
    Version,
    Play { path: Seq<u8>, perf_log: bool },
    Error(Seq<char>),
}

/// The outcome that a parse result stands for.
pub open spec fn outcome_of(r: Result<CliAction, String>) -> CliOutcome {
    match r {
        Ok(CliAction::Help) => CliOutcome::Help,
        Ok(CliAction::Version) => CliOutcome::Version,
        Ok(CliAction::Play { path, perf_log }) => CliOutcome::Play { path: path@, perf_log },
        Err(message) => CliOutcome::Error(message@),
    }
}

/// `bytes` spell out the ASCII text `s`.
pub open spec fn spells(bytes: Seq<u8>, s: Seq<char>) -> bool {
    bytes.len() == s.len() && forall|j: int| 0 <= j < s.len() ==> bytes[j] as u32 == #[trigger] s[j] as u32
}

/// Parses the remaining `args`: `--` ends the options, `--perf` enables
/// statistics, `-h`/`--help` and `-V`/`--version` answer at once, any other
/// argument starting with `-` is an unknown option, and exactly one media
/// path must be given.
pub open spec fn parse_spec(
    args: Seq<Seq<u8>>,
    path: Option<Seq<u8>>,
    perf_log: bool,
    parse_options: bool,
) -> CliOutcome
    decreases args.len(),
{
    if args.len() == 0 {
        match path {
            Some(p) => CliOutcome::Play { path: p, perf_log },
            None => CliOutcome::Error("no media file was specified"@),
        }
    } else {
        let a = args[0];
        let rest = args.drop_first();
        if parse_options && spells(a, "--"@) {
            parse_spec(rest, path, perf_log, false)
        } else if parse_options && spells(a, "--perf"@) {
            parse_spec(rest, path, true, parse_options)
        } else if parse_options && (spells(a, "-h"@) || spells(a, "--help"@)) {
            CliOutcome::Help
        } else if parse_options && (spells(a, "-V"@) || spells(a, "--version"@)) {
            CliOutcome::Version
        } else if parse_options && a.len() > 0 && a[0] == 45u8 {
            CliOutcome::Error("unknown option: "@ + lossy_utf8(a))
        } else if path is None {
            parse_spec(rest, Some(a), perf_log, parse_options)
        } else {
            CliOutcome::Error("only one media file can be played at a time"@)
        }
    }
}

/// `bytes` equals the ASCII string `s`.
fn equals_ascii(bytes: &Vec<u8>, s: &str) -> (r: bool)
    ensures
        r == spells(bytes@, s@),
{
    let chars = chars_of(s);
    if bytes.len() != chars.len() {
        return false;
    }
    let mut i: usize = 0;
    while i < bytes.len()
        invariant
            0 <= i <= bytes@.len(),
            bytes@.len() == chars@.len(),
            chars@ == s@,
            forall|j: int| 0 <= j < i ==> bytes@[j] as u32 == #[trigger] s@[j] as u32,
        decreases bytes@.len() - i,
    {
        if bytes[i] as u32 != chars[i] as u32 {
            return false;
        }
        i = i + 1;
    }
    true
}

fn string_from(s: &str) -> (r: String)
    ensures
        r@ == s@,
{
    string_of(chars_of(s).as_slice())
}

/// Parses the arguments after the program name.
pub fn parse_cli(arguments: Vec<Vec<u8>>) -> (r: Result<CliAction, String>)
    ensures
        outcome_of(r) == parse_spec(arguments@.map_values(|a: Vec<u8>| a@), None, false, true),
{
    proof {
        reveal_strlit("--");
        reveal_strlit("--perf");
        reveal_strlit("-h");
        reveal_strlit("--help");
        reveal_strlit("-V");
        reveal_strlit("--version");
    }
    let ghost args = arguments@.map_values(|a: Vec<u8>| a@);
    assert(args.subrange(0, args.len() as int) == args);
    let mut path: Option<Vec<u8>> = None;
    let mut perf_log = false;
    let mut parse_options = true;
    let mut i: usize = 0;
    while i < arguments.len()
        invariant
            0 <= i <= arguments@.len(),
            args == arguments@.map_values(|a: Vec<u8>| a@),
            parse_spec(args, None, false, true) == parse_spec(
                args.subrange(i as int, args.len() as int),
                match path {
                    Some(p) => Some(p@),
                    None => None,
                },
                perf_log,
                parse_options,
            ),
        decreases arguments@.len() - i,
    {
        proof {
            assert(args.subrange(i as int, args.len() as int).drop_first() == args.subrange(
                i + 1,
                args.len() as int,
            ));
        }
        let argument = &arguments[i];
        if parse_options && equals_ascii(argument, "--") {
            parse_options = false;
        } else if parse_options && equals_ascii(argument, "--perf") {
            perf_log = true;
        } else if parse_options && (equals_ascii(argument, "-h") || equals_ascii(
            argument,
            "--help",
        )) {
            return Ok(CliAction::Help);
        } else if parse_options && (equals_ascii(argument, "-V") || equals_ascii(
            argument,
            "--version",
        )) {
            return Ok(CliAction::Version);
        } else if parse_options && argument.len() > 0 && argument[0] == 45u8 {
            let mut message = chars_of("unknown option: ");
            let name = from_utf8_lossy(argument.as_slice());
            push_str(&mut message, name.as_str());
            return Err(string_of(message.as_slice()));
        } else if path.is_none() {
            path = Some(argument.clone());
        } else {
            return Err(string_from("only one media file can be played at a time"));
        }
        i = i + 1;
    }
    match path {
        Some(path) => Ok(CliAction::Play { path, perf_log }),
        None => Err(string_from("no media file was specified")),
    }
}

/// The usage text for `program`.
pub open spec fn usage_spec(program: Seq<char>) -> Seq<char> {
    "Usage: "@ + program
        + " [OPTIONS] VIDEO\n\nOptions:\n  --perf         print playback performance statistics\n  -h, --help     show this help\n  -V, --version  show the version"@
}

pub fn usage(program: &str) -> (r: String)
    ensures
        r@ == usage_spec(program@),
{
    let mut out = chars_of("Usage: ");
    push_str(&mut out, program);
    push_str(
        &mut out,
        " [OPTIONS] VIDEO\n\nOptions:\n  --perf         print playback performance statistics\n  -h, --help     show this help\n  -V, --version  show the version",
    );
    string_of(out.as_slice())
}

} // verus!
