use undefined_player::cli::{parse_cli, usage, CliAction};

fn cli(arguments: &[&str]) -> Result<CliAction, String> {
    parse_cli(arguments.iter().map(|a| a.as_bytes().to_vec()).collect())
}

#[test]
fn command_line_supports_standard_information_options() {
    assert_eq!(cli(&["--help"]), Ok(CliAction::Help));
    assert_eq!(cli(&["-h"]), Ok(CliAction::Help));
    assert_eq!(cli(&["--version"]), Ok(CliAction::Version));
    assert_eq!(cli(&["-V"]), Ok(CliAction::Version));
}

#[test]
fn command_line_parses_playback_options_and_paths() {
    assert_eq!(
        cli(&["--perf", "movie.mkv"]),
        Ok(CliAction::Play {
            path: b"movie.mkv".to_vec(),
            perf_log: true,
        })
    );
    assert_eq!(
        cli(&["--", "--unusual-name.mkv"]),
        Ok(CliAction::Play {
            path: b"--unusual-name.mkv".to_vec(),
            perf_log: false,
        })
    );
}

#[test]
fn command_line_rejects_missing_files_and_unknown_options() {
    assert_eq!(cli(&[]), Err("no media file was specified".into()));
    assert_eq!(cli(&["--wat"]), Err("unknown option: --wat".into()));
    assert_eq!(
        cli(&["one.mkv", "two.mkv"]),
        Err("only one media file can be played at a time".into())
    );
}

#[test]
fn information_options_win_even_after_a_path() {
    assert_eq!(cli(&["movie.mkv", "--help"]), Ok(CliAction::Help));
    assert_eq!(cli(&["--perf", "-V"]), Ok(CliAction::Version));
    assert_eq!(
        cli(&["--", "-h"]),
        Ok(CliAction::Play {
            path: b"-h".to_vec(),
            perf_log: false,
        })
    );
}

#[test]
fn non_utf8_paths_are_kept_byte_for_byte() {
    let raw = vec![b'a', 0xff, b'.', b'm'];
    assert_eq!(
        parse_cli(vec![raw.clone()]),
        Ok(CliAction::Play {
            path: raw,
            perf_log: false,
        })
    );
    assert_eq!(
        parse_cli(vec![vec![b'-', 0xff]]),
        Err("unknown option: -\u{fffd}".into())
    );
}

#[test]
fn usage_names_the_program_and_every_option() {
    assert_eq!(
        usage("undefined-player"),
        "Usage: undefined-player [OPTIONS] VIDEO\n\nOptions:\n  --perf         print playback performance statistics\n  -h, --help     show this help\n  -V, --version  show the version"
    );
}
