use sb::arguments::{pop_first_argument_or_take_default, requested_slices_from_argument};
use sb::options::{Format, OptionError, Options};
use sb::version::parse;
use sb::{SliceError, VersionMatchStrategy};

#[test]
fn options_defaults() {
    let options = Options::new();
    assert_eq!(options.format, Format::Shell);
    assert!(options.outpath.is_empty() && options.url.is_empty());
}

#[test]
fn options_are_set_by_name() {
    let mut options = Options::new();
    assert_eq!(options.set_option("f", "d".to_string()), Ok(()));
    assert_eq!(options.format, Format::Docker);
    assert_eq!(options.set_option("o", "/tmp/out".to_string()), Ok(()));
    assert_eq!(options.outpath, "/tmp/out");
    assert_eq!(options.set_option("url", "http://x".to_string()), Ok(()));
    assert_eq!(options.url, "http://x");
    assert_eq!(options.set_option("f", "zip".to_string()), Err(OptionError::UnknownFormat));
    assert_eq!(options.set_option("q", "1".to_string()), Err(OptionError::UnknownOption));
    assert_eq!(options.format, Format::Docker);
}

#[test]
fn first_argument_or_default() {
    let mut args = vec!["jekyll".to_string(), "debian".to_string()];
    assert_eq!(pop_first_argument_or_take_default(&mut args, "x".to_string()), "jekyll");
    assert_eq!(args, vec!["debian".to_string()]);
    let mut empty: Vec<String> = Vec::new();
    assert_eq!(pop_first_argument_or_take_default(&mut empty, "x".to_string()), "x");
}

#[test]
fn requests_from_argument() {
    let requests = requested_slices_from_argument("jekyll,ruby-2.2").unwrap();
    assert_eq!(requests.len(), 2);
    assert_eq!(requests[0].name, "jekyll");
    assert_eq!(requests[1].name, "ruby");
    assert_eq!(requests[1].version, parse("2.2").unwrap());
    assert_eq!(requests[1].version_match_strategy, VersionMatchStrategy::ExactOrGreater);
    assert_eq!(requested_slices_from_argument("a,b-1.x").unwrap_err(), SliceError::InvalidVersion);
}

#[test]
fn arguments_are_split_into_options_and_positionals() {
    let args: Vec<String> = ["make", "-f", "d", "--o=/tmp/x", "jekyll", "debian"].iter().map(|s| s.to_string()).collect();
    let (options, rest) = sb::options::parse_arguments(&args).unwrap();
    assert_eq!(options.format, Format::Docker);
    assert_eq!(options.outpath, "/tmp/x");
    assert_eq!(rest, vec!["make".to_string(), "jekyll".to_string(), "debian".to_string()]);
}

#[test]
fn unknown_argument_option_is_an_error() {
    let args: Vec<String> = ["-x=1"].iter().map(|s| s.to_string()).collect();
    assert_eq!(sb::options::parse_arguments(&args).unwrap_err(), OptionError::UnknownOption);
    let args: Vec<String> = ["--f", "zip"].iter().map(|s| s.to_string()).collect();
    assert_eq!(sb::options::parse_arguments(&args).unwrap_err(), OptionError::UnknownFormat);
}
