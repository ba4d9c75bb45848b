//! Output options of a build: format, output path and source URL.
use crate::text::{texts_equal, texts_view};
use vstd::prelude::*;

verus! {

/// The syntax of the generated script.
#[derive(Clone, Copy, Debug, PartialEq, Eq, Structural)]
pub enum Format {
    Docker,
    Shell,
}

/// The format that an option value names: `d` or `sh`.
pub open spec fn format_named(s: Seq<char>) -> Option<Format> {
    if s == "d"@ {
        Some(Format::Docker)
    } else if s == "sh"@ {
        Some(Format::Shell)
    } else {
        None
    }
}

impl Format {
    /// Reads a format name: `d` for Docker, `sh` for shell.
    pub fn from_name(s: &str) -> (r: Option<Format>)
        ensures
            r == format_named(s@),
    {
        if texts_equal(s, "d") {
            Some(Format::Docker)
        } else if texts_equal(s, "sh") {
            Some(Format::Shell)
        } else {
            None
        }
    }
}

/// Why an option could not be set.
#[derive(Clone, Copy, Debug, PartialEq, Eq, Structural)]
pub enum OptionError {
    /// The format value is neither `d` nor `sh`.
    UnknownFormat,
    /// The option name is none of `f`, `o`, `url`.
    UnknownOption,
}

/// The options of a build.
#[derive(Debug)]
pub struct Options {
    pub format: Format,
    pub outpath: String,
    pub url: String,
}

impl Options {
    /// Shell output, no output path, no URL.
    pub fn new() -> (r: Options)
        ensures
            r.format == Format::Shell,
            r.outpath@.len() == 0,
            r.url@.len() == 0,
    {
        Options { format: Format::Shell, outpath: String::new(), url: String::new() }
    }

    /// Sets one option by name: `f` (format), `o` (output path) or `url`.
    pub fn set_option(&mut self, option_name: &str, option_value: String) -> (r: Result<(), OptionError>)
        ensures
            option_name@ == "f"@ ==> match format_named(option_value@) {
                Some(f) => r is Ok && final(self).format == f && final(self).outpath == old(self).outpath
                    && final(self).url == old(self).url,
                None => r == Err::<(), OptionError>(OptionError::UnknownFormat) && *final(self) == *old(self),
            },
            option_name@ != "f"@ && option_name@ == "o"@ ==> r is Ok && final(self).outpath@ == option_value@
                && final(self).format == old(self).format && final(self).url == old(self).url,
            option_name@ != "f"@ && option_name@ != "o"@ && option_name@ == "url"@ ==> r is Ok
                && final(self).url@ == option_value@ && final(self).format == old(self).format
                && final(self).outpath == old(self).outpath,
            option_name@ != "f"@ && option_name@ != "o"@ && option_name@ != "url"@ ==> r == Err::<
                (),
                OptionError,
            >(OptionError::UnknownOption) && *final(self) == *old(self),
    {
        if texts_equal(option_name, "f") {
            match Format::from_name(option_value.as_str()) {
                Some(f) => {
                    self.format = f;
                    Ok(())
                },
                None => Err(OptionError::UnknownFormat),
            }
        } else if texts_equal(option_name, "o") {
            self.outpath = option_value;
            Ok(())
        } else if texts_equal(option_name, "url") {
            self.url = option_value;
            Ok(())
        } else {
            Err(OptionError::UnknownOption)
        }
    }
}

/// What the command-line arguments read so far make: the options, an option
/// name still waiting for its value, and the arguments that are not options.
pub struct ArgumentsState {
    pub format: Format,
    pub outpath: Seq<char>,
    pub url: Seq<char>,
    pub pending: Option<Seq<char>>,
    pub rest: Seq<Seq<char>>,
}

pub open spec fn initial_arguments_state() -> ArgumentsState {
    ArgumentsState {
        format: Format::Shell,
        outpath: Seq::empty(),
        url: Seq::empty(),
        pending: None,
        rest: Seq::empty(),
    }
}

/// Setting the option `name` to `value` (see `Options::set_option`).
pub open spec fn with_option(st: ArgumentsState, name: Seq<char>, value: Seq<char>) -> Result<
    ArgumentsState,
    OptionError,
> {
    if name == "f"@ {
        match format_named(value) {
            Some(f) => Ok(ArgumentsState { format: f, pending: None, ..st }),
            None => Err(OptionError::UnknownFormat),
        }
    } else if name == "o"@ {
        Ok(ArgumentsState { outpath: value, pending: None, ..st })
    } else if name == "url"@ {
        Ok(ArgumentsState { url: value, pending: None, ..st })
    } else {
        Err(OptionError::UnknownOption)
    }
}

/// The number of `-` a text starts with.
pub open spec fn dash_count(s: Seq<char>) -> nat
    decreases s.len(),
{
    if s.len() > 0 && s[0] == '-' {
        1 + dash_count(s.drop_first())
    } else {
        0
    }
}

/// The position of the first `=`, or -1.
pub open spec fn first_equals(s: Seq<char>) -> int
    decreases s.len(),
{
    if s.len() == 0 {
        -1
    } else if s[0] == '=' {
        0
    } else if first_equals(s.drop_first()) < 0 {
        -1
    } else {
        first_equals(s.drop_first()) + 1
    }
}

/// Reading one argument: the value of a waiting option name; an option
/// `-name=value` (any number of leading dashes); an option name `-name` whose
/// value is the next argument; or a plain argument.
pub open spec fn argument_step(st: ArgumentsState, arg: Seq<char>) -> Result<ArgumentsState, OptionError> {
    match st.pending {
        Some(name) => with_option(st, name, arg),
        None => if arg.len() > 0 && arg[0] == '-' {
            let body = arg.skip(dash_count(arg) as int);
            let e = first_equals(body);
            if e >= 0 {
                with_option(st, body.take(e), body.skip(e + 1))
            } else {
                Ok(ArgumentsState { pending: Some(body), ..st })
            }
        } else {
            Ok(ArgumentsState { rest: st.rest.push(arg), ..st })
        },
    }
}

/// What a list of arguments makes, read in order; the first error stops it.
pub open spec fn arguments_after(args: Seq<Seq<char>>) -> Result<ArgumentsState, OptionError>
    decreases args.len(),
{
    if args.len() == 0 {
        Ok(initial_arguments_state())
    } else {
        match arguments_after(args.drop_last()) {
            Err(e) => Err(e),
            Ok(st) => argument_step(st, args.last()),
        }
    }
}

proof fn lemma_dash_count(s: Seq<char>, i: int)
    requires
        0 <= i <= s.len(),
        forall|k: int| 0 <= k < i ==> s[k] == '-',
        i == s.len() || s[i] != '-',
    ensures
        dash_count(s) == i,
    decreases i,
{
    if i > 0 {
        lemma_dash_count(s.drop_first(), i - 1);
    }
}

proof fn lemma_first_equals(s: Seq<char>, i: int)
    requires
        0 <= i <= s.len(),
        forall|k: int| 0 <= k < i ==> s[k] != '=',
        i == s.len() || s[i] == '=',
    ensures
        first_equals(s) == if i == s.len() {
            -1
        } else {
            i
        },
    decreases i,
{
    if i > 0 {
        lemma_first_equals(s.drop_first(), i - 1);
    }
}

/// Reads the command-line arguments that follow the program path into
/// options and the arguments that are not options (see `arguments_after`).
pub fn parse_arguments(args: &Vec<String>) -> (r: Result<(Options, Vec<String>), OptionError>)
    ensures
        match arguments_after(texts_view(args@)) {
            Ok(st) => r matches Ok((o, rest)) && o.format == st.format && o.outpath@ == st.outpath
                && o.url@ == st.url && texts_view(rest@) == st.rest,
            Err(e) => r == Err::<(Options, Vec<String>), OptionError>(e),
        },
{
    let ghost all = texts_view(args@);
    let mut options = Options::new();
    let mut pending: Option<String> = None;
    let mut rest: Vec<String> = Vec::new();
    let mut i: usize = 0;
    assert(all.subrange(0, 0) =~= Seq::<Seq<char>>::empty());
    assert(texts_view(rest@) =~= Seq::<Seq<char>>::empty());
    while i < args.len()
        invariant
            all == texts_view(args@),
            i <= args@.len(),
            arguments_after(all.subrange(0, i as int)) matches Ok(st) && st.format == options.format
                && st.outpath == options.outpath@ && st.url == options.url@ && st.rest == texts_view(
                rest@,
            ) && st.pending == match pending {
                Some(p) => Some(p@),
                None => None::<Seq<char>>,
            },
        decreases args.len() - i,
    {
        let ghost st = arguments_after(all.subrange(0, i as int))->Ok_0;
        assert(all.subrange(0, i + 1).drop_last() =~= all.subrange(0, i as int));
        assert(all.subrange(0, i + 1).last() == args@[i as int]@);
        let arg = &args[i];
        let s = arg.as_str();
        let n = s.unicode_len();
        match pending {
            Some(name) => {
                let res = options.set_option(name.as_str(), arg.clone());
                if let Err(e) = res {
                    proof {
                        lemma_arguments_error(all, i as int + 1);
                    }
                    return Err(e);
                }
                pending = None;
            },
            None => {
                if n > 0 && s.get_char(0) == '-' {
                    let mut d: usize = 0;
                    while d < n && s.get_char(d) == '-'
                        invariant
                            n == s@.len(),
                            d <= n,
                            forall|k: int| 0 <= k < d ==> s@[k] == '-',
                        decreases n - d,
                    {
                        d = d + 1;
                    }
                    proof {
                        lemma_dash_count(s@, d as int);
                    }
                    let body = s.substring_char(d, n);
                    let m = body.unicode_len();
                    let mut e: usize = 0;
                    while e < m && body.get_char(e) != '='
                        invariant
                            m == body@.len(),
                            e <= m,
                            forall|k: int| 0 <= k < e ==> body@[k] != '=',
                        decreases m - e,
                    {
                        e = e + 1;
                    }
                    proof {
                        lemma_first_equals(body@, e as int);
                        assert(body@ =~= s@.skip(d as int));
                    }
                    if e < m {
                        let name = body.substring_char(0, e);
                        let value = String::from_str(body.substring_char(e + 1, m));
                        assert(name@ =~= body@.take(e as int));
                        assert(value@ =~= body@.skip(e + 1));
                        let res = options.set_option(name, value);
                        if let Err(err) = res {
                            proof {
                                lemma_arguments_error(all, i as int + 1);
                            }
                            return Err(err);
                        }
                    } else {
                        pending = Some(String::from_str(body));
                    }
                } else {
                    rest.push(arg.clone());
                    assert(texts_view(rest@) =~= st.rest.push(arg@));
                }
            },
        }
        i = i + 1;
    }
    assert(all.subrange(0, i as int) =~= all);
    Ok((options, rest))
}

proof fn lemma_arguments_error(all: Seq<Seq<char>>, n: int)
    requires
        0 <= n <= all.len(),
        arguments_after(all.subrange(0, n)) is Err,
    ensures
        arguments_after(all) == arguments_after(all.subrange(0, n)),
    decreases all.len() - n,
{
    if n < all.len() {
        assert(all.subrange(0, n + 1).drop_last() =~= all.subrange(0, n));
        lemma_arguments_error(all, n + 1);
    } else {
        assert(all.subrange(0, n) =~= all);
    }
}

} // verus!
