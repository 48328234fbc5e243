//! Decisions of the Windows launcher: the command that adds the default
//! user, reading the uid that `id -u` prints, and telling Windows 10 from
//! Windows 11 by the build number that `ver` prints; the names under which
//! an archive may hold a path.

use vstd::prelude::*;
use crate::patterns::{opt_chars, regex_captures, regex_valid, Pattern};
use crate::paths::{path_strip_prefix, strip_path_prefix};
use crate::text::{str_to_chars, extend_str, parse_u32, parse_u32_spec, seq_to_string, string_from_utf8, trim_str, trimmed};

verus! {

/// The shell command that adds `user_name` with a home and bash, asks for its
/// password until one is set, and lets it use sudo.
pub open spec fn add_user_command_spec(user_name: Seq<char>) -> Seq<char> {
    "useradd -m --shell /bin/bash '"@ + user_name + "' && while ! passwd "@ + user_name
        + "; do : ; done && echo '"@ + user_name + " ALL=(ALL:ALL) ALL' >> /etc/sudoers"@
}

/// The shell command that adds the default user `user_name`.
pub fn add_user_command(user_name: &str) -> (r: String)
    ensures
        r@ == add_user_command_spec(user_name@),
{
    let mut v: Vec<char> = Vec::new();
    extend_str(&mut v, "useradd -m --shell /bin/bash '");
    extend_str(&mut v, user_name);
    extend_str(&mut v, "' && while ! passwd ");
    extend_str(&mut v, user_name);
    extend_str(&mut v, "; do : ; done && echo '");
    extend_str(&mut v, user_name);
    extend_str(&mut v, " ALL=(ALL:ALL) ALL' >> /etc/sudoers");
    assert(v@ =~= add_user_command_spec(user_name@));
    seq_to_string(&v)
}

/// Why a command's output could not be read.
#[derive(Debug, Clone, Copy, PartialEq, Eq)]
pub enum OutputError {
    /// The output is not UTF-8.
    InvalidUtf8,
    /// The output does not have the expected form.
    UnexpectedFormat,
    /// The number in it is not a decimal `u32`.
    NotANumber,
}

/// The uid that `id -u` printed: its output, trimmed, as a decimal `u32`.
pub open spec fn uid_of_output(out: Seq<u8>) -> Result<u32, OutputError> {
    if !vstd::utf8::valid_utf8(out) {
        Err(OutputError::InvalidUtf8)
    } else {
        match parse_u32_spec(trimmed(vstd::utf8::decode_utf8(out))) {
            Some(u) => Ok(u),
            None => Err(OutputError::NotANumber),
        }
    }
}

/// Reads the uid that `id -u` printed.
pub fn query_uid(stdout: Vec<u8>) -> (r: Result<u32, OutputError>)
    ensures
        r == uid_of_output(stdout@),
{
    let ghost bytes = stdout@;
    let text = match string_from_utf8(stdout) {
        Some(t) => t,
        None => {
            return Err(OutputError::InvalidUtf8);
        },
    };
    match parse_u32(trim_str(text.as_str())) {
        Some(u) => Ok(u),
        None => Err(OutputError::NotANumber),
    }
}

/// The pattern of the version that `ver` prints, the build number its group.
pub open spec fn version_pattern() -> Seq<char> {
    "\\[Version 10\\.0\\.([0-9]*)\\."@
}

/// The build number in the output of `ver`: the first group of the version
/// pattern in the trimmed output, as a decimal `u32`. A pattern the regex
/// crate refuses, like an output without a version, is an unexpected format.
pub open spec fn build_number_of_output(out: Seq<u8>) -> Result<u32, OutputError> {
    if !vstd::utf8::valid_utf8(out) {
        Err(OutputError::InvalidUtf8)
    } else if !regex_valid(version_pattern()) {
        Err(OutputError::UnexpectedFormat)
    } else {
        match regex_captures(version_pattern(), trimmed(vstd::utf8::decode_utf8(out))) {
            Some(groups) => if groups.len() > 1 && groups[1] is Some {
                match parse_u32_spec(groups[1]->Some_0) {
                    Some(n) => Ok(n),
                    None => Err(OutputError::NotANumber),
                }
            } else {
                Err(OutputError::UnexpectedFormat)
            },
            None => Err(OutputError::UnexpectedFormat),
        }
    }
}

/// Reads the Windows build number from the output of `ver`.
pub fn get_windows10_build_number(stdout: Vec<u8>) -> (r: Result<u32, OutputError>)
    ensures
        r == build_number_of_output(stdout@),
{
    let text = match string_from_utf8(stdout) {
        Some(t) => t,
        None => {
            return Err(OutputError::InvalidUtf8);
        },
    };
    let pattern = match Pattern::new("\\[Version 10\\.0\\.([0-9]*)\\.") {
        Some(p) => p,
        None => {
            return Err(OutputError::UnexpectedFormat);
        },
    };
    let trimmed_text = trim_str(text.as_str());
    let groups = match pattern.captures(trimmed_text) {
        Some(g) => g,
        None => {
            return Err(OutputError::UnexpectedFormat);
        },
    };
    if groups.len() <= 1 {
        return Err(OutputError::UnexpectedFormat);
    }
    assert(opt_chars(groups@[1]) == groups@.map_values(|g: Option<String>| opt_chars(g))[1]);
    match &groups[1] {
        Some(number) => match parse_u32(number.as_str()) {
            Some(n) => Ok(n),
            None => Err(OutputError::NotANumber),
        },
        None => Err(OutputError::UnexpectedFormat),
    }
}

/// Whether the build number read from `ver` is one of Windows 10 (before
/// 22000); a number that could not be read counts as no.
pub fn is_windows10(build_number: Result<u32, OutputError>) -> (r: bool)
    ensures
        r == (build_number matches Ok(n) && n < 22000),
{
    match build_number {
        Ok(n) => n < 22000,
        Err(_) => false,
    }
}

/// The names under which a tar archive may record `p`: `p` itself and, for
/// a path with a root, the path without it and the path after `.`.
pub open spec fn name_candidates(p: Seq<char>) -> Seq<Seq<char>> {
    match path_strip_prefix(p, "/"@) {
        Some(rel) => seq![p, rel, seq!['.'] + p],
        None => seq![p],
    }
}

/// The names under which a tar archive may record `path`.
pub fn gen_name_candidates_for_path(path: &str) -> (r: Vec<String>)
    ensures
        r@.map_values(|s: String| s@) == name_candidates(path@),
{
    let mut r: Vec<String> = Vec::new();
    r.push(path.to_owned());
    assert(r@.map_values(|s: String| s@) =~= seq![path@]);
    match strip_path_prefix(path, "/") {
        Some(rel) => {
            let ghost rv = rel@;
            r.push(rel);
            assert(r@.map_values(|s: String| s@) =~= seq![path@, rv]);
            let mut dot = str_to_chars(".");
            extend_str(&mut dot, path);
            proof {
                reveal_strlit(".");
            }
            assert(dot@ =~= seq!['.'] + path@);
            r.push(seq_to_string(&dot));
            assert(r@.map_values(|s: String| s@) =~= seq![path@, rv, seq!['.'] + path@]);
        },
        None => {},
    }
    r
}

/// The arguments of `wsl` that run `command` with `args` in the
/// distribution `name`, or its default shell when there is no command.
pub open spec fn wsl_args_spec(name: Seq<char>, command: Option<Seq<char>>, args: Seq<Seq<char>>) -> Seq<Seq<char>> {
    seq!["-d"@, name] + match command {
        Some(c) => seq!["--"@, c] + args,
        None => Seq::empty(),
    }
}

/// The arguments given to `wsl` to run `command` (with `args`) in the
/// distribution `distribution_name`.
pub fn wsl_command_args(distribution_name: &str, command: Option<&str>, args: &Vec<String>) -> (r: Vec<String>)
    ensures
        r@.map_values(|s: String| s@) == wsl_args_spec(
            distribution_name@,
            match command {
                Some(c) => Some(c@),
                None => None,
            },
            args@.map_values(|s: String| s@),
        ),
{
    let mut r: Vec<String> = Vec::new();
    r.push("-d".to_owned());
    r.push(distribution_name.to_owned());
    let ghost head = seq!["-d"@, distribution_name@];
    assert(r@.map_values(|s: String| s@) =~= head);
    match command {
        Some(c) => {
            r.push("--".to_owned());
            r.push(c.to_owned());
            let ghost av = args@.map_values(|s: String| s@);
            let ghost start = head + seq!["--"@, c@];
            assert(r@.map_values(|s: String| s@) =~= start);
            let mut i: usize = 0;
            while i < args.len()
                invariant
                    i <= args.len(),
                    av == args@.map_values(|s: String| s@),
                    r@.map_values(|s: String| s@) == start + av.take(i as int),
                decreases args.len() - i,
            {
                let ghost prev = r@.map_values(|s: String| s@);
                r.push(args[i].as_str().to_owned());
                assert(r@.map_values(|s: String| s@) =~= prev.push(av[i as int]));
                assert(av.take(i + 1) =~= av.take(i as int).push(av[i as int]));
                i = i + 1;
            }
            assert(av.take(i as int) =~= av);
            assert(start + av =~= head + (seq!["--"@, c@] + av));
        },
        None => {
            assert(head + Seq::<Seq<char>>::empty() =~= head);
        },
    }
    r
}

} // verus!
