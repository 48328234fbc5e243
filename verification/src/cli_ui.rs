//! Decisions of the command-line interface: how the logger is set up, and
//! which entry of a list the user chose.

use vstd::prelude::*;
use crate::distro_image::{DefaultChoice, DefaultImageFetcher, DistroImage};
use crate::text::{decimal_spec, is_white_space, lemma_decimal, parse_usize, parse_usize_spec, str_eq, trim_end_str, trimmed_end};
use vstd::string::StrSliceExecFns;

verus! {

/// How the logger is to be set up: whether to log to `/dev/kmsg` too, and
/// the levels for the terminal and for `/dev/kmsg`.
#[derive(Debug, Clone)]
pub struct LoggerInitializer {
    logs_kmsg: bool,
    log_level: Option<String>,
    kmsg_log_level: Option<String>,
}

/// The abstract content of a logger setup.
pub struct LoggerSetup {
    pub logs_kmsg: bool,
    pub log_level: Option<Seq<char>>,
    pub kmsg_log_level: Option<Seq<char>>,
}

/// The text of an optional string.
pub open spec fn opt_view(o: Option<String>) -> Option<Seq<char>> {
    match o {
        Some(s) => Some(s@),
        None => None,
    }
}

impl View for LoggerInitializer {
    type V = LoggerSetup;

    closed spec fn view(&self) -> LoggerSetup {
        LoggerSetup {
            logs_kmsg: self.logs_kmsg,
            log_level: opt_view(self.log_level),
            kmsg_log_level: opt_view(self.kmsg_log_level),
        }
    }
}

/// A copy of an optional string.
fn copy_opt(o: &Option<String>) -> (r: Option<String>)
    ensures
        opt_view(r) == opt_view(*o),
{
    match o {
        Some(s) => Some(s.as_str().to_owned()),
        None => None,
    }
}

impl LoggerInitializer {
    /// Logs to the terminal only, at the default levels.
    pub fn new() -> (r: LoggerInitializer)
        ensures
            r@ == (LoggerSetup { logs_kmsg: false, log_level: None, kmsg_log_level: None }),
    {
        LoggerInitializer { logs_kmsg: false, log_level: None, kmsg_log_level: None }
    }

    /// Whether to log to `/dev/kmsg` too.
    pub fn with_kmsg(&mut self, logs_kmsg: bool) -> (r: &mut Self)
        ensures
            r@ == (LoggerSetup { logs_kmsg, ..old(self)@ }),
            *final(self) == *final(r),
    {
        self.logs_kmsg = logs_kmsg;
        self
    }

    /// The level of the terminal log.
    pub fn with_log_level(&mut self, log_level: String) -> (r: &mut Self)
        ensures
            r@ == (LoggerSetup { log_level: Some(log_level@), ..old(self)@ }),
            *final(self) == *final(r),
    {
        self.log_level = Some(log_level);
        self
    }

    /// The level of the `/dev/kmsg` log.
    pub fn with_kmsg_log_level(&mut self, log_level: String) -> (r: &mut Self)
        ensures
            r@ == (LoggerSetup { kmsg_log_level: Some(log_level@), ..old(self)@ }),
            *final(self) == *final(r),
    {
        self.kmsg_log_level = Some(log_level);
        self
    }

    /// Whether to log to `/dev/kmsg` too.
    pub fn logs_kmsg(&self) -> (r: bool)
        ensures
            r == self@.logs_kmsg,
    {
        self.logs_kmsg
    }

    /// The level asked for the terminal log: the one set, else `RUST_LOG`
    /// (`rust_log`, as read from the environment).
    pub fn terminal_log_level(&self, rust_log: Option<String>) -> (r: Option<String>)
        ensures
            opt_view(r) == match self@.log_level {
                Some(l) => Some(l),
                None => opt_view(rust_log),
            },
    {
        match &self.log_level {
            Some(l) => Some(l.as_str().to_owned()),
            None => rust_log,
        }
    }

    /// The level asked for the `/dev/kmsg` log.
    pub fn kmsg_log_level(&self) -> (r: Option<String>)
        ensures
            opt_view(r) == self@.kmsg_log_level,
    {
        copy_opt(&self.kmsg_log_level)
    }
}

impl Default for LoggerInitializer {
    fn default() -> (r: LoggerInitializer)
        ensures
            r@ == (LoggerSetup { logs_kmsg: false, log_level: None, kmsg_log_level: None }),
    {
        LoggerInitializer::new()
    }
}

/// The logger setup of a command: the terminal level given, if any.
pub fn logger_for(log_level: Option<String>) -> (r: LoggerInitializer)
    ensures
        r@ == (LoggerSetup { logs_kmsg: false, log_level: opt_view(log_level), kmsg_log_level: None }),
{
    let mut logger_initializer = LoggerInitializer::new();
    if let Some(log_level) = log_level {
        logger_initializer.with_log_level(log_level);
    }
    logger_initializer
}

/// The name of the entry proposed by default.
pub open spec fn default_entry_name(names: Seq<Seq<char>>, default: DefaultChoice) -> Seq<char> {
    match default {
        DefaultChoice::Index(i) => names[i as int],
        DefaultChoice::Name(n) => n,
    }
}

/// The name of the entry proposed by default; a position must be on the list.
pub fn default_name(names: &Vec<String>, default: &DefaultImageFetcher) -> (r: String)
    requires
        default matches DefaultImageFetcher::Index(i) ==> i < names.len(),
    ensures
        r@ == default_entry_name(names@.map_values(|n: String| n@), default@),
{
    match default {
        DefaultImageFetcher::Index(i) => names[*i].as_str().to_owned(),
        DefaultImageFetcher::Name(n) => n.as_str().to_owned(),
    }
}

/// What a step of choosing an image offers: entries to choose from (by
/// name, with the one proposed by default), or the image itself.
pub enum ChoiceStep {
    List(Vec<String>, DefaultImageFetcher),
    Image(DistroImage),
}

/// Why a step offers nothing to choose from.
#[derive(Debug, Clone, Copy, PartialEq, Eq)]
pub enum ChoiceError {
    /// The list has no entry.
    EmptyList,
    /// The step is an image, not a list.
    NotAList,
}

/// Starts choosing from a step: an image or an empty list is refused;
/// otherwise the name of the entry proposed by default is given. A default
/// position must be on a non-empty list.
pub fn start_choice(step: &ChoiceStep) -> (r: Result<String, ChoiceError>)
    requires
        match step {
            ChoiceStep::List(names, d) => names.len() > 0 ==> (d matches DefaultImageFetcher::Index(i) ==> i < names.len()),
            ChoiceStep::Image(_) => true,
        },
    ensures
        match step {
            ChoiceStep::Image(_) => r == Err::<String, ChoiceError>(ChoiceError::NotAList),
            ChoiceStep::List(names, d) => if names.len() == 0 {
                r == Err::<String, ChoiceError>(ChoiceError::EmptyList)
            } else {
                r matches Ok(s) && s@ == default_entry_name(names@.map_values(|n: String| n@), d@)
            },
        },
{
    match step {
        ChoiceStep::Image(_) => Err(ChoiceError::NotAList),
        ChoiceStep::List(names, d) => {
            if names.len() == 0 {
                Err(ChoiceError::EmptyList)
            } else {
                Ok(default_name(names, d))
            }
        },
    }
}

/// The first position of `name` among `names`, if any.
pub open spec fn position_of(names: Seq<Seq<char>>, name: Seq<char>) -> Option<int>
    decreases names.len(),
{
    if names.len() == 0 {
        None
    } else if names[0] == name {
        Some(0)
    } else {
        match position_of(names.drop_first(), name) {
            Some(i) => Some(i + 1),
            None => None,
        }
    }
}

/// The entry a line typed by the user chooses: the line without trailing
/// white space, or the default name when that is empty; then the first entry
/// of that name, else the entry at that position counted from 1. `None` when
/// the line names no entry.
pub open spec fn chosen_entry(names: Seq<Seq<char>>, default_name: Seq<char>, input: Seq<char>) -> Option<int> {
    let typed = trimmed_end(input);
    let choice = if typed.len() == 0 {
        default_name
    } else {
        typed
    };
    match position_of(names, choice) {
        Some(i) => Some(i),
        None => match parse_usize_spec(choice) {
            Some(n) => if 1 <= n <= names.len() {
                Some(n - 1)
            } else {
                None
            },
            None => None,
        },
    }
}

/// The entry that the line `input` typed by the user chooses among `names`.
pub fn choose_from_list(names: &Vec<String>, default_name: &str, input: &str) -> (r: Option<usize>)
    ensures
        match chosen_entry(names@.map_values(|n: String| n@), default_name@, input@) {
            Some(i) => r == Some(i as usize),
            None => r is None,
        },
{
    let ghost nv = names@.map_values(|n: String| n@);
    let typed = trim_end_str(input);
    let choice = if typed.unicode_len() == 0 {
        default_name
    } else {
        typed
    };
    let ghost ch = if trimmed_end(input@).len() == 0 {
        default_name@
    } else {
        trimmed_end(input@)
    };
    assert(choice@ == ch);
    let mut i: usize = 0;
    assert(nv.skip(0) =~= nv);
    while i < names.len()
        invariant
            i <= names.len(),
            nv == names@.map_values(|n: String| n@),
            choice@ == ch,
            ch == (if trimmed_end(input@).len() == 0 {
                default_name@
            } else {
                trimmed_end(input@)
            }),
            position_of(nv, choice@) == match position_of(nv.skip(i as int), choice@) {
                Some(k) => Some(k + i),
                None => None,
            },
        decreases names.len() - i,
    {
        let ghost rest = nv.skip(i as int);
        assert(rest[0] == names@[i as int]@);
        assert(rest.drop_first() =~= nv.skip(i + 1));
        if str_eq(names[i].as_str(), choice) {
            return Some(i);
        }
        i = i + 1;
    }
    match parse_usize(choice) {
        Some(n) => if n >= 1 && n <= names.len() {
            Some(n - 1)
        } else {
            None
        },
        None => None,
    }
}

/// No position is found for a name that no entry bears.
proof fn lemma_position_absent(names: Seq<Seq<char>>, name: Seq<char>)
    requires
        forall|i: int| 0 <= i < names.len() ==> names[i] != name,
    ensures
        position_of(names, name) is None,
    decreases names.len(),
{
    if names.len() > 0 {
        assert(names[0] != name);
        assert forall|i: int| 0 <= i < names.drop_first().len() implies names.drop_first()[i] != name by {
            assert(names.drop_first()[i] == names[i + 1]);
        }
        lemma_position_absent(names.drop_first(), name);
    }
}

/// Typing the position of an entry, counted from 1 and written in decimal
/// (with any number of digits), with or without a line break after it,
/// chooses that entry, unless some entry bears that text as its name.
pub proof fn lemma_choice_by_position(names: Seq<Seq<char>>, default_name: Seq<char>, n: usize)
    requires
        1 <= n <= names.len(),
        forall|i: int| 0 <= i < names.len() ==> names[i] != decimal_spec(n as nat),
    ensures
        chosen_entry(names, default_name, decimal_spec(n as nat)) == Some(n - 1),
        chosen_entry(names, default_name, decimal_spec(n as nat).push('\n')) == Some(n - 1),
{
    let t = decimal_spec(n as nat);
    lemma_decimal(n as nat);
    let c = t.last();
    assert('0' <= c && c <= '9');
    assert(!is_white_space(c));
    assert(trimmed_end(t) == t);
    assert(is_white_space('\n'));
    assert(t.push('\n').drop_last() =~= t);
    assert(trimmed_end(t.push('\n')) == t);
    lemma_position_absent(names, t);
    assert(parse_usize_spec(t) == Some(n));
}

} // verus!
