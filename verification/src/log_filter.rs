//! Parsing the verbosity options of the logger: `<level>` or `<module>:<level>`.
use vstd::prelude::*;
use vstd::string::StringSliceAdditionalSpecFns;
use vstd::utf8::{
    valid_utf8, decode_utf8, encode_utf8_valid_utf8, encode_utf8_decode_utf8, is_char_boundary,
    is_char_boundary_iff_not_is_continuation_byte, is_char_boundary_start_end_of_seq,
    valid_utf8_split,
};

verus! {

/// The error the `log` crate returns for a string that names no level.
#[verifier::external_type_specification]
#[verifier::external_body]
pub struct ExParseLevelError(log::ParseLevelError);

/// How much the logger lets through, from nothing to everything.
#[derive(Debug, Copy, Clone, PartialEq, Eq, Structural)]
pub enum LevelFilter {
    Off,
    Error,
    Warn,
    Info,
    Debug,
    Trace,
}

/// A verbosity option: a level, for one module or for all of them.
#[derive(Debug, Clone)]
pub struct LogFilter {
    pub module: Option<String>,
    pub level: LevelFilter,
}

/// Why a verbosity option was refused.
#[derive(Debug)]
pub enum LogFilterError {
    /// The level is not one the logger knows.
    Level(log::ParseLevelError),
    /// The option is not of the form `<level>` or `<module>:<level>`.
    Format,
}

/// A byte with ASCII upper-case letters turned to lower case.
pub open spec fn ascii_lower(c: u8) -> u8 {
    if 65 <= c <= 90 { (c + 32) as u8 } else { c }
}

/// The two byte strings are equal when ASCII case is ignored.
pub open spec fn eq_ignore_ascii_case(a: Seq<u8>, b: Seq<u8>) -> bool {
    a.len() == b.len() && forall|i: int| 0 <= i < a.len() ==> ascii_lower(a[i]) == ascii_lower(b[i])
}

/// The level whose name is `name` (in upper case: OFF, ERROR, WARN, INFO, DEBUG, TRACE), with
/// ASCII case ignored.
pub open spec fn level_from_name(name: Seq<u8>) -> Option<LevelFilter> {
    if eq_ignore_ascii_case(name, seq![79u8, 70, 70]) {
        Some(LevelFilter::Off)
    } else if eq_ignore_ascii_case(name, seq![69u8, 82, 82, 79, 82]) {
        Some(LevelFilter::Error)
    } else if eq_ignore_ascii_case(name, seq![87u8, 65, 82, 78]) {
        Some(LevelFilter::Warn)
    } else if eq_ignore_ascii_case(name, seq![73u8, 78, 70, 79]) {
        Some(LevelFilter::Info)
    } else if eq_ignore_ascii_case(name, seq![68u8, 69, 66, 85, 71]) {
        Some(LevelFilter::Debug)
    } else if eq_ignore_ascii_case(name, seq![84u8, 82, 65, 67, 69]) {
        Some(LevelFilter::Trace)
    } else {
        None
    }
}

/// `str::parse::<log::LevelFilter>`, that is `log::LevelFilter::from_str`, with the level
/// turned into the library's own `LevelFilter`.
///
/// Trusted: as the source of `log` 0.4.35 shows, it compares the string with the names OFF,
/// ERROR, WARN, INFO, DEBUG and TRACE, ignoring ASCII case, and returns the level of the name
/// that matches, or an error when none does.
#[verifier::external_body]
fn parse_level(s: &str) -> (r: Result<LevelFilter, log::ParseLevelError>)
    ensures
        match level_from_name(s.spec_bytes()) {
            Some(level) => r matches Ok(l) && l == level,
            None => r is Err,
        },
{
    match s.parse::<log::LevelFilter>() {
        Ok(log::LevelFilter::Off) => Ok(LevelFilter::Off),
        Ok(log::LevelFilter::Error) => Ok(LevelFilter::Error),
        Ok(log::LevelFilter::Warn) => Ok(LevelFilter::Warn),
        Ok(log::LevelFilter::Info) => Ok(LevelFilter::Info),
        Ok(log::LevelFilter::Debug) => Ok(LevelFilter::Debug),
        Ok(log::LevelFilter::Trace) => Ok(LevelFilter::Trace),
        Err(e) => Err(e),
    }
}

/// The position of the first `:` in `bytes` at or after `from`, if any.
pub open spec fn colon_from(bytes: Seq<u8>, from: int) -> Option<int>
    decreases bytes.len() - from,
{
    if from < 0 || from >= bytes.len() {
        None
    } else if bytes[from] == 58 {
        Some(from)
    } else {
        colon_from(bytes, from + 1)
    }
}

/// What a verbosity option given as UTF-8 bytes is read as: its level is the text after the
/// only `:`, for the module named by the text before it, or the whole text, for every module.
pub open spec fn log_filter_parts(bytes: Seq<u8>) -> Option<(Option<Seq<u8>>, Seq<u8>)> {
    match colon_from(bytes, 0) {
        None => Some((None, bytes)),
        Some(k) => match colon_from(bytes, k + 1) {
            Some(_) => None,
            None => Some((Some(bytes.take(k)), bytes.skip(k + 1))),
        },
    }
}

/// Find the first `:` at or after `from`.
fn find_colon(bytes: &[u8], from: usize) -> (r: Option<usize>)
    requires
        from <= bytes@.len(),
    ensures
        match colon_from(bytes@, from as int) {
            Some(k) => r matches Some(i) && i == k,
            None => r is None,
        },
        r matches Some(i) ==> i < usize::MAX,
{
    let mut i = from;
    while i < bytes.len()
        invariant
            from <= i <= bytes@.len(),
            colon_from(bytes@, from as int) == colon_from(bytes@, i as int),
        decreases bytes@.len() - i,
    {
        if bytes[i] == 58 {
            return Some(i);
        }
        i = i + 1;
    }
    None
}

proof fn lemma_colon_from_bounds(bytes: Seq<u8>, from: int)
    ensures
        colon_from(bytes, from) matches Some(k) ==> from <= k < bytes.len() && bytes[k] == 58,
    decreases bytes.len() - from,
{
    if 0 <= from < bytes.len() && bytes[from] != 58 {
        lemma_colon_from_bounds(bytes, from + 1);
    }
}

impl LogFilter {
    /// Read a verbosity option of the form `<level>` or `<module>:<level>`.
    pub fn parse(s: &str) -> (r: Result<LogFilter, LogFilterError>)
        ensures
            match log_filter_parts(s.spec_bytes()) {
                None => r matches Err(e) && e is Format,
                Some((module, level)) => match level_from_name(level) {
                    None => r matches Err(e) && e is Level,
                    Some(l) => r matches Ok(f) && f.level == l && match module {
                        None => f.module is None,
                        Some(m) => f.module matches Some(name) && name@ == decode_utf8(m),
                    },
                },
            },
    {
        let bytes = s.as_bytes();
        let ghost b = s.spec_bytes();
        proof {
            encode_utf8_valid_utf8(s@);
            lemma_colon_from_bounds(b, 0);
        }
        match find_colon(bytes, 0) {
            None => match parse_level(s) {
                Ok(level) => Ok(LogFilter { module: None, level }),
                Err(e) => Err(LogFilterError::Level(e)),
            },
            Some(k) => {
                proof {
                    lemma_colon_from_bounds(b, k + 1);
                }
                if find_colon(bytes, k + 1).is_some() {
                    return Err(LogFilterError::Format);
                }
                proof {
                    is_char_boundary_iff_not_is_continuation_byte(b, k as int);
                }
                let (module, rest) = s.split_at(k);
                proof {
                    valid_utf8_split(b, k as int);
                    let rb = rest.spec_bytes();
                    assert(rb =~= b.subrange(k as int, b.len() as int));
                    assert(valid_utf8(rb));
                    assert(rb[0] == 58);
                    if rb.len() == 1 {
                        is_char_boundary_start_end_of_seq(rb);
                    } else {
                        reveal_with_fuel(is_char_boundary, 2);
                    }
                }
                let (_, level) = rest.split_at(1);
                proof {
                    assert(level.spec_bytes() =~= b.skip(k + 1));
                    assert(module.spec_bytes() =~= b.take(k as int));
                    encode_utf8_decode_utf8(module@);
                }
                match parse_level(level) {
                    Ok(l) => Ok(LogFilter { module: Some(module.to_owned()), level: l }),
                    Err(e) => Err(LogFilterError::Level(e)),
                }
            },
        }
    }
}

impl std::str::FromStr for LogFilter {
    type Err = LogFilterError;

    fn from_str(s: &str) -> (r: Result<LogFilter, LogFilterError>)
        ensures
            match log_filter_parts(s.spec_bytes()) {
                None => r matches Err(e) && e is Format,
                Some((module, level)) => match level_from_name(level) {
                    None => r matches Err(e) && e is Level,
                    Some(l) => r matches Ok(f) && f.level == l && match module {
                        None => f.module is None,
                        Some(m) => f.module matches Some(name) && name@ == decode_utf8(m),
                    },
                },
            },
    {
        LogFilter::parse(s)
    }
}

} // verus!
