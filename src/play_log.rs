use vstd::prelude::*;

use crate::catalog::{find_map, find_map_pos, GameMap};
use crate::mode::{mode_name, str_equal};
use crate::text::{decimal, decimal_string, parse_u16, parse_u16_spec};

verus! {

/// The pattern that picks the map id out of a log line.
pub const ID_PATTERN: &'static str = "\\d{1,3}";

/// What `str::trim` makes of a string.
pub uninterp spec fn trimmed_of(s: Seq<char>) -> Seq<char>;

/// Relies on `str::trim`: the string without leading and trailing white
/// space, a function of the characters alone.
#[verifier::external_body]
fn trim(s: &str) -> (r: String)
    ensures
        r@ == trimmed_of(s@),
{
    s.trim().to_string()
}

/// The leftmost match of regular expression `pattern` in `text`, or `None`
/// when there is none or the pattern does not compile.
pub uninterp spec fn regex_find_of(pattern: Seq<char>, text: Seq<char>) -> Option<Seq<char>>;

/// Relies on `regex::Regex::new`, `Regex::find` and `Match::as_str`: the text
/// of the leftmost match, which depends on the pattern and the text alone.
#[verifier::external_body]
fn regex_find(pattern: &str, text: &str) -> (r: Option<String>)
    ensures
        match regex_find_of(pattern@, text@) {
            Some(m) => r matches Some(x) && x@ == m,
            None => r is None,
        },
{
    match regex::Regex::new(pattern) {
        Ok(re) => match re.find(text) {
            Some(m) => Some(m.as_str().to_string()),
            None => None,
        },
        Err(_) => None,
    }
}

/// Why a line of the play log cannot be read.
#[derive(Debug, PartialEq, Eq, Structural, Clone, Copy)]
pub enum LogFault {
    /// The line holds no map id.
    MissingId,
    /// The id found does not read as a number.
    BadId,
    /// No map of the catalog has this id.
    UnknownId(u16),
}

/// A line of the play log that cannot be read: its number (from 1), why, and
/// its text.
#[derive(Debug)]
pub struct LogError {
    pub line: usize,
    pub fault: LogFault,
    pub text: String,
}

impl LogError {
    pub fn new(line_num: usize, fault: LogFault, text: &str) -> (r: LogError)
        ensures
            r.line == line_num,
            r.fault == fault,
            r.text@ == text@,
    {
        LogError { line: line_num, fault, text: String::from_str(text) }
    }
}

/// What a trimmed log line stands for, given the id text `found` in it:
/// nothing for a blank line, else the catalog position of the map it names.
pub open spec fn line_entry(trimmed: Seq<char>, found: Option<Seq<char>>, maps: Seq<GameMap>) -> Result<
    Option<usize>,
    LogFault,
> {
    if trimmed.len() == 0 {
        Ok(None)
    } else {
        match found {
            None => Err(LogFault::MissingId),
            Some(m) => match parse_u16_spec(m) {
                None => Err(LogFault::BadId),
                Some(id) => match find_map_pos(maps, id, 0) {
                    None => Err(LogFault::UnknownId(id)),
                    Some(p) => Ok(Some(p)),
                },
            },
        }
    }
}

/// What a raw log line stands for.
pub open spec fn line_outcome(line: Seq<char>, maps: Seq<GameMap>) -> Result<Option<usize>, LogFault> {
    let t = trimmed_of(line);
    line_entry(t, regex_find_of(ID_PATTERN@, t), maps)
}

/// The catalog positions named by the first `n` lines, oldest first, or the
/// number of the first line that cannot be read and why.
pub open spec fn log_positions(lines: Seq<String>, maps: Seq<GameMap>, n: int) -> Result<
    Seq<usize>,
    (usize, LogFault),
>
    decreases n,
{
    if n <= 0 {
        Ok(seq![])
    } else {
        match log_positions(lines, maps, n - 1) {
            Err(e) => Err(e),
            Ok(ps) => match line_outcome(lines[n - 1]@, maps) {
                Err(f) => Err((n as usize, f)),
                Ok(None) => Ok(ps),
                Ok(Some(p)) => Ok(ps.push(p)),
            },
        }
    }
}

/// Reads line `line_num` of the play log, already trimmed, where `found` is
/// the id text found in it.
pub fn read_log_line(line_num: usize, trimmed: &str, found: &Option<String>, maps: &Vec<GameMap>) -> (r:
    Result<Option<usize>, LogError>)
    ensures
        match line_entry(
            trimmed@,
            match found {
                Some(s) => Some(s@),
                None => None,
            },
            maps@,
        ) {
            Ok(e) => r == Ok::<Option<usize>, LogError>(e),
            Err(f) => r matches Err(e) && e.line == line_num && e.fault == f && e.text@ == trimmed@,
        },
{
    if trimmed.is_empty() {
        return Ok(None);
    }
    let m = match found {
        None => return Err(LogError::new(line_num, LogFault::MissingId, trimmed)),
        Some(m) => m,
    };
    let id = match parse_u16(m.as_str()) {
        None => return Err(LogError::new(line_num, LogFault::BadId, trimmed)),
        Some(id) => id,
    };
    match find_map(maps, id) {
        None => Err(LogError::new(line_num, LogFault::UnknownId(id), trimmed)),
        Some(p) => Ok(Some(p)),
    }
}

proof fn lemma_log_error_sticks(lines: Seq<String>, maps: Seq<GameMap>, i: int, n: int, e: (usize, LogFault))
    requires
        0 <= i < n,
        log_positions(lines, maps, i + 1) == Err::<Seq<usize>, (usize, LogFault)>(e),
    ensures
        log_positions(lines, maps, n) == Err::<Seq<usize>, (usize, LogFault)>(e),
    decreases n,
{
    if n > i + 1 {
        lemma_log_error_sticks(lines, maps, i, n - 1, e);
    }
}

/// The catalog positions of the maps that the play log names, oldest first.
/// Blank lines are skipped; the first line that names no known map is an
/// error that carries its number and its trimmed text.
pub fn load_log(lines: &Vec<String>, maps: &Vec<GameMap>) -> (r: Result<Vec<usize>, LogError>)
    ensures
        match log_positions(lines@, maps@, lines@.len() as int) {
            Ok(ps) => r matches Ok(v) && v@ == ps,
            Err((l, f)) => r matches Err(e) && e.line == l && e.fault == f && e.text@ == trimmed_of(
                lines@[l - 1]@,
            ),
        },
{
    let mut records: Vec<usize> = Vec::new();
    let mut i: usize = 0;
    while i < lines.len()
        invariant
            i <= lines@.len(),
            log_positions(lines@, maps@, i as int) == Ok::<Seq<usize>, (usize, LogFault)>(records@),
        decreases lines@.len() - i,
    {
        let t = trim(lines[i].as_str());
        let found = if t.as_str().is_empty() {
            None
        } else {
            regex_find(ID_PATTERN, t.as_str())
        };
        match read_log_line(i + 1, t.as_str(), &found, maps) {
            Err(e) => {
                proof {
                    let f = e.fault;
                    assert(line_outcome(lines@[i as int]@, maps@) == Err::<Option<usize>, LogFault>(f));
                    lemma_log_error_sticks(lines@, maps@, i as int, lines@.len() as int, ((i + 1) as usize, f));
                }
                return Err(e);
            },
            Ok(None) => {},
            Ok(Some(p)) => {
                records.push(p);
            },
        }
        i = i + 1;
    }
    Ok(records)
}

/// How a record's time stamp is written.
pub const STAMP_FORMAT: &'static str = "%Y-%m-%d %H:%M Z";

/// Relies on chrono's `Utc::now` and `DateTime::format`: the current UTC time
/// written with `pattern`, which must be a valid format (an invalid one makes
/// the conversion to text panic). Nothing is promised about the text, which
/// depends on the clock.
#[verifier::external_body]
fn utc_now_formatted(pattern: &str) -> (r: String)
    requires
        pattern@ == STAMP_FORMAT@,
{
    chrono::Utc::now().format(pattern).to_string()
}

/// The text of one record of the play log: `#<id> (<stamp>) <nickname> <mode>`
/// and a line break.
pub open spec fn record_text(map: GameMap, stamp: Seq<char>) -> Seq<char> {
    "#"@ + decimal(map.id as nat) + " ("@ + stamp + ") "@ + map.nickname@ + " "@ + mode_name(map.mode)
        + "\n"@
}

/// One record of the play log, stamped with `stamp`.
pub fn log_record(map: &GameMap, stamp: &str) -> (r: String)
    ensures
        r@ == record_text(*map, stamp@),
{
    let mut r = String::from_str("#");
    let id = decimal_string(map.id);
    r.append(id.as_str());
    r.append(" (");
    r.append(stamp);
    r.append(") ");
    r.append(map.nickname.as_str());
    r.append(" ");
    r.append(map.mode.name());
    r.append("\n");
    r
}

/// One record of the play log, stamped with the current UTC time.
pub fn record_now(map: &GameMap) -> (r: String)
    ensures
        exists|stamp: Seq<char>| r@ == #[trigger] record_text(*map, stamp),
{
    let stamp = utc_now_formatted(STAMP_FORMAT);
    log_record(map, stamp.as_str())
}

/// Whether a line break must be written before a new record: the log is not
/// empty and its last character `last` is not a line break.
pub fn needs_separator(log_len: u64, last: &str) -> (r: bool)
    ensures
        r == (log_len > 0 && last@ != "\n"@),
{
    log_len > 0 && !str_equal(last, "\n")
}

} // verus!
