//! Log records that the native library hands to its callback.
use vstd::prelude::*;

verus! {

/// Severity of a log record.
#[derive(Debug, Clone, Copy, PartialEq, Eq, Structural)]
pub enum LogLevel {
    Info,
    Warn,
    Error,
}

/// One log line from the native library.
#[derive(Debug, Clone, PartialEq, Eq)]
pub struct LogRecord {
    pub level: LogLevel,
    /// Native timestamp, in 100-nanosecond intervals since 1601-01-01 UTC.
    pub timestamp: u64,
    pub message: String,
}

/// The level that a native severity code stands for.
pub open spec fn level_of(code: i32) -> Option<LogLevel> {
    if code == 0 {
        Some(LogLevel::Info)
    } else if code == 1 {
        Some(LogLevel::Warn)
    } else if code == 2 {
        Some(LogLevel::Error)
    } else {
        None
    }
}

/// Maps a native severity code to a level; unknown codes give `None`.
pub fn level_from_code(code: i32) -> (r: Option<LogLevel>)
    ensures
        r == level_of(code),
{
    if code == 0 {
        Some(LogLevel::Info)
    } else if code == 1 {
        Some(LogLevel::Warn)
    } else if code == 2 {
        Some(LogLevel::Error)
    } else {
        None
    }
}

/// Whether `i` is the position of the first NUL in `s`.
pub open spec fn is_first_nul(s: Seq<u16>, i: int) -> bool {
    0 <= i < s.len() && s[i] == 0 && forall|j: int| 0 <= j < i ==> s[j] != 0
}

/// The UTF-16 units before the first NUL, or all of them where there is none.
pub open spec fn before_nul(s: Seq<u16>) -> Seq<u16> {
    if exists|i: int| is_first_nul(s, i) {
        s.subrange(0, choose|i: int| is_first_nul(s, i))
    } else {
        s
    }
}

/// Cuts a native wide string at its terminating NUL.
pub fn trim_at_nul(units: &Vec<u16>) -> (r: Vec<u16>)
    ensures
        r@ == before_nul(units@),
{
    let mut out: Vec<u16> = Vec::new();
    let mut i: usize = 0;
    while i < units.len()
        invariant
            i <= units@.len(),
            out@ == units@.subrange(0, i as int),
            forall|j: int| 0 <= j < i ==> units@[j] != 0,
        decreases units.len() - i,
    {
        if units[i] == 0 {
            assert(is_first_nul(units@, i as int));
            proof {
                let k = choose|k: int| is_first_nul(units@, k);
                assert(k == i);
            }
            return out;
        }
        out.push(units[i]);
        i = i + 1;
        assert(out@ =~= units@.subrange(0, i as int));
    }
    assert(!exists|k: int| is_first_nul(units@, k));
    assert(out@ =~= units@);
    out
}

/// What `String::from_utf16_lossy` makes of a sequence of UTF-16 units.
pub uninterp spec fn utf16_lossy(units: Seq<u16>) -> Seq<char>;

/// Relies on `String::from_utf16_lossy`: a result that depends on the units
/// alone, with one character for each unit or surrogate pair (an ill-formed
/// unit becomes U+FFFD); so no units give an empty string, some units a
/// non-empty one, and never more characters than units.
#[verifier::external_body]
fn decode_utf16(units: &Vec<u16>) -> (r: String)
    ensures
        r@ == utf16_lossy(units@),
        units@.len() == 0 ==> r@.len() == 0,
        units@.len() > 0 ==> r@.len() > 0,
        r@.len() <= units@.len(),
{
    String::from_utf16_lossy(units)
}

/// Builds the record for one callback: the level of `code`, the timestamp as
/// given, and the text of `units` up to their terminating NUL, which is
/// non-empty where that text is. An unknown level gives `None`.
pub fn log_record(code: i32, timestamp: u64, units: &Vec<u16>) -> (r: Option<LogRecord>)
    ensures
        level_of(code) is None ==> r is None,
        level_of(code) matches Some(level) ==> r matches Some(rec) && rec.level == level && rec.timestamp
            == timestamp && rec.message@ == utf16_lossy(before_nul(units@)),
        r matches Some(rec) ==> (before_nul(units@).len() > 0 <==> rec.message@.len() > 0),
{
    match level_from_code(code) {
        None => None,
        Some(level) => {
            let text = trim_at_nul(units);
            let message = decode_utf16(&text);
            Some(LogRecord { level, timestamp, message })
        },
    }
}

} // verus!
