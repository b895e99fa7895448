//! Static configuration: the per-service records the daemon is started
//! with, and the parsing of the service's log-properties lines into the
//! location and rotation limit of the log file to tail.

use vstd::prelude::*;

verus! {

/// One monitored service, as configuration enumerates it. Intervals are in
/// minutes; `cache_size` bounds the error-fingerprint cache.
pub struct Container {
    pub alias: String,
    pub name: String,
    pub install_dir: String,
    pub properties_file: String,
    pub src_email: String,
    pub email_list: Vec<String>,
    pub notify_interval: i64,
    pub flap_interval: i64,
    pub cache_size: usize,
    pub enabled: bool,
}

/// The whole configuration: the list of monitored services.
pub struct Config {
    pub containers: Vec<Container>,
}

/// A minute count taken to milliseconds; negative counts and counts whose
/// millisecond value would not fit `i64` yield nothing.
pub fn interval_to_millis(minutes: i64) -> (r: Option<i64>)
    ensures
        r == if 0 <= minutes && minutes * 60_000 <= i64::MAX {
            Some((minutes * 60_000) as i64)
        } else {
            None::<i64>
        },
{
    if minutes < 0 || minutes > 153_722_867_280_912i64 {
        None
    } else {
        Some(minutes * 60_000)
    }
}

/// The resolved place of a service's log: the file to tail and the size in
/// bytes at which rotation is assumed.
#[derive(Debug)]
pub struct LogLocation {
    pub log_path: String,
    pub max_log_size: u64,
}

/// Why a properties file could not be read into a `LogLocation`.
#[derive(Clone, Copy, Debug, PartialEq, Eq, Structural)]
pub enum PropsError {
    /// A recognized key line carries no `=` separator.
    MissingSeparator,
    /// The maximum-size value is too short, not a decimal number, or too
    /// large to count bytes in `u64`.
    BadMaxSize,
}

/// Whether `l[i..]` starts with `pat`.
pub open spec fn matches_at(l: Seq<char>, pat: Seq<char>, i: int) -> bool {
    0 <= i && i + pat.len() <= l.len() && l.subrange(i, i + pat.len()) == pat
}

/// Whether `pat` occurs in `l`.
pub open spec fn contains_sub(l: Seq<char>, pat: Seq<char>) -> bool {
    exists|i: int| matches_at(l, pat, i)
}

/// First index at or after `from` where `c` occurs in `l`, or `-1`.
pub open spec fn char_index_from(l: Seq<char>, c: char, from: int) -> int
    decreases l.len() - from,
{
    if from < 0 || from >= l.len() {
        -1
    } else if l[from] == c {
        from
    } else {
        char_index_from(l, c, from + 1)
    }
}

/// The text between the first `=` of `l` and the following `=` (or the end
/// of the line); meaningful only when `l` has an `=` at all.
pub open spec fn value_segment(l: Seq<char>) -> Seq<char> {
    let i1 = char_index_from(l, '=', 0);
    let i2 = char_index_from(l, '=', i1 + 1);
    if i2 < 0 {
        l.subrange(i1 + 1, l.len() as int)
    } else {
        l.subrange(i1 + 1, i2)
    }
}

pub open spec fn is_digit(c: char) -> bool {
    '0' <= c <= '9'
}

pub open spec fn all_digits(s: Seq<char>) -> bool {
    forall|i: int| 0 <= i < s.len() ==> is_digit(s[i])
}

/// The number the decimal digits of `s` denote.
pub open spec fn digits_value(s: Seq<char>) -> int
    decreases s.len(),
{
    if s.len() == 0 {
        0
    } else {
        digits_value(s.drop_last()) * 10 + (s.last() as int - '0' as int)
    }
}

/// The decimal number `s` denotes, when `s` is nonempty, all digits, and the
/// value fits `u64`.
pub open spec fn spec_parse_decimal(s: Seq<char>) -> Option<u64> {
    if s.len() >= 1 && all_digits(s) && digits_value(s) <= u64::MAX {
        Some(digits_value(s) as u64)
    } else {
        None
    }
}

/// Whether the line is a comment the properties reader skips.
pub open spec fn is_comment(l: Seq<char>) -> bool {
    l.len() > 0 && l[0] == '#'
}

/// The size value of a max-size key line, in bytes: the value segment less
/// its two-character unit suffix, read as a decimal count of megabytes.
pub open spec fn max_size_of_line(l: Seq<char>) -> Option<u64> {
    let seg = value_segment(l);
    if seg.len() < 2 {
        None
    } else {
        let num = seg.subrange(0, seg.len() - 2);
        match spec_parse_decimal(num) {
            Some(mb) => if mb * 1_000_000 <= u64::MAX {
                Some((mb * 1_000_000) as u64)
            } else {
                None
            },
            None => None,
        }
    }
}

/// What one properties line does to the location read so far.
pub open spec fn props_step(st: (Seq<char>, u64), l: Seq<char>) -> Result<
    (Seq<char>, u64),
    PropsError,
> {
    if is_comment(l) {
        Ok(st)
    } else {
        let st1 = if contains_sub(l, "log4j.appender.LOGFILE.File"@) {
            if char_index_from(l, '=', 0) < 0 {
                Err(PropsError::MissingSeparator)
            } else {
                Ok((value_segment(l), st.1))
            }
        } else {
            Ok(st)
        };
        match st1 {
            Err(e) => Err(e),
            Ok(st2) => if contains_sub(l, "log4j.appender.LOGFILE.MaxFileSize"@) {
                if char_index_from(l, '=', 0) < 0 {
                    Err(PropsError::MissingSeparator)
                } else {
                    match max_size_of_line(l) {
                        Some(bytes) => Ok((st2.0, bytes)),
                        None => Err(PropsError::BadMaxSize),
                    }
                }
            } else {
                Ok(st2)
            },
        }
    }
}

/// The properties lines folded from the start state: an absent key leaves
/// its default (empty path, zero size).
pub open spec fn props_fold(lines: Seq<Seq<char>>, st: (Seq<char>, u64)) -> Result<
    (Seq<char>, u64),
    PropsError,
>
    decreases lines.len(),
{
    if lines.len() == 0 {
        Ok(st)
    } else {
        match props_step(st, lines[0]) {
            Err(e) => Err(e),
            Ok(st1) => props_fold(lines.drop_first(), st1),
        }
    }
}

/// What reading the given properties lines yields.
pub open spec fn read_props_spec(lines: Seq<Seq<char>>) -> Result<(Seq<char>, u64), PropsError> {
    props_fold(lines, (Seq::empty(), 0))
}

/// Every `char` is a unicode scalar value, hence non-negative as an integer.
proof fn lemma_char_nonneg(c: char)
    ensures
        c as int >= 0,
{
}

fn matches_at_exec(hay: &str, pat: &str, i: usize) -> (r: bool)
    requires
        i + pat@.len() <= hay@.len() <= usize::MAX,
    ensures
        r == matches_at(hay@, pat@, i as int),
{
    let m = pat.unicode_len();
    let mut k: usize = 0;
    while k < m
        invariant
            m == pat@.len(),
            i + m <= hay@.len() <= usize::MAX,
            0 <= k <= m,
            forall|l: int| 0 <= l < k ==> hay@[i + l] == pat@[l],
        decreases m - k,
    {
        if hay.get_char(i + k) != pat.get_char(k) {
            proof {
                if matches_at(hay@, pat@, i as int) {
                    assert(hay@.subrange(i as int, i + m)[k as int] == hay@[i + k]);
                }
            }
            return false;
        }
        k += 1;
    }
    proof {
        assert(hay@.subrange(i as int, i + m) =~= pat@);
    }
    true
}

/// Whether `pat` occurs in `hay`.
pub fn contains_substring(hay: &str, pat: &str) -> (r: bool)
    ensures
        r == contains_sub(hay@, pat@),
{
    let n = hay.unicode_len();
    let m = pat.unicode_len();
    if m > n {
        proof {
            if contains_sub(hay@, pat@) {
                let w = choose|w: int| matches_at(hay@, pat@, w);
            }
        }
        return false;
    }
    let end = n - m;
    let mut i: usize = 0;
    while i < end
        invariant
            n == hay@.len(),
            m == pat@.len(),
            m <= n,
            end == n - m,
            0 <= i <= end,
            forall|l: int| 0 <= l < i ==> !matches_at(hay@, pat@, l),
        decreases end - i,
    {
        if matches_at_exec(hay, pat, i) {
            return true;
        }
        i += 1;
    }
    if matches_at_exec(hay, pat, end) {
        return true;
    }
    proof {
        if contains_sub(hay@, pat@) {
            let w = choose|w: int| matches_at(hay@, pat@, w);
            assert(!matches_at(hay@, pat@, w));
        }
    }
    false
}

/// First occurrence of `c` in `s` at or after `from`.
fn find_char_from(s: &str, c: char, from: usize) -> (r: Option<usize>)
    requires
        from <= s@.len(),
    ensures
        match r {
            Some(i) => from <= i < s@.len() && s@[i as int] == c && char_index_from(
                s@,
                c,
                from as int,
            ) == i as int,
            None => char_index_from(s@, c, from as int) == -1,
        },
{
    let n = s.unicode_len();
    let mut j = from;
    while j < n
        invariant
            n == s@.len(),
            from <= j <= n,
            char_index_from(s@, c, from as int) == char_index_from(s@, c, j as int),
        decreases n - j,
    {
        if s.get_char(j) == c {
            return Some(j);
        }
        j += 1;
    }
    None
}

proof fn lemma_digits_value_nonneg(s: Seq<char>)
    requires
        all_digits(s),
    ensures
        digits_value(s) >= 0,
    decreases s.len(),
{
    if s.len() > 0 {
        assert(forall|i: int| 0 <= i < s.drop_last().len() ==> s.drop_last()[i] == s[i]);
        lemma_digits_value_nonneg(s.drop_last());
    }
}

/// A prefix already too large for `u64` keeps the whole string too large:
/// each further character at most subtracts 48 after a tenfold growth.
proof fn lemma_digits_value_grows(s: Seq<char>, j: int)
    requires
        0 <= j <= s.len(),
        digits_value(s.take(j)) > u64::MAX,
    ensures
        digits_value(s) > u64::MAX,
    decreases s.len() - j,
{
    if j == s.len() {
        assert(s.take(j) =~= s);
    } else {
        assert(s.take(j + 1).drop_last() =~= s.take(j));
        assert(s.take(j + 1).last() == s[j]);
        lemma_char_nonneg(s[j]);
        lemma_digits_value_grows(s, j + 1);
    }
}

/// Reads a nonempty all-digit decimal that fits `u64`, and rejects anything
/// else.
fn parse_decimal(s: &str) -> (r: Option<u64>)
    ensures
        r == spec_parse_decimal(s@),
{
    let n = s.unicode_len();
    if n == 0 {
        return None;
    }
    let mut acc: u64 = 0;
    let mut i: usize = 0;
    proof {
        assert(s@.take(0) =~= Seq::<char>::empty());
    }
    while i < n
        invariant
            n == s@.len(),
            0 <= i <= n,
            forall|l: int| 0 <= l < i ==> is_digit(s@[l]),
            acc as int == digits_value(s@.take(i as int)),
        decreases n - i,
    {
        let c = s.get_char(i);
        if c < '0' || c > '9' {
            return None;
        }
        let d: u64 = (c as u32 - '0' as u32) as u64;
        proof {
            assert(s@.take(i + 1).drop_last() =~= s@.take(i as int));
            assert(s@.take(i + 1).last() == s@[i as int]);
        }
        if acc > 1_844_674_407_370_955_161u64 || (acc == 1_844_674_407_370_955_161u64 && d > 5) {
            proof {
                lemma_digits_value_grows(s@, i + 1);
            }
            return None;
        }
        acc = acc * 10 + d;
        i += 1;
    }
    proof {
        assert(s@.take(n as int) =~= s@);
        lemma_digits_value_nonneg(s@);
    }
    Some(acc)
}

/// The text between the first `=` and the next `=` or the line's end, or
/// nothing when the line has no `=`.
fn extract_value_segment(l: &str) -> (r: Option<String>)
    ensures
        match r {
            Some(seg) => char_index_from(l@, '=', 0) >= 0 && seg@ == value_segment(l@),
            None => char_index_from(l@, '=', 0) < 0,
        },
{
    let n = l.unicode_len();
    match find_char_from(l, '=', 0) {
        None => None,
        Some(i1) => {
            let i2 = match find_char_from(l, '=', i1 + 1) {
                Some(x) => x,
                None => n,
            };
            Some(l.substring_char(i1 + 1, i2).to_owned())
        },
    }
}

/// Reads the properties lines into the log's location: the value of the
/// `log4j.appender.LOGFILE.File` key, and the value of the
/// `log4j.appender.LOGFILE.MaxFileSize` key less its two-character unit
/// suffix, taken as megabytes and converted to bytes. A missing key leaves
/// its default (empty path, zero size); comment lines are skipped.
pub fn read_log_properties(lines: &Vec<String>) -> (r: Result<LogLocation, PropsError>)
    ensures
        match r {
            Ok(loc) => read_props_spec(lines@.map_values(|l: String| l@)) == Ok::<
                (Seq<char>, u64),
                PropsError,
            >((loc.log_path@, loc.max_log_size)),
            Err(e) => read_props_spec(lines@.map_values(|l: String| l@)) == Err::<
                (Seq<char>, u64),
                PropsError,
            >(e),
        },
{
    let ghost lv = lines@.map_values(|l: String| l@);
    let mut log_path = String::new();
    let mut max_log_size: u64 = 0;
    let mut idx: usize = 0;
    proof {
        assert(lv.skip(0) =~= lv);
    }
    while idx < lines.len()
        invariant
            lv == lines@.map_values(|l: String| l@),
            0 <= idx <= lv.len(),
            props_fold(lv.skip(idx as int), (log_path@, max_log_size)) == read_props_spec(lv),
        decreases lv.len() - idx,
    {
        let ghost st0 = (log_path@, max_log_size);
        let line: &String = &lines[idx];
        proof {
            assert(lv.skip(idx as int)[0] == lv[idx as int]);
            assert(lv.skip(idx as int).drop_first() =~= lv.skip(idx + 1));
        }
        let is_comment_line = line.as_str().unicode_len() > 0 && line.as_str().get_char(0) == '#';
        if !is_comment_line {
            if contains_substring(line.as_str(), "log4j.appender.LOGFILE.File") {
                match extract_value_segment(line.as_str()) {
                    None => {
                        return Err(PropsError::MissingSeparator);
                    },
                    Some(seg) => {
                        log_path = seg;
                    },
                }
            }
            if contains_substring(line.as_str(), "log4j.appender.LOGFILE.MaxFileSize") {
                match extract_value_segment(line.as_str()) {
                    None => {
                        return Err(PropsError::MissingSeparator);
                    },
                    Some(seg) => {
                        let sl = seg.as_str().unicode_len();
                        if sl < 2 {
                            return Err(PropsError::BadMaxSize);
                        }
                        match parse_decimal(seg.as_str().substring_char(0, sl - 2)) {
                            None => {
                                return Err(PropsError::BadMaxSize);
                            },
                            Some(mb) => {
                                if mb > 18_446_744_073_709u64 {
                                    return Err(PropsError::BadMaxSize);
                                }
                                max_log_size = mb * 1_000_000;
                            },
                        }
                    },
                }
            }
        }
        proof {
            assert(props_step(st0, lv[idx as int]) == Ok::<(Seq<char>, u64), PropsError>((
                log_path@,
                max_log_size,
            )));
        }
        idx += 1;
    }
    proof {
        assert(lv.skip(lv.len() as int) =~= Seq::<Seq<char>>::empty());
    }
    Ok(LogLocation { log_path, max_log_size })
}

} // verus!
