//! Log line handling: classification of a raw line into a qualifying error
//! event, extraction of its timestamp and fingerprint, and the rotation
//! check a tailer runs on the file it follows.
//!
//! A line qualifies when it has more than three whitespace-delimited fields
//! and its third field is one of the configured severity levels. Fields 0-1
//! carry the timestamp; the fingerprint is fields 3 onward joined by single
//! spaces.

use vstd::prelude::*;

use crate::cache::ErrorFingerprintCache;
use crate::cache::ErrorInfo;
use crate::cache::MAX_TS;
use crate::cache::MIN_TS;
use crate::cache::model_has_key;
use crate::cache::upsert_model;
use crate::cache::upserted_record;

verus! {

/// The whitespace characters that delimit log fields.
pub open spec fn is_space(c: char) -> bool {
    c == ' ' || c == '\t' || c == '\n' || c == '\r'
}

/// Length of the longest whitespace-free prefix of `s`.
pub open spec fn token_len(s: Seq<char>) -> nat
    decreases s.len(),
{
    if s.len() == 0 || is_space(s[0]) {
        0
    } else {
        1 + token_len(s.drop_first())
    }
}

pub proof fn lemma_token_len(s: Seq<char>)
    ensures
        token_len(s) <= s.len(),
        forall|l: int| 0 <= l < token_len(s) ==> !is_space(s[l]),
        token_len(s) < s.len() ==> is_space(s[token_len(s) as int]),
    decreases s.len(),
{
    if s.len() == 0 || is_space(s[0]) {
    } else {
        lemma_token_len(s.drop_first());
        assert(forall|l: int| 1 <= l < s.len() ==> s[l] == s.drop_first()[l - 1]);
    }
}

/// The token boundary determines the token length: if nothing before `j` is
/// whitespace and `j` is the end or whitespace, the token is `j` long.
pub proof fn lemma_token_len_at(s: Seq<char>, j: int)
    requires
        0 <= j <= s.len(),
        forall|l: int| 0 <= l < j ==> !is_space(s[l]),
        j == s.len() || is_space(s[j]),
    ensures
        token_len(s) == j,
    decreases j,
{
    if j == 0 {
    } else {
        assert(!is_space(s[0]));
        assert(forall|l: int| 0 <= l < s.drop_first().len() ==> s.drop_first()[l] == s[l + 1]);
        lemma_token_len_at(s.drop_first(), j - 1);
    }
}

/// The whitespace-delimited fields of `s`, in order, each nonempty.
pub open spec fn split_ws(s: Seq<char>) -> Seq<Seq<char>>
    decreases s.len(),
    via split_ws_decreases
{
    if s.len() == 0 {
        Seq::empty()
    } else if is_space(s[0]) {
        split_ws(s.drop_first())
    } else {
        seq![s.take(token_len(s) as int)] + split_ws(s.skip(token_len(s) as int))
    }
}

#[via_fn]
proof fn split_ws_decreases(s: Seq<char>) {
    lemma_token_len(s);
}

fn is_space_char(c: char) -> (r: bool)
    ensures
        r == is_space(c),
{
    c == ' ' || c == '\t' || c == '\n' || c == '\r'
}

/// Splits a line into its whitespace-delimited fields, as
/// `str::split_whitespace` does for ASCII whitespace.
pub fn split_whitespace_fields(line: &str) -> (fields: Vec<String>)
    ensures
        fields@.map_values(|f: String| f@) == split_ws(line@),
{
    let n = line.unicode_len();
    let mut fields: Vec<String> = Vec::new();
    let mut i: usize = 0;
    proof {
        assert(line@.skip(0) =~= line@);
        assert(fields@.map_values(|f: String| f@) + split_ws(line@) =~= split_ws(line@));
    }
    while i < n
        invariant
            n == line@.len(),
            0 <= i <= n,
            fields@.map_values(|f: String| f@) + split_ws(line@.skip(i as int)) == split_ws(
                line@,
            ),
        decreases n - i,
    {
        let c = line.get_char(i);
        if is_space_char(c) {
            proof {
                assert(line@.skip(i as int).drop_first() =~= line@.skip(i + 1));
            }
            i += 1;
        } else {
            let start = i;
            let mut j = i + 1;
            while j < n && !is_space_char(line.get_char(j))
                invariant
                    n == line@.len(),
                    start < j <= n,
                    forall|l: int| start <= l < j ==> !is_space(line@[l]),
                decreases n - j,
            {
                j += 1;
            }
            let tok = line.substring_char(start, j).to_owned();
            proof {
                let rest = line@.skip(start as int);
                assert(forall|l: int| 0 <= l < rest.len() ==> rest[l] == line@[l + start]);
                lemma_token_len_at(rest, j - start);
                assert(rest.take(j - start) =~= line@.subrange(start as int, j as int));
                assert(rest.skip(j - start) =~= line@.skip(j as int));
                assert(fields@.push(tok).map_values(|f: String| f@) =~= fields@.map_values(
                    |f: String| f@,
                ).push(tok@));
                assert(fields@.push(tok).map_values(|f: String| f@) + split_ws(line@.skip(j as int))
                    =~= split_ws(line@));
            }
            fields.push(tok);
            i = j;
        }
    }
    proof {
        assert(line@.skip(n as int) =~= Seq::<char>::empty());
        assert(fields@.map_values(|f: String| f@) =~= split_ws(line@));
    }
    fields
}

/// The fields of `fs` joined by single spaces.
pub open spec fn join_spaced(fs: Seq<Seq<char>>) -> Seq<char>
    decreases fs.len(),
{
    if fs.len() == 0 {
        Seq::empty()
    } else if fs.len() == 1 {
        fs[0]
    } else {
        join_spaced(fs.drop_last()) + seq![' '] + fs.last()
    }
}

/// Joins `fields[from..to]` with single spaces.
pub fn join_with_spaces(fields: &Vec<String>, from: usize, to: usize) -> (r: String)
    requires
        from <= to <= fields@.len(),
    ensures
        r@ == join_spaced(fields@.subrange(from as int, to as int).map_values(|f: String| f@)),
{
    let mut r = String::new();
    let mut k = from;
    proof {
        reveal_strlit(" ");
        assert(fields@.subrange(from as int, from as int).map_values(|f: String| f@)
            =~= Seq::<Seq<char>>::empty());
    }
    while k < to
        invariant
            from <= k <= to <= fields@.len(),
            r@ == join_spaced(fields@.subrange(from as int, k as int).map_values(|f: String| f@)),
        decreases to - k,
    {
        if k > from {
            r.append(" ");
            proof {
                reveal_strlit(" ");
                assert(" "@ =~= seq![' ']);
            }
        }
        r.append(fields[k].as_str());
        proof {
            let pre = fields@.subrange(from as int, k as int).map_values(|f: String| f@);
            let now = fields@.subrange(from as int, k + 1).map_values(|f: String| f@);
            assert(now.drop_last() =~= pre);
            assert(now.last() == fields@[k as int]@);
            assert(r@ =~= join_spaced(now));
        }
        k += 1;
    }
    r
}

/// Whether `f` is one of the severities in `sevs`.
pub open spec fn matches_severity(f: Seq<char>, sevs: Seq<Seq<char>>) -> bool {
    exists|k: int| 0 <= k < sevs.len() && sevs[k] == f
}

/// Whether the field equals one of the configured severity levels.
pub fn severity_matches(field: &String, severities: &Vec<String>) -> (r: bool)
    ensures
        r == matches_severity(field@, severities@.map_values(|s: String| s@)),
{
    let ghost sevs = severities@.map_values(|s: String| s@);
    let mut k: usize = 0;
    while k < severities.len()
        invariant
            0 <= k <= severities@.len(),
            sevs == severities@.map_values(|s: String| s@),
            forall|l: int| 0 <= l < k ==> sevs[l] != field@,
        decreases severities@.len() - k,
    {
        if field.eq(&severities[k]) {
            proof {
                assert(sevs[k as int] == field@);
            }
            return true;
        }
        k += 1;
    }
    false
}

/// A line qualifies when it has more than three fields and its third field
/// is a configured severity level.
pub open spec fn line_qualifies(fields: Seq<Seq<char>>, sevs: Seq<Seq<char>>) -> bool {
    fields.len() > 3 && matches_severity(fields[2], sevs)
}

/// The text parsed as the line's timestamp: fields 0-1 joined by one space.
pub open spec fn line_timestamp_text(fields: Seq<Seq<char>>) -> Seq<char> {
    join_spaced(fields.take(2))
}

/// The line's fingerprint: fields 3 onward joined by single spaces.
pub open spec fn line_fingerprint(fields: Seq<Seq<char>>) -> Seq<char> {
    join_spaced(fields.skip(3))
}

/// The epoch milliseconds that the log's fixed timestamp format denotes for
/// a piece of text, or nothing when the text does not parse.
pub uninterp spec fn parsed_log_timestamp(s: Seq<char>) -> Option<i64>;

/// Relies on `chrono::NaiveDateTime::parse_from_str` with the log's fixed
/// format `%Y-%m-%d %H:%M:%S%.3f`, reduced to epoch milliseconds through
/// `and_utc().timestamp_millis()`: the result depends on the text alone.
#[verifier::external_body]
fn parse_log_timestamp(s: &str) -> (r: Option<i64>)
    ensures
        r == parsed_log_timestamp(s@),
{
    match chrono::NaiveDateTime::parse_from_str(s, "%Y-%m-%d %H:%M:%S%.3f") {
        Ok(dt) => Some(dt.and_utc().timestamp_millis()),
        Err(_) => None,
    }
}

/// What handling one log line leaves behind.
#[derive(Clone, Copy, Debug, PartialEq, Eq, Structural)]
pub enum LineOutcome {
    /// The line has too few fields or an uninteresting severity; ignored.
    NotQualifying,
    /// The line qualifies but its first two fields are no timestamp the log
    /// format allows, or the time lies outside `[MIN_TS, MAX_TS]`; fatal to
    /// the tailer in the baseline design.
    BadTimestamp,
    /// The line's fingerprint was recorded in the cache.
    Recorded { record: ErrorInfo, is_new: bool },
}

/// Handles one raw log line: classifies it, extracts its timestamp and
/// fingerprint, and records a qualifying line in the cache.
pub fn process_line(
    line: &str,
    severities: &Vec<String>,
    cache: &mut ErrorFingerprintCache,
) -> (out: LineOutcome)
    requires
        old(cache).wf(),
    ensures
        final(cache).wf(),
        final(cache).capacity() == old(cache).capacity(),
        ({
            let fields = split_ws(line@);
            let sevs = severities@.map_values(|s: String| s@);
            if !line_qualifies(fields, sevs) {
                out == LineOutcome::NotQualifying && final(cache).model() == old(cache).model()
            } else {
                match parsed_log_timestamp(line_timestamp_text(fields)) {
                    Some(t) => {
                        if MIN_TS <= t <= MAX_TS {
                            out == (LineOutcome::Recorded {
                                record: upserted_record(
                                    old(cache).model(),
                                    line_fingerprint(fields),
                                    t,
                                ),
                                is_new: !model_has_key(old(cache).model(), line_fingerprint(fields)),
                            }) && final(cache).model() == upsert_model(
                                old(cache).model(),
                                old(cache).capacity(),
                                line_fingerprint(fields),
                                t,
                            )
                        } else {
                            out == LineOutcome::BadTimestamp && final(cache).model() == old(
                                cache,
                            ).model()
                        }
                    },
                    None => out == LineOutcome::BadTimestamp && final(cache).model() == old(
                        cache,
                    ).model(),
                }
            }
        }),
{
    let ghost fields_spec = split_ws(line@);
    let fields = split_whitespace_fields(line);
    if fields.len() <= 3 {
        return LineOutcome::NotQualifying;
    }
    if !severity_matches(&fields[2], severities) {
        proof {
            assert(fields@[2]@ == fields_spec[2]);
        }
        return LineOutcome::NotQualifying;
    }
    proof {
        assert(fields@[2]@ == fields_spec[2]);
    }
    let ts_text = join_with_spaces(&fields, 0, 2);
    let fp = join_with_spaces(&fields, 3, fields.len());
    proof {
        assert(fields@.subrange(0, 2).map_values(|f: String| f@) =~= fields_spec.take(2));
        assert(fields@.subrange(3, fields@.len() as int).map_values(|f: String| f@)
            =~= fields_spec.skip(3));
    }
    match parse_log_timestamp(ts_text.as_str()) {
        None => LineOutcome::BadTimestamp,
        Some(t) => {
            if t < MIN_TS || t > MAX_TS {
                LineOutcome::BadTimestamp
            } else {
                let (record, is_new) = cache.upsert(fp.as_str(), t);
                LineOutcome::Recorded { record, is_new }
            }
        },
    }
}

/// Whether the tailer should assume the file was rotated and reseek to its
/// start: the file shrank below the held offset, or a writer closed it at or
/// beyond the configured maximum size.
pub open spec fn rotation_detected(
    offset: u64,
    file_len: u64,
    close_write: bool,
    max_log_size: u64,
) -> bool {
    file_len < offset || (close_write && file_len >= max_log_size)
}

/// The tailer's position in the log file it follows.
pub struct Tailer {
    /// The offset the next read continues at.
    pub offset: u64,
    /// File size (bytes) at which a closed file is assumed rotated.
    pub max_log_size: u64,
}

impl Tailer {
    /// A tailer that starts reading at `start_offset` (the end of the file at
    /// startup: historical lines are not replayed).
    pub fn new(start_offset: u64, max_log_size: u64) -> (t: Self)
        ensures
            t.offset == start_offset,
            t.max_log_size == max_log_size,
    {
        Tailer { offset: start_offset, max_log_size }
    }

    /// Runs the rotation check against the file's current length: on a
    /// rotation the offset reseeks to the start of the file, otherwise it is
    /// kept.
    pub fn check_rotation(&mut self, file_len: u64, close_write: bool) -> (reseek: bool)
        ensures
            reseek == rotation_detected(
                old(self).offset,
                file_len,
                close_write,
                old(self).max_log_size,
            ),
            final(self).max_log_size == old(self).max_log_size,
            final(self).offset == if reseek {
                0u64
            } else {
                old(self).offset
            },
    {
        if file_len < self.offset || (close_write && file_len >= self.max_log_size) {
            self.offset = 0;
            true
        } else {
            false
        }
    }

    /// Accounts for `bytes` more bytes read from the file.
    pub fn advance(&mut self, bytes: u64)
        requires
            old(self).offset + bytes <= u64::MAX,
        ensures
            final(self).offset == old(self).offset + bytes,
            final(self).max_log_size == old(self).max_log_size,
    {
        self.offset = self.offset + bytes;
    }
}

/// The severity levels watched by default: `ERROR` and `WARN`.
pub fn default_severities() -> (v: Vec<String>)
    ensures
        v@.len() == 2,
        v@[0]@ == "ERROR"@,
        v@[1]@ == "WARN"@,
{
    let mut v: Vec<String> = Vec::new();
    v.push(String::from_str("ERROR"));
    v.push(String::from_str("WARN"));
    v
}

} // verus!
