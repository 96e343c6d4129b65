//! Parsing of single log lines: JSON lines (decoded elsewhere into
//! [`JsonLogLine`]) and common/combined web server lines.
//!
//! A latency is carried as the bit pattern (`f64::to_bits`) of the number of
//! milliseconds. For the values a log holds (positive, finite or infinite),
//! ordering the bit patterns as integers orders the latencies themselves.

use vstd::prelude::*;
use vstd::slice::slice_subrange;

use crate::text::{
    chars_of, find_char_from, find_from, parse_decimal, parse_unsigned, split_words,
    string_from_chars, trim, trim_bounds, words, char_vecs_view,
};

verus! {

/// The log formats the analyzer knows of.
pub enum LogFormat {
    Auto,
    Json,
    Common,
}

/// The fields of a JSON log line that the analyzer reads. Each is optional;
/// the latency fields hold `f64` bit patterns.
#[derive(Debug, Clone)]
pub struct JsonLogLine {
    pub status: Option<u16>,
    pub status_code: Option<u16>,
    pub latency_ms: Option<u64>,
    pub response_time: Option<u64>,
    pub duration_ms: Option<u64>,
    pub path: Option<String>,
    pub uri: Option<String>,
    pub url: Option<String>,
    pub ip: Option<String>,
    pub client_ip: Option<String>,
    pub bytes: Option<u64>,
    pub bytes_sent: Option<u64>,
}

/// One parsed request: status code, latency (as an `f64` bit pattern),
/// request path, client address and response size.
#[derive(Debug, Clone)]
pub struct ParsedLogRecord {
    pub status: u16,
    pub latency_ms: u64,
    pub path: String,
    pub ip: String,
    pub bytes: u64,
}

impl Default for ParsedLogRecord {
    /// The empty record: status 0, no latency, empty path and address, no bytes.
    fn default() -> (r: ParsedLogRecord)
        ensures
            r@ == (RecordView {
                status: 0,
                latency_ms: 0,
                path: Seq::empty(),
                ip: Seq::empty(),
                bytes: 0,
            }),
    {
        ParsedLogRecord {
            status: 0,
            latency_ms: 0,
            path: String::new(),
            ip: String::new(),
            bytes: 0,
        }
    }
}

/// The mathematical content of a [`JsonLogLine`].
pub struct JsonLineView {
    pub status: Option<u16>,
    pub status_code: Option<u16>,
    pub latency_ms: Option<u64>,
    pub response_time: Option<u64>,
    pub duration_ms: Option<u64>,
    pub path: Option<Seq<char>>,
    pub uri: Option<Seq<char>>,
    pub url: Option<Seq<char>>,
    pub ip: Option<Seq<char>>,
    pub client_ip: Option<Seq<char>>,
    pub bytes: Option<u64>,
    pub bytes_sent: Option<u64>,
}

/// The mathematical content of a [`ParsedLogRecord`].
pub struct RecordView {
    pub status: u16,
    pub latency_ms: u64,
    pub path: Seq<char>,
    pub ip: Seq<char>,
    pub bytes: u64,
}

/// An optional string, by its characters.
pub open spec fn opt_str_view(o: Option<String>) -> Option<Seq<char>> {
    match o {
        Some(s) => Some(s@),
        None => None,
    }
}

impl View for JsonLogLine {
    type V = JsonLineView;

    open spec fn view(&self) -> JsonLineView {
        JsonLineView {
            status: self.status,
            status_code: self.status_code,
            latency_ms: self.latency_ms,
            response_time: self.response_time,
            duration_ms: self.duration_ms,
            path: opt_str_view(self.path),
            uri: opt_str_view(self.uri),
            url: opt_str_view(self.url),
            ip: opt_str_view(self.ip),
            client_ip: opt_str_view(self.client_ip),
            bytes: self.bytes,
            bytes_sent: self.bytes_sent,
        }
    }
}

impl View for ParsedLogRecord {
    type V = RecordView;

    open spec fn view(&self) -> RecordView {
        RecordView {
            status: self.status,
            latency_ms: self.latency_ms,
            path: self.path@,
            ip: self.ip@,
            bytes: self.bytes,
        }
    }
}

/// An optional record, by its view.
pub open spec fn opt_record_view(o: Option<ParsedLogRecord>) -> Option<RecordView> {
    match o {
        Some(r) => Some(r@),
        None => None,
    }
}

/// An optional JSON line, by its view.
pub open spec fn opt_json_view(o: Option<JsonLogLine>) -> Option<JsonLineView> {
    match o {
        Some(j) => Some(j@),
        None => None,
    }
}

/// The first of two options that holds a value (`Option::or`).
pub open spec fn first_some<T>(a: Option<T>, b: Option<T>) -> Option<T> {
    match a {
        Some(x) => Some(x),
        None => b,
    }
}

/// The value of an option, or a default (`Option::unwrap_or`).
pub open spec fn or_default<T>(a: Option<T>, d: T) -> T {
    match a {
        Some(x) => x,
        None => d,
    }
}

/// The record a JSON line stands for: for each field the first of its
/// alternative names that is present, else a default (status 200, latency 0,
/// path "/", address "127.0.0.1", size 0).
pub open spec fn spec_record_from_json(j: JsonLineView) -> RecordView {
    RecordView {
        status: or_default(first_some(j.status, j.status_code), 200u16),
        latency_ms: or_default(
            first_some(first_some(j.latency_ms, j.response_time), j.duration_ms),
            0u64,
        ),
        path: or_default(first_some(first_some(j.path, j.uri), j.url), "/"@),
        ip: or_default(first_some(j.ip, j.client_ip), "127.0.0.1"@),
        bytes: or_default(first_some(j.bytes, j.bytes_sent), 0u64),
    }
}

fn first_string(a: Option<String>, b: Option<String>) -> (r: Option<String>)
    ensures
        opt_str_view(r) == first_some(opt_str_view(a), opt_str_view(b)),
{
    match a {
        Some(x) => Some(x),
        None => b,
    }
}

/// Builds the record that a decoded JSON line stands for.
pub fn record_from_json(json: JsonLogLine) -> (r: ParsedLogRecord)
    ensures
        r@ == spec_record_from_json(json@),
{
    let ghost j = json@;
    let status = match json.status {
        Some(s) => s,
        None => match json.status_code {
            Some(s) => s,
            None => 200,
        },
    };
    let latency_ms = match json.latency_ms {
        Some(l) => l,
        None => match json.response_time {
            Some(l) => l,
            None => match json.duration_ms {
                Some(l) => l,
                None => 0,
            },
        },
    };
    let path = match first_string(first_string(json.path, json.uri), json.url) {
        Some(p) => p,
        None => "/".to_owned(),
    };
    let ip = match first_string(json.ip, json.client_ip) {
        Some(a) => a,
        None => "127.0.0.1".to_owned(),
    };
    let bytes = match json.bytes {
        Some(b) => b,
        None => match json.bytes_sent {
            Some(b) => b,
            None => 0,
        },
    };
    ParsedLogRecord { status, latency_ms, path, ip, bytes }
}

// ---------------------------------------------------------------------------
// Common / combined log format:
// <ip> - - [<timestamp>] "<METHOD> <path> <proto>" <status> <bytes> [latency_ms]
// ---------------------------------------------------------------------------

/// The pieces of a line in common log format: the first word (the client
/// address), the second word of the quoted request (or "/" when it has fewer
/// than two words) and the words after the closing quote (trimming that rest
/// first changes nothing, see `lemma_words_trim`). `None` when the line has
/// fewer than seven words or lacks an opening or a closing quote.
pub open spec fn common_pieces(line: Seq<char>) -> Option<(Seq<char>, Seq<char>, Seq<Seq<char>>)> {
    let parts = words(line);
    if parts.len() < 7 {
        None
    } else {
        match find_from(line, '"', 0) {
            None => None,
            Some(qs) => match find_from(line, '"', qs + 1) {
                None => None,
                Some(qe) => {
                    let req = words(line.subrange(qs + 1, qe));
                    let path = if req.len() >= 2 {
                        req[1]
                    } else {
                        "/"@
                    };
                    Some((parts[0], path, words(line.skip(qe + 1))))
                },
            },
        }
    }
}

/// The record a common-format line stands for. After the request come the
/// status (200 when it is not a `u16`), the response size (0 when absent or
/// not a `u64`) and the latency, whose token's parse is `latency` (0 when the
/// token is absent or does not parse). `None` when nothing follows the request.
pub open spec fn spec_parse_common(line: Seq<char>, latency: Option<u64>) -> Option<RecordView> {
    match common_pieces(line) {
        None => None,
        Some((ip, path, rem)) => if rem.len() == 0 {
            None
        } else {
            Some(
                RecordView {
                    status: match parse_unsigned(rem[0], 0xffff) {
                        Some(v) => v as u16,
                        None => 200u16,
                    },
                    bytes: if rem.len() > 1 {
                        match parse_unsigned(rem[1], 0xffff_ffff_ffff_ffff) {
                            Some(v) => v as u64,
                            None => 0u64,
                        }
                    } else {
                        0u64
                    },
                    latency_ms: if rem.len() > 2 {
                        or_default(latency, 0u64)
                    } else {
                        0u64
                    },
                    path,
                    ip,
                },
            )
        },
    }
}

/// The token of a common-format line that holds the latency, if there is one.
pub open spec fn spec_common_latency_token(line: Seq<char>) -> Option<Seq<char>> {
    match common_pieces(line) {
        Some((_, _, rem)) => if rem.len() > 2 {
            Some(rem[2])
        } else {
            None
        },
        None => None,
    }
}

fn common_pieces_exec(line: &[char]) -> (r: Option<(Vec<char>, Vec<char>, Vec<Vec<char>>)>)
    ensures
        match r {
            Some((ip, path, rem)) => common_pieces(line@) == Some(
                (ip@, path@, char_vecs_view(rem@)),
            ),
            None => common_pieces(line@) is None,
        },
{
    let n = line.len();
    let parts = split_words(line);
    if parts.len() < 7 {
        return None;
    }
    assert(parts@[0]@ == char_vecs_view(parts@)[0]);
    let ip = parts[0].clone();
    let qs = match find_char_from(line, '"', 0) {
        Some(q) => q,
        None => return None,
    };
    let qe = match find_char_from(line, '"', qs + 1) {
        Some(q) => q,
        None => return None,
    };
    let request = slice_subrange(line, qs + 1, qe);
    let req_parts = split_words(request);
    let path = if req_parts.len() >= 2 {
        assert(req_parts@[1]@ == char_vecs_view(req_parts@)[1]);
        req_parts[1].clone()
    } else {
        let slash = "/".to_owned();
        chars_of(slash.as_str())
    };
    let remainder = slice_subrange(line, qe + 1, n);
    let rem = split_words(remainder);
    Some((ip, path, rem))
}

fn parse_common_chars(line: &[char], latency: Option<u64>) -> (r: Option<ParsedLogRecord>)
    ensures
        opt_record_view(r) == spec_parse_common(line@, latency),
{
    let (ip, path, rem) = match common_pieces_exec(line) {
        Some(p) => p,
        None => return None,
    };
    if rem.len() == 0 {
        return None;
    }
    assert(rem@[0]@ == char_vecs_view(rem@)[0]);
    let status: u16 = match parse_decimal(rem[0].as_slice(), 0xffff) {
        Some(v) => v as u16,
        None => 200,
    };
    let bytes: u64 = if rem.len() > 1 {
        assert(rem@[1]@ == char_vecs_view(rem@)[1]);
        match parse_decimal(rem[1].as_slice(), 0xffff_ffff_ffff_ffff) {
            Some(v) => v,
            None => 0,
        }
    } else {
        0
    };
    let latency_ms: u64 = if rem.len() > 2 {
        match latency {
            Some(l) => l,
            None => 0,
        }
    } else {
        0
    };
    Some(
        ParsedLogRecord {
            status,
            latency_ms,
            path: string_from_chars(path.as_slice()),
            ip: string_from_chars(ip.as_slice()),
            bytes,
        },
    )
}

/// Parses a line in common or combined web server log format. `latency` is
/// what the latency token (see [`latency_token`]) parses to as an `f64`, by
/// its bit pattern, or `None` when it does not parse.
pub fn parse_common_log_line(line: &str, latency: Option<u64>) -> (r: Option<ParsedLogRecord>)
    ensures
        opt_record_view(r) == spec_parse_common(line@, latency),
{
    let chars = chars_of(line);
    parse_common_chars(chars.as_slice(), latency)
}

// ---------------------------------------------------------------------------
// Whole lines
// ---------------------------------------------------------------------------

/// A line that may be a JSON object: it begins with '{' and ends with '}'.
pub open spec fn is_json_shaped(t: Seq<char>) -> bool {
    t.len() > 0 && t[0] == '{' && t.last() == '}'
}

/// The record a log line stands for. `json` is the line's trimmed text decoded
/// as a JSON log line (`None` when that fails), `latency` the parse of the
/// common-format latency token. Blank lines give `None`; a JSON-shaped line
/// that decodes gives the JSON record; any other line is read in common
/// format.
pub open spec fn spec_parse_log_line(
    line: Seq<char>,
    json: Option<JsonLineView>,
    latency: Option<u64>,
) -> Option<RecordView> {
    let t = trim(line);
    if t.len() == 0 {
        None
    } else if is_json_shaped(t) && json is Some {
        Some(spec_record_from_json(json->0))
    } else {
        spec_parse_common(t, latency)
    }
}

/// The trimmed text of a line that may hold a JSON object: this is what is to
/// be decoded into a [`JsonLogLine`] before [`parse_log_line`] is called.
pub fn json_text(line: &str) -> (r: Option<String>)
    ensures
        match r {
            Some(t) => is_json_shaped(trim(line@)) && t@ == trim(line@),
            None => !is_json_shaped(trim(line@)),
        },
{
    let chars = chars_of(line);
    let (start, end) = trim_bounds(chars.as_slice());
    if start < end && chars[start] == '{' && chars[end - 1] == '}' {
        Some(string_from_chars(slice_subrange(chars.as_slice(), start, end)))
    } else {
        None
    }
}

/// The token of a line that holds its latency when the line is read in common
/// format: this is what is to be parsed as an `f64` before [`parse_log_line`]
/// is called.
pub fn latency_token(line: &str) -> (r: Option<String>)
    ensures
        opt_str_view(r) == spec_common_latency_token(trim(line@)),
{
    let chars = chars_of(line);
    let (start, end) = trim_bounds(chars.as_slice());
    let t = slice_subrange(chars.as_slice(), start, end);
    match common_pieces_exec(t) {
        Some((_, _, rem)) => if rem.len() > 2 {
            assert(rem@[2]@ == char_vecs_view(rem@)[2]);
            Some(string_from_chars(rem[2].as_slice()))
        } else {
            None
        },
        None => None,
    }
}

/// Parses a single line from a log file into a structured record, given the
/// results of the two outside decoders: `json`, the decoding of
/// [`json_text`]'s text (`None` when there is none or it fails), and
/// `latency`, the `f64` parse of [`latency_token`]'s token as a bit pattern.
pub fn parse_log_line(line: &str, json: Option<JsonLogLine>, latency: Option<u64>) -> (r: Option<
    ParsedLogRecord,
>)
    ensures
        opt_record_view(r) == spec_parse_log_line(line@, opt_json_view(json), latency),
{
    let chars = chars_of(line);
    let (start, end) = trim_bounds(chars.as_slice());
    if start == end {
        return None;
    }
    if chars[start] == '{' && chars[end - 1] == '}' {
        if let Some(j) = json {
            return Some(record_from_json(j));
        }
    }
    parse_common_chars(slice_subrange(chars.as_slice(), start, end), latency)
}


// ---------------------------------------------------------------------------
// Laws of line parsing, stated by what the parse does
// ---------------------------------------------------------------------------

/// Each field of a JSON record comes from the first of its names that is
/// present, else from its default: latency from `latency_ms`, then
/// `response_time`, then `duration_ms`, then 0 — so a `response_time` counts
/// whenever `latency_ms` is absent, whatever the other fields are.
pub proof fn lemma_json_field_precedence(j: JsonLineView)
    ensures
        ({
            let r = spec_record_from_json(j);
            &&& j.status is Some ==> r.status == j.status->0
            &&& (j.status is None && j.status_code is Some) ==> r.status == j.status_code->0
            &&& (j.status is None && j.status_code is None) ==> r.status == 200
            &&& j.latency_ms is Some ==> r.latency_ms == j.latency_ms->0
            &&& (j.latency_ms is None && j.response_time is Some) ==> r.latency_ms == j.response_time->0
            &&& (j.latency_ms is None && j.response_time is None && j.duration_ms is Some)
                ==> r.latency_ms == j.duration_ms->0
            &&& (j.latency_ms is None && j.response_time is None && j.duration_ms is None)
                ==> r.latency_ms == 0
            &&& j.path is Some ==> r.path == j.path->0
            &&& (j.path is None && j.uri is Some) ==> r.path == j.uri->0
            &&& (j.path is None && j.uri is None && j.url is Some) ==> r.path == j.url->0
            &&& (j.path is None && j.uri is None && j.url is None) ==> r.path == "/"@
            &&& j.ip is Some ==> r.ip == j.ip->0
            &&& (j.ip is None && j.client_ip is Some) ==> r.ip == j.client_ip->0
            &&& (j.ip is None && j.client_ip is None) ==> r.ip == "127.0.0.1"@
            &&& j.bytes is Some ==> r.bytes == j.bytes->0
            &&& (j.bytes is None && j.bytes_sent is Some) ==> r.bytes == j.bytes_sent->0
            &&& (j.bytes is None && j.bytes_sent is None) ==> r.bytes == 0
        }),
{
}

/// A line of at least seven words with an opening quote and a closing quote
/// after it, and at least one word after the closing quote, parses: the
/// address is its first word, the status is the first word after the closing
/// quote (200 when that is no `u16`), the size the second (0 when absent or
/// no `u64`), whatever follows them — further quoted fields such as the
/// referer and the user agent of the combined format included.
pub proof fn lemma_common_line_parses(line: Seq<char>, latency: Option<u64>, qs: int, qe: int)
    requires
        words(line).len() >= 7,
        find_from(line, '"', 0) == Some(qs),
        find_from(line, '"', qs + 1) == Some(qe),
        words(line.skip(qe + 1)).len() > 0,
    ensures
        ({
            let rest = words(line.skip(qe + 1));
            &&& spec_parse_common(line, latency) is Some
            &&& spec_parse_common(line, latency)->0.ip == words(line)[0]
            &&& spec_parse_common(line, latency)->0.status == match parse_unsigned(rest[0], 0xffff) {
                Some(v) => v as u16,
                None => 200u16,
            }
            &&& spec_parse_common(line, latency)->0.bytes == if rest.len() > 1 {
                match parse_unsigned(rest[1], 0xffff_ffff_ffff_ffff) {
                    Some(v) => v as u64,
                    None => 0u64,
                }
            } else {
                0u64
            }
            &&& spec_parse_common(line, latency)->0.path == if words(
                line.subrange(qs + 1, qe),
            ).len() >= 2 {
                words(line.subrange(qs + 1, qe))[1]
            } else {
                "/"@
            }
        }),
{
}

} // verus!
