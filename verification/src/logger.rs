//! Alert log records and their newline-delimited JSON format: one object per
//! line with a fixed key order, plus the finalize step that turns a list of
//! such lines into one pretty-printed JSON array. Encoding and parsing are
//! exact inverses on well-formed records; reading and writing the file itself
//! is left to the surrounding application.

use crate::classifier::ipv4_octet;
use crate::classifier::spec_protocol_label;
use crate::classifier::protocol_label;
use vstd::prelude::*;
use vstd::string::StrSliceExecFns;
use vstd::string::StringExecFns;

verus! {

/// The two alert reasons the detector can raise.
#[derive(Clone, Copy, PartialEq, Eq, Structural, Debug)]
pub enum AlertReason {
    SuspiciousPort,
    Flood,
}

impl AlertReason {
    /// The reason text written into the alert record.
    pub open spec fn spec_text(self) -> Seq<char> {
        match self {
            AlertReason::SuspiciousPort => "Suspicious port access"@,
            AlertReason::Flood => "Port scan or flooding detected"@,
        }
    }

    /// The reason text written into the alert record.
    pub fn text(self) -> (r: &'static str)
        ensures
            r@ == self.spec_text(),
    {
        match self {
            AlertReason::SuspiciousPort => "Suspicious port access",
            AlertReason::Flood => "Port scan or flooding detected",
        }
    }
}

/// One alert record, as it appears in the sink: capture timestamp, the flow's
/// endpoints, the protocol label, and the reason.
#[derive(Clone, PartialEq, Debug)]
pub struct LogEntry {
    pub timestamp: String,
    pub source_ip: String,
    pub dest_ip: String,
    pub source_port: u16,
    pub dest_port: u16,
    pub protocol: String,
    pub alert: String,
}

/// The mathematical shape of a record: its text fields as character
/// sequences.
pub struct LogEntryView {
    pub timestamp: Seq<char>,
    pub source_ip: Seq<char>,
    pub dest_ip: Seq<char>,
    pub source_port: u16,
    pub dest_port: u16,
    pub protocol: Seq<char>,
    pub alert: Seq<char>,
}

impl View for LogEntry {
    type V = LogEntryView;

    open spec fn view(&self) -> LogEntryView {
        LogEntryView {
            timestamp: self.timestamp@,
            source_ip: self.source_ip@,
            dest_ip: self.dest_ip@,
            source_port: self.source_port,
            dest_port: self.dest_port,
            protocol: self.protocol@,
            alert: self.alert@,
        }
    }
}

/// A character that may sit in a record's text field unescaped: printable
/// ASCII other than the quote and the backslash. Every field the library
/// itself produces (RFC3339 timestamps, dotted quads, labels, reasons) stays
/// inside this set, so the format needs no escape sequences.
pub open spec fn plain_char(c: char) -> bool {
    0x20 <= c as u32 <= 0x7e && c != '"' && c != '\\'
}

/// A text made only of plain characters.
pub open spec fn plain(s: Seq<char>) -> bool {
    forall|i: int| 0 <= i < s.len() ==> plain_char(#[trigger] s[i])
}

impl LogEntryView {
    /// A record the format can carry: every text field is plain.
    pub open spec fn wf(self) -> bool {
        plain(self.timestamp) && plain(self.source_ip) && plain(self.dest_ip) && plain(
            self.protocol,
        ) && plain(self.alert)
    }
}

/// The decimal digit character of a value below ten.
pub open spec fn digit_char(d: int) -> char {
    if d == 0 {
        '0'
    } else if d == 1 {
        '1'
    } else if d == 2 {
        '2'
    } else if d == 3 {
        '3'
    } else if d == 4 {
        '4'
    } else if d == 5 {
        '5'
    } else if d == 6 {
        '6'
    } else if d == 7 {
        '7'
    } else if d == 8 {
        '8'
    } else {
        '9'
    }
}

/// The canonical decimal rendering of a non-negative value: no sign, no
/// leading zero except for zero itself.
pub open spec fn spec_dec(n: int) -> Seq<char>
    decreases n,
{
    if n < 10 {
        seq![digit_char(n)]
    } else {
        spec_dec(n / 10).push(digit_char(n % 10))
    }
}

/// The one-character string of a decimal digit.
fn digit_str(d: u8) -> (r: &'static str)
    requires
        d < 10,
    ensures
        r@ == seq![digit_char(d as int)],
{
    let r: &'static str = if d == 0 {
        "0"
    } else if d == 1 {
        "1"
    } else if d == 2 {
        "2"
    } else if d == 3 {
        "3"
    } else if d == 4 {
        "4"
    } else if d == 5 {
        "5"
    } else if d == 6 {
        "6"
    } else if d == 7 {
        "7"
    } else if d == 8 {
        "8"
    } else {
        "9"
    };
    proof {
        reveal_strlit("0");
        reveal_strlit("1");
        reveal_strlit("2");
        reveal_strlit("3");
        reveal_strlit("4");
        reveal_strlit("5");
        reveal_strlit("6");
        reveal_strlit("7");
        reveal_strlit("8");
        reveal_strlit("9");
        assert(r@ =~= seq![digit_char(d as int)]);
    }
    r
}

/// Append the canonical decimal rendering of a value.
pub fn append_dec_u16(out: &mut String, n: u16)
    ensures
        final(out)@ == old(out)@ + spec_dec(n as int),
    decreases n,
{
    if n >= 10 {
        append_dec_u16(out, n / 10);
    }
    out.append(digit_str((n % 10) as u8));
    proof {
        assert(final(out)@ =~= old(out)@ + spec_dec(n as int));
    }
}

/// The dotted-quad text of an IPv4 address.
pub open spec fn spec_ipv4(ip: u32) -> Seq<char> {
    spec_dec(ipv4_octet(ip, 0) as int) + "."@ + spec_dec(ipv4_octet(ip, 1) as int) + "."@
        + spec_dec(ipv4_octet(ip, 2) as int) + "."@ + spec_dec(ipv4_octet(ip, 3) as int)
}

/// The dotted-quad text of an IPv4 address.
pub fn ipv4_to_string(ip: u32) -> (r: String)
    ensures
        r@ == spec_ipv4(ip),
{
    let mut out = String::new();
    append_dec_u16(&mut out, (ip / 0x1000000) as u16);
    out.append(".");
    append_dec_u16(&mut out, ((ip / 0x10000) % 256) as u16);
    out.append(".");
    append_dec_u16(&mut out, ((ip / 0x100) % 256) as u16);
    out.append(".");
    append_dec_u16(&mut out, (ip % 256) as u16);
    proof {
        assert(out@ =~= spec_ipv4(ip));
    }
    out
}

/// The text between the opening brace and the timestamp's value.
pub open spec fn lit_timestamp() -> Seq<char> {
    "{\"timestamp\":\""@
}

/// The text between the timestamp's value and the source IP's value.
pub open spec fn lit_source_ip() -> Seq<char> {
    "\",\"source_ip\":\""@
}

/// The text between the source IP's value and the destination IP's value.
pub open spec fn lit_dest_ip() -> Seq<char> {
    "\",\"dest_ip\":\""@
}

/// The text between the destination IP's value and the source port's value.
pub open spec fn lit_source_port() -> Seq<char> {
    "\",\"source_port\":"@
}

/// The text between the source port's value and the destination port's value.
pub open spec fn lit_dest_port() -> Seq<char> {
    ",\"dest_port\":"@
}

/// The text between the destination port's value and the protocol's value.
pub open spec fn lit_protocol() -> Seq<char> {
    ",\"protocol\":\""@
}

/// The text between the protocol's value and the reason's value.
pub open spec fn lit_alert() -> Seq<char> {
    "\",\"alert\":\""@
}

/// The text that closes the record.
pub open spec fn lit_end() -> Seq<char> {
    "\"}"@
}

/// The one-line JSON text of a record: a single object, keys in fixed order,
/// text fields quoted verbatim, ports in canonical decimal.
pub open spec fn spec_encode(m: LogEntryView) -> Seq<char> {
    lit_timestamp() + m.timestamp + lit_source_ip() + m.source_ip + lit_dest_ip() + m.dest_ip
        + lit_source_port() + spec_dec(m.source_port as int) + lit_dest_port() + spec_dec(
        m.dest_port as int,
    ) + lit_protocol() + m.protocol + lit_alert() + m.alert + lit_end()
}

/// Encode one record as its one-line JSON text.
pub fn encode_log_entry(e: &LogEntry) -> (r: String)
    ensures
        r@ == spec_encode(e@),
{
    let mut out = String::new();
    out.append("{\"timestamp\":\"");
    out.append(e.timestamp.as_str());
    out.append("\",\"source_ip\":\"");
    out.append(e.source_ip.as_str());
    out.append("\",\"dest_ip\":\"");
    out.append(e.dest_ip.as_str());
    out.append("\",\"source_port\":");
    append_dec_u16(&mut out, e.source_port);
    out.append(",\"dest_port\":");
    append_dec_u16(&mut out, e.dest_port);
    out.append(",\"protocol\":\"");
    out.append(e.protocol.as_str());
    out.append("\",\"alert\":\"");
    out.append(e.alert.as_str());
    out.append("\"}");
    proof {
        assert(out@ =~= spec_encode(e@));
    }
    out
}

/// The record an alert carries: the flow's endpoints as dotted quads, the
/// protocol's label, and the reason's text.
pub open spec fn spec_entry_of(
    timestamp: Seq<char>,
    source_ip: u32,
    dest_ip: u32,
    source_port: u16,
    dest_port: u16,
    protocol: u8,
    reason: AlertReason,
) -> LogEntryView {
    LogEntryView {
        timestamp: timestamp,
        source_ip: spec_ipv4(source_ip),
        dest_ip: spec_ipv4(dest_ip),
        source_port: source_port,
        dest_port: dest_port,
        protocol: spec_protocol_label(protocol),
        alert: reason.spec_text(),
    }
}

/// Build the alert record of one packet and reason.
pub fn make_log_entry(
    timestamp: &str,
    source_ip: u32,
    dest_ip: u32,
    source_port: u16,
    dest_port: u16,
    protocol: u8,
    reason: AlertReason,
) -> (e: LogEntry)
    ensures
        e@ == spec_entry_of(
            timestamp@,
            source_ip,
            dest_ip,
            source_port,
            dest_port,
            protocol,
            reason,
        ),
{
    LogEntry {
        timestamp: String::from_str(timestamp),
        source_ip: ipv4_to_string(source_ip),
        dest_ip: ipv4_to_string(dest_ip),
        source_port,
        dest_port,
        protocol: String::from_str(protocol_label(protocol)),
        alert: String::from_str(reason.text()),
    }
}

/// The one-line JSON text of one alert: the record of the packet and reason,
/// encoded. The caller appends it to the sink.
pub fn log_event(
    timestamp: &str,
    source_ip: u32,
    dest_ip: u32,
    source_port: u16,
    dest_port: u16,
    protocol: u8,
    reason: AlertReason,
) -> (r: String)
    ensures
        r@ == spec_encode(
            spec_entry_of(
                timestamp@,
                source_ip,
                dest_ip,
                source_port,
                dest_port,
                protocol,
                reason,
            ),
        ),
{
    let e = make_log_entry(timestamp, source_ip, dest_ip, source_port, dest_port, protocol, reason);
    encode_log_entry(&e)
}

/// Whether the given text stands at position `i`.
pub open spec fn has_lit(s: Seq<char>, i: int, l: Seq<char>) -> bool {
    0 <= i && i + l.len() <= s.len() && s.subrange(i, i + l.len()) == l
}

/// The position of the closing quote of a text field starting at `i`: the
/// first quote at or after `i`, provided everything before it is plain.
pub open spec fn close_quote(s: Seq<char>, i: int) -> Option<int>
    decreases s.len() - i,
{
    if i < 0 || i >= s.len() {
        None
    } else if s[i] == '"' {
        Some(i)
    } else if plain_char(s[i]) {
        close_quote(s, i + 1)
    } else {
        None
    }
}

/// A decimal digit character.
pub open spec fn is_digit(c: char) -> bool {
    48 <= c as u32 <= 57
}

/// The value of a decimal digit character.
pub open spec fn digit_val(c: char) -> int {
    c as u32 - 48
}

/// The first position at or after `i` that does not hold a digit.
pub open spec fn end_digits(s: Seq<char>, i: int) -> int
    decreases s.len() - i,
{
    if i < 0 || i >= s.len() {
        i
    } else if is_digit(s[i]) {
        end_digits(s, i + 1)
    } else {
        i
    }
}

/// The value of the digit run `s[i..j]`.
pub open spec fn dec_value(s: Seq<char>, i: int, j: int) -> int
    decreases j - i,
{
    if i >= j {
        0
    } else {
        dec_value(s, i, j - 1) * 10 + digit_val(s[j - 1])
    }
}

/// A canonical port number at `s[i..j]`: at least one digit, no leading zero
/// except for zero itself, and a value a 16-bit port can hold.
pub open spec fn valid_number(s: Seq<char>, i: int, j: int) -> bool {
    j > i && (digit_val(s[i]) != 0 || j == i + 1) && dec_value(s, i, j) <= 65535
}

/// Ten to the given power.
pub open spec fn pow10(n: int) -> int
    decreases n,
{
    if n <= 0 {
        1
    } else {
        10 * pow10(n - 1)
    }
}

/// A digit run's value is below ten to its length.
pub proof fn lemma_dec_value_bounds(s: Seq<char>, i: int, j: int)
    requires
        forall|t: int| i <= t < j ==> is_digit(#[trigger] s[t]),
    ensures
        0 <= dec_value(s, i, j) < pow10(j - i),
    decreases j - i,
{
    if i < j {
        lemma_dec_value_bounds(s, i, j - 1);
    }
}

/// A digit run with no leading zero has a value at least ten to one less
/// than its length.
pub proof fn lemma_dec_value_lower(s: Seq<char>, i: int, j: int)
    requires
        i < j,
        forall|t: int| i <= t < j ==> is_digit(#[trigger] s[t]),
        digit_val(s[i]) != 0,
    ensures
        dec_value(s, i, j) >= pow10(j - i - 1),
    decreases j - i,
{
    if j == i + 1 {
        reveal_with_fuel(dec_value, 3);
        assert(digit_val(s[i]) >= 1);
    } else {
        lemma_dec_value_lower(s, i, j - 1);
    }
}

/// Powers of ten do not shrink.
pub proof fn lemma_pow10_mono(a: int, b: int)
    requires
        a <= b,
    ensures
        pow10(a) <= pow10(b),
    decreases b - a,
{
    if a < b {
        lemma_pow10_mono(a, b - 1);
        assert(pow10(b - 1) >= 1) by {
            lemma_pow10_pos(b - 1);
        }
    }
}

/// The first few powers of ten, spelled out.
pub proof fn lemma_pow10_small()
    ensures
        pow10(0) == 1,
        pow10(1) == 10,
        pow10(2) == 100,
        pow10(3) == 1000,
        pow10(4) == 10000,
        pow10(5) == 100000,
{
    reveal_with_fuel(pow10, 7);
}

/// Powers of ten are positive.
pub proof fn lemma_pow10_pos(n: int)
    ensures
        pow10(n) >= 1,
    decreases n,
{
    if n > 0 {
        lemma_pow10_pos(n - 1);
    }
}

/// Everything between `i` and the end of the digit run is a digit, and the
/// run ends at the text's end or at a non-digit.
pub proof fn lemma_end_digits_props(s: Seq<char>, i: int)
    requires
        0 <= i <= s.len(),
    ensures
        i <= end_digits(s, i) <= s.len(),
        forall|t: int| i <= t < end_digits(s, i) ==> is_digit(#[trigger] s[t]),
        end_digits(s, i) == s.len() || !is_digit(s[end_digits(s, i)]),
    decreases s.len() - i,
{
    if i < s.len() && is_digit(s[i]) {
        lemma_end_digits_props(s, i + 1);
    }
}

/// A found closing quote lies in range, holds a quote, and everything before
/// it back to `i` is plain.
pub proof fn lemma_close_quote_props(s: Seq<char>, i: int)
    requires
        close_quote(s, i) is Some,
    ensures
        i <= close_quote(s, i)->0 < s.len(),
        s[close_quote(s, i)->0] == '"',
        forall|t: int| i <= t < close_quote(s, i)->0 ==> plain_char(#[trigger] s[t]),
    decreases s.len() - i,
{
    if !(i < 0 || i >= s.len()) && s[i] != '"' && plain_char(s[i]) {
        lemma_close_quote_props(s, i + 1);
    }
}

/// Whether the given text stands at character position `i`.
fn match_lit(s: &str, i: usize, l: &str) -> (r: bool)
    ensures
        r == has_lit(s@, i as int, l@),
{
    let n = s.unicode_len();
    let ln = l.unicode_len();
    if i > n || ln > n - i {
        return false;
    }
    let mut k: usize = 0;
    while k < ln
        invariant
            k <= ln,
            i + ln <= n,
            n == s@.len(),
            ln == l@.len(),
            forall|t: int| 0 <= t < k ==> s@[i + t] == l@[t],
        decreases ln - k,
    {
        if s.get_char(i + k) != l.get_char(k) {
            proof {
                assert(s@.subrange(i as int, i + ln as int)[k as int] == s@[i + k]);
            }
            return false;
        }
        k = k + 1;
    }
    proof {
        assert(s@.subrange(i as int, i + ln as int) =~= l@);
    }
    true
}

/// The position of the closing quote of the field starting at `i`, if the
/// field is plain.
fn scan_close_quote(s: &str, i: usize) -> (r: Option<usize>)
    ensures
        match r {
            Some(j) => close_quote(s@, i as int) == Some(j as int),
            None => close_quote(s@, i as int) is None,
        },
    decreases s@.len() - i,
{
    let n = s.unicode_len();
    if i >= n {
        return None;
    }
    let c = s.get_char(i);
    if c == '"' {
        Some(i)
    } else if c != '\\' && (c as u32) >= 0x20 && (c as u32) <= 0x7e {
        scan_close_quote(s, i + 1)
    } else {
        None
    }
}

/// The first character position at or after `i` without a digit.
fn scan_end_digits(s: &str, i: usize) -> (r: usize)
    requires
        i <= s@.len(),
    ensures
        r as int == end_digits(s@, i as int),
        i <= r <= s@.len(),
    decreases s@.len() - i,
{
    let n = s.unicode_len();
    if i >= n {
        return i;
    }
    let c = s.get_char(i);
    if (c as u32) >= 48 && (c as u32) <= 57 {
        scan_end_digits(s, i + 1)
    } else {
        i
    }
}

/// The port value of the digit run `s[i..j]`, if it is canonical and fits.
fn parse_number(s: &str, i: usize, j: usize) -> (r: Option<u16>)
    requires
        i <= j <= s@.len(),
        forall|t: int| i <= t < j ==> is_digit(#[trigger] s@[t]),
    ensures
        match r {
            Some(v) => valid_number(s@, i as int, j as int) && v as int == dec_value(
                s@,
                i as int,
                j as int,
            ),
            None => !valid_number(s@, i as int, j as int),
        },
{
    if j == i {
        return None;
    }
    let c0 = s.get_char(i);
    if (c0 as u32) == 48 && j - i > 1 {
        return None;
    }
    if j - i > 5 {
        proof {
            lemma_dec_value_lower(s@, i as int, j as int);
            lemma_pow10_mono(5, j - i - 1);
            lemma_pow10_small();
        }
        return None;
    }
    let mut acc: u32 = 0;
    let mut k: usize = i;
    while k < j
        invariant
            i <= k <= j,
            j - i <= 5,
            j <= s@.len(),
            forall|t: int| i <= t < j ==> is_digit(#[trigger] s@[t]),
            acc == dec_value(s@, i as int, k as int),
            acc < 100000,
        decreases j - k,
    {
        proof {
            lemma_dec_value_bounds(s@, i as int, k as int);
            lemma_pow10_mono(k - i, 4);
            lemma_pow10_small();
        }
        let d: u32 = (s.get_char(k) as u32) - 48;
        acc = acc * 10 + d;
        k = k + 1;
        proof {
            lemma_dec_value_bounds(s@, i as int, k as int);
            lemma_pow10_mono(k - i, 5);
            lemma_pow10_small();
        }
    }
    if acc <= 65535 {
        Some(acc as u16)
    } else {
        None
    }
}


/// What parsing a line yields: the record whose canonical one-line JSON text
/// the line is, if it is one. The line must carry the fixed key order, quoted
/// plain text fields, canonical port numbers, and nothing after the closing
/// brace.
pub open spec fn spec_parse(s: Seq<char>) -> Option<LogEntryView> {
    if !has_lit(s, 0, lit_timestamp()) {
        None
    } else {
        let a = lit_timestamp().len() as int;
        match close_quote(s, a) {
            None => None,
            Some(qa) => if !has_lit(s, qa, lit_source_ip()) {
                None
            } else {
                let c = qa + lit_source_ip().len();
                match close_quote(s, c) {
                    None => None,
                    Some(qc) => if !has_lit(s, qc, lit_dest_ip()) {
                        None
                    } else {
                        let d = qc + lit_dest_ip().len();
                        match close_quote(s, d) {
                            None => None,
                            Some(qd) => if !has_lit(s, qd, lit_source_port()) {
                                None
                            } else {
                                let e = qd + lit_source_port().len();
                                let f = end_digits(s, e);
                                if !valid_number(s, e, f) || !has_lit(s, f, lit_dest_port()) {
                                    None
                                } else {
                                    let g = f + lit_dest_port().len();
                                    let h = end_digits(s, g);
                                    if !valid_number(s, g, h) || !has_lit(s, h, lit_protocol()) {
                                        None
                                    } else {
                                        let p = h + lit_protocol().len();
                                        match close_quote(s, p) {
                                            None => None,
                                            Some(qp) => if !has_lit(s, qp, lit_alert()) {
                                                None
                                            } else {
                                                let q = qp + lit_alert().len();
                                                match close_quote(s, q) {
                                                    None => None,
                                                    Some(qq) => if !(has_lit(s, qq, lit_end())
                                                        && qq + lit_end().len() == s.len()) {
                                                        None
                                                    } else {
                                                        Some(LogEntryView {
                                                            timestamp: s.subrange(a, qa),
                                                            source_ip: s.subrange(c, qc),
                                                            dest_ip: s.subrange(d, qd),
                                                            source_port: dec_value(s, e, f) as u16,
                                                            dest_port: dec_value(s, g, h) as u16,
                                                            protocol: s.subrange(p, qp),
                                                            alert: s.subrange(q, qq),
                                                        })
                                                    },
                                                }
                                            },
                                        }
                                    }
                                }
                            },
                        }
                    },
                }
            },
        }
    }
}

/// Parse one line back into a record: yields the record whose canonical
/// one-line JSON text the line is, and nothing on any other line.
#[verifier::rlimit(50)]
pub fn parse_log_line(line: &str) -> (r: Option<LogEntry>)
    ensures
        match r {
            Some(e) => spec_parse(line@) == Some(e@),
            None => spec_parse(line@) is None,
        },
{
    let n = line.unicode_len();
    let lit_ts = "{\"timestamp\":\"";
    if !match_lit(line, 0, lit_ts) {
        return None;
    }
    let a = lit_ts.unicode_len();
    let qa = match scan_close_quote(line, a) {
        Some(x) => x,
        None => {
            return None;
        },
    };
    proof {
        lemma_close_quote_props(line@, a as int);
    }
    let lit_si = "\",\"source_ip\":\"";
    if !match_lit(line, qa, lit_si) {
        return None;
    }
    let c = qa + lit_si.unicode_len();
    let qc = match scan_close_quote(line, c) {
        Some(x) => x,
        None => {
            return None;
        },
    };
    proof {
        lemma_close_quote_props(line@, c as int);
    }
    let lit_di = "\",\"dest_ip\":\"";
    if !match_lit(line, qc, lit_di) {
        return None;
    }
    let d = qc + lit_di.unicode_len();
    let qd = match scan_close_quote(line, d) {
        Some(x) => x,
        None => {
            return None;
        },
    };
    proof {
        lemma_close_quote_props(line@, d as int);
    }
    let lit_sp = "\",\"source_port\":";
    if !match_lit(line, qd, lit_sp) {
        return None;
    }
    let e = qd + lit_sp.unicode_len();
    let f = scan_end_digits(line, e);
    proof {
        lemma_end_digits_props(line@, e as int);
    }
    let v1 = match parse_number(line, e, f) {
        Some(x) => x,
        None => {
            return None;
        },
    };
    let lit_dp = ",\"dest_port\":";
    if !match_lit(line, f, lit_dp) {
        return None;
    }
    let g = f + lit_dp.unicode_len();
    let h = scan_end_digits(line, g);
    proof {
        lemma_end_digits_props(line@, g as int);
    }
    let v2 = match parse_number(line, g, h) {
        Some(x) => x,
        None => {
            return None;
        },
    };
    let lit_pr = ",\"protocol\":\"";
    if !match_lit(line, h, lit_pr) {
        return None;
    }
    let p = h + lit_pr.unicode_len();
    let qp = match scan_close_quote(line, p) {
        Some(x) => x,
        None => {
            return None;
        },
    };
    proof {
        lemma_close_quote_props(line@, p as int);
    }
    let lit_al = "\",\"alert\":\"";
    if !match_lit(line, qp, lit_al) {
        return None;
    }
    let q = qp + lit_al.unicode_len();
    let qq = match scan_close_quote(line, q) {
        Some(x) => x,
        None => {
            return None;
        },
    };
    proof {
        lemma_close_quote_props(line@, q as int);
    }
    let lit_en = "\"}";
    if !match_lit(line, qq, lit_en) {
        return None;
    }
    if qq + lit_en.unicode_len() != n {
        return None;
    }
    let entry = LogEntry {
        timestamp: line.substring_char(a, qa).to_owned(),
        source_ip: line.substring_char(c, qc).to_owned(),
        dest_ip: line.substring_char(d, qd).to_owned(),
        source_port: v1,
        dest_port: v2,
        protocol: line.substring_char(p, qp).to_owned(),
        alert: line.substring_char(q, qq).to_owned(),
    };
    Some(entry)
}


/// A whitespace character stripped from line ends.
pub open spec fn is_space(c: char) -> bool {
    c == ' ' || c == '\t' || c == '\r' || c == '\n'
}

/// The first position at or after `i` without leading whitespace.
pub open spec fn trim_start_idx(s: Seq<char>, i: int) -> int
    decreases s.len() - i,
{
    if 0 <= i < s.len() && is_space(s[i]) {
        trim_start_idx(s, i + 1)
    } else {
        i
    }
}

/// The position right after the last non-whitespace character before `j`.
pub open spec fn trim_end_idx(s: Seq<char>, j: int) -> int
    decreases j,
{
    if 0 < j <= s.len() && is_space(s[j - 1]) {
        trim_end_idx(s, j - 1)
    } else {
        j
    }
}

/// The text with leading and trailing whitespace stripped.
pub open spec fn spec_trim(s: Seq<char>) -> Seq<char> {
    let a = trim_start_idx(s, 0);
    let b = trim_end_idx(s, s.len() as int);
    if a <= b {
        s.subrange(a, b)
    } else {
        Seq::empty()
    }
}

/// The first position at or after `i` without leading whitespace.
fn scan_trim_start(s: &str, i: usize) -> (r: usize)
    requires
        i <= s@.len(),
    ensures
        r as int == trim_start_idx(s@, i as int),
        i <= r <= s@.len(),
    decreases s@.len() - i,
{
    let n = s.unicode_len();
    if i >= n {
        return i;
    }
    let c = s.get_char(i);
    if c == ' ' || c == '\t' || c == '\r' || c == '\n' {
        scan_trim_start(s, i + 1)
    } else {
        i
    }
}

/// The position right after the last non-whitespace character before `j`.
fn scan_trim_end(s: &str, j: usize) -> (r: usize)
    requires
        j <= s@.len(),
    ensures
        r as int == trim_end_idx(s@, j as int),
        r <= j,
    decreases j,
{
    if j == 0 {
        return 0;
    }
    let c = s.get_char(j - 1);
    if c == ' ' || c == '\t' || c == '\r' || c == '\n' {
        scan_trim_end(s, j - 1)
    } else {
        j
    }
}

/// The line with leading and trailing whitespace stripped.
pub fn trim_line(s: &str) -> (r: &str)
    ensures
        r@ == spec_trim(s@),
{
    let n = s.unicode_len();
    let a = scan_trim_start(s, 0);
    let b = scan_trim_end(s, n);
    if a <= b {
        s.substring_char(a, b)
    } else {
        proof {
            reveal_strlit("");
            assert(""@ =~= Seq::<char>::empty());
        }
        ""
    }
}

/// The records one line contributes to the finalized array: the one it
/// canonically encodes once trimmed, or none.
pub open spec fn spec_line_entries(l: Seq<char>) -> Seq<LogEntryView> {
    let t = spec_trim(l);
    if t.len() > 0 {
        match spec_parse(t) {
            Some(m) => seq![m],
            None => Seq::empty(),
        }
    } else {
        Seq::empty()
    }
}

/// The records a list of lines contributes, in order: trimmed, empty lines
/// skipped, unparseable lines skipped.
pub open spec fn spec_entries(lines: Seq<Seq<char>>) -> Seq<LogEntryView>
    decreases lines.len(),
{
    if lines.len() == 0 {
        Seq::empty()
    } else {
        spec_line_entries(lines[0]) + spec_entries(lines.drop_first())
    }
}

/// Each added line appends its own contribution.
pub proof fn lemma_entries_push(lines: Seq<Seq<char>>, l: Seq<char>)
    ensures
        spec_entries(lines.push(l)) == spec_entries(lines) + spec_line_entries(l),
    decreases lines.len(),
{
    reveal_with_fuel(spec_entries, 3);
    if lines.len() == 0 {
        assert(lines.push(l)[0] == l);
        assert(lines.push(l).drop_first() =~= Seq::<Seq<char>>::empty());
        assert(spec_entries(lines.push(l)) =~= spec_entries(lines) + spec_line_entries(l));
    } else {
        let rest = lines.drop_first();
        assert(lines.push(l)[0] == lines[0]);
        assert(lines.push(l).drop_first() =~= rest.push(l));
        lemma_entries_push(rest, l);
        assert(spec_entries(lines.push(l)) == spec_line_entries(lines[0]) + (spec_entries(rest)
            + spec_line_entries(l)));
        assert(spec_line_entries(lines[0]) + (spec_entries(rest) + spec_line_entries(l)) =~= (
        spec_line_entries(lines[0]) + spec_entries(rest)) + spec_line_entries(l));
    }
}

/// One record's text inside the pretty-printed array: the object spread over
/// lines, fields indented below the array item.
pub open spec fn spec_render_entry(m: LogEntryView) -> Seq<char> {
    "{\n    \"timestamp\": \""@ + m.timestamp + "\",\n    \"source_ip\": \""@ + m.source_ip
        + "\",\n    \"dest_ip\": \""@ + m.dest_ip + "\",\n    \"source_port\": "@ + spec_dec(
        m.source_port as int,
    ) + ",\n    \"dest_port\": "@ + spec_dec(m.dest_port as int) + ",\n    \"protocol\": \""@
        + m.protocol + "\",\n    \"alert\": \""@ + m.alert + "\"\n  }"@
}

/// The text of every array item after the first: each preceded by the
/// separator and the item indent.
pub open spec fn spec_render_tail(ms: Seq<LogEntryView>) -> Seq<char>
    decreases ms.len(),
{
    if ms.len() == 0 {
        Seq::empty()
    } else {
        ",\n  "@ + spec_render_entry(ms[0]) + spec_render_tail(ms.drop_first())
    }
}

/// The pretty-printed JSON array of the records: `[]` when there are none,
/// otherwise one object per item, comma-separated, two-space indented.
pub open spec fn spec_render_array(ms: Seq<LogEntryView>) -> Seq<char> {
    if ms.len() == 0 {
        "[]"@
    } else {
        "[\n  "@ + spec_render_entry(ms[0]) + spec_render_tail(ms.drop_first()) + "\n]"@
    }
}

/// Each added record appends one separated item to the tail.
pub proof fn lemma_render_tail_push(ms: Seq<LogEntryView>, m: LogEntryView)
    ensures
        spec_render_tail(ms.push(m)) == spec_render_tail(ms) + (",\n  "@ + spec_render_entry(m)),
    decreases ms.len(),
{
    reveal_with_fuel(spec_render_tail, 3);
    if ms.len() == 0 {
        assert(ms.push(m)[0] == m);
        assert(ms.push(m).drop_first() =~= Seq::<LogEntryView>::empty());
        assert(spec_render_tail(ms.push(m)) =~= spec_render_tail(ms) + (",\n  "@
            + spec_render_entry(m)));
    } else {
        let rest = ms.drop_first();
        assert(ms.push(m)[0] == ms[0]);
        assert(ms.push(m).drop_first() =~= rest.push(m));
        lemma_render_tail_push(rest, m);
        assert(spec_render_tail(ms.push(m)) == ",\n  "@ + spec_render_entry(ms[0]) + (
        spec_render_tail(rest) + (",\n  "@ + spec_render_entry(m))));
        assert(",\n  "@ + spec_render_entry(ms[0]) + (spec_render_tail(rest) + (",\n  "@
            + spec_render_entry(m))) =~= (",\n  "@ + spec_render_entry(ms[0]) + spec_render_tail(
        rest)) + (",\n  "@ + spec_render_entry(m)));
    }
}

/// Append one record's pretty-printed object text.
fn append_rendered_entry(out: &mut String, e: &LogEntry)
    ensures
        final(out)@ == old(out)@ + spec_render_entry(e@),
{
    out.append("{\n    \"timestamp\": \"");
    out.append(e.timestamp.as_str());
    out.append("\",\n    \"source_ip\": \"");
    out.append(e.source_ip.as_str());
    out.append("\",\n    \"dest_ip\": \"");
    out.append(e.dest_ip.as_str());
    out.append("\",\n    \"source_port\": ");
    append_dec_u16(out, e.source_port);
    out.append(",\n    \"dest_port\": ");
    append_dec_u16(out, e.dest_port);
    out.append(",\n    \"protocol\": \"");
    out.append(e.protocol.as_str());
    out.append("\",\n    \"alert\": \"");
    out.append(e.alert.as_str());
    out.append("\"\n  }");
    proof {
        assert(final(out)@ =~= old(out)@ + spec_render_entry(e@));
    }
}

/// The pretty-printed JSON array of a list of records.
pub fn render_alerts_array(entries: &Vec<LogEntry>) -> (r: String)
    ensures
        r@ == spec_render_array(entries@.map_values(|e: LogEntry| e@)),
{
    let ghost views = entries@.map_values(|e: LogEntry| e@);
    if entries.len() == 0 {
        let r = String::from_str("[]");
        return r;
    }
    let mut out = String::new();
    out.append("[\n  ");
    append_rendered_entry(&mut out, &entries[0]);
    let mut i: usize = 1;
    while i < entries.len()
        invariant
            1 <= i <= entries@.len(),
            views == entries@.map_values(|e: LogEntry| e@),
            views.len() == entries@.len(),
            out@ == "[\n  "@ + spec_render_entry(views[0]) + spec_render_tail(
                views.subrange(1, i as int),
            ),
        decreases entries@.len() - i,
    {
        let ghost done = views.subrange(1, i as int);
        out.append(",\n  ");
        append_rendered_entry(&mut out, &entries[i]);
        proof {
            lemma_render_tail_push(done, views[i as int]);
            assert(views.subrange(1, i + 1 as int) =~= done.push(views[i as int]));
            assert(out@ =~= "[\n  "@ + spec_render_entry(views[0]) + spec_render_tail(
                views.subrange(1, i + 1 as int),
            ));
        }
        i = i + 1;
    }
    out.append("\n]");
    proof {
        assert(views.subrange(1, views.len() as int) =~= views.drop_first());
        assert(out@ =~= spec_render_array(views));
    }
    out
}

/// Rewrite the sink's lines as one pretty-printed JSON array: every line that
/// (after trimming) is the canonical text of a record becomes one array item,
/// in original order; blank and unparseable lines are dropped. No lines yield
/// `[]`, which also serves for an absent sink.
pub fn finalize_alerts_json(lines: &Vec<String>) -> (r: String)
    ensures
        r@ == spec_render_array(spec_entries(lines@.map_values(|l: String| l@))),
{
    let ghost lviews = lines@.map_values(|l: String| l@);
    let mut entries: Vec<LogEntry> = Vec::new();
    let mut i: usize = 0;
    while i < lines.len()
        invariant
            i <= lines@.len(),
            lviews == lines@.map_values(|l: String| l@),
            lviews.len() == lines@.len(),
            entries@.map_values(|e: LogEntry| e@) == spec_entries(lviews.subrange(0, i as int)),
        decreases lines@.len() - i,
    {
        let ghost done = lviews.subrange(0, i as int);
        let t = trim_line(lines[i].as_str());
        if t.unicode_len() > 0 {
            match parse_log_line(t) {
                Some(e) => {
                    entries.push(e);
                },
                None => {},
            }
        }
        proof {
            lemma_entries_push(done, lviews[i as int]);
            assert(lviews.subrange(0, i + 1 as int) =~= done.push(lviews[i as int]));
            assert(entries@.map_values(|e: LogEntry| e@) =~= spec_entries(
                lviews.subrange(0, i + 1 as int),
            ));
        }
        i = i + 1;
    }
    proof {
        assert(lviews.subrange(0, lviews.len() as int) =~= lviews);
    }
    render_alerts_array(&entries)
}


/// Digit characters carry their value, are digits, and are plain.
proof fn lemma_digit_char(d: int)
    requires
        0 <= d <= 9,
    ensures
        is_digit(digit_char(d)),
        digit_val(digit_char(d)) == d,
        plain_char(digit_char(d)),
{
}

/// A canonical decimal rendering is all digits, at least one, with no
/// leading zero unless it is the single digit zero.
proof fn lemma_dec_shape(n: int)
    requires
        0 <= n,
    ensures
        spec_dec(n).len() >= 1,
        forall|t: int| 0 <= t < spec_dec(n).len() ==> is_digit(#[trigger] spec_dec(n)[t]),
        digit_val(spec_dec(n)[0]) != 0 || spec_dec(n).len() == 1,
    decreases n,
{
    reveal_with_fuel(spec_dec, 3);
    if n < 10 {
        lemma_digit_char(n);
    } else {
        lemma_dec_shape(n / 10);
        lemma_digit_char(n % 10);
        if n / 10 < 10 {
            lemma_digit_char(n / 10);
        }
        assert(forall|t: int|
            0 <= t < spec_dec(n / 10).len() ==> #[trigger] spec_dec(n)[t] == spec_dec(n / 10)[t]);
    }
}

/// Reading a canonical decimal rendering back gives the value it renders.
proof fn lemma_dec_value_of(s: Seq<char>, i: int, n: int)
    requires
        0 <= n,
        0 <= i,
        i + spec_dec(n).len() <= s.len(),
        s.subrange(i, i + spec_dec(n).len()) == spec_dec(n),
    ensures
        dec_value(s, i, i + spec_dec(n).len()) == n,
    decreases n,
{
    reveal_with_fuel(dec_value, 3);
    let k = spec_dec(n).len() as int;
    if n < 10 {
        lemma_digit_char(n);
        assert(s[i] == s.subrange(i, i + 1)[0]);
    } else {
        lemma_dec_shape(n / 10);
        lemma_digit_char(n % 10);
        assert(s.subrange(i, i + k - 1) =~= spec_dec(n / 10)) by {
            assert(forall|t: int|
                0 <= t < k - 1 ==> #[trigger] s.subrange(i, i + k - 1)[t] == s.subrange(
                    i,
                    i + k,
                )[t]);
        }
        lemma_dec_value_of(s, i, n / 10);
        assert(s[i + k - 1] == s.subrange(i, i + k)[k - 1]);
        assert(digit_val(s[i + k - 1]) == n % 10);
    }
}

/// The closing-quote scan finds the quote that ends a plain stretch.
proof fn lemma_close_quote_finds(s: Seq<char>, i: int, j: int)
    requires
        0 <= i <= j < s.len(),
        forall|k: int| i <= k < j ==> plain_char(#[trigger] s[k]),
        s[j] == '"',
    ensures
        close_quote(s, i) == Some(j),
    decreases j - i,
{
    if i < j {
        lemma_close_quote_finds(s, i + 1, j);
    }
}

/// The digit scan stops right after a digit stretch followed by a non-digit.
proof fn lemma_end_digits_finds(s: Seq<char>, i: int, j: int)
    requires
        0 <= i <= j <= s.len(),
        forall|k: int| i <= k < j ==> is_digit(#[trigger] s[k]),
        j == s.len() || !is_digit(s[j]),
    ensures
        end_digits(s, i) == j,
    decreases j - i,
{
    if i < j {
        lemma_end_digits_finds(s, i + 1, j);
    }
}

/// Parsing inverts encoding: the canonical one-line JSON text of any
/// well-formed record parses back to exactly that record.
#[verifier::rlimit(100)]
pub proof fn lemma_parse_encode_roundtrip(m: LogEntryView)
    requires
        m.wf(),
    ensures
        spec_parse(spec_encode(m)) == Some(m),
{
    reveal_strlit("{\"timestamp\":\"");
    reveal_strlit("\",\"source_ip\":\"");
    reveal_strlit("\",\"dest_ip\":\"");
    reveal_strlit("\",\"source_port\":");
    reveal_strlit(",\"dest_port\":");
    reveal_strlit(",\"protocol\":\"");
    reveal_strlit("\",\"alert\":\"");
    reveal_strlit("\"}");
    let s = spec_encode(m);
    let d1 = spec_dec(m.source_port as int);
    let d2 = spec_dec(m.dest_port as int);
    lemma_dec_shape(m.source_port as int);
    lemma_dec_shape(m.dest_port as int);
    let a = lit_timestamp().len() as int;
    let qa = a + m.timestamp.len();
    let c = qa + lit_source_ip().len();
    let qc = c + m.source_ip.len();
    let d = qc + lit_dest_ip().len();
    let qd = d + m.dest_ip.len();
    let e = qd + lit_source_port().len();
    let f = e + d1.len();
    let g = f + lit_dest_port().len();
    let h = g + d2.len();
    let p = h + lit_protocol().len();
    let qp = p + m.protocol.len();
    let q = qp + lit_alert().len();
    let qq = q + m.alert.len();
    assert(s.len() == qq + lit_end().len());

    assert(s.subrange(0, a) =~= lit_timestamp());
    assert(s.subrange(a, qa) =~= m.timestamp);
    assert(s.subrange(qa, c) =~= lit_source_ip());
    assert(s.subrange(c, qc) =~= m.source_ip);
    assert(s.subrange(qc, d) =~= lit_dest_ip());
    assert(s.subrange(d, qd) =~= m.dest_ip);
    assert(s.subrange(qd, e) =~= lit_source_port());
    assert(s.subrange(e, f) =~= d1);
    assert(s.subrange(f, g) =~= lit_dest_port());
    assert(s.subrange(g, h) =~= d2);
    assert(s.subrange(h, p) =~= lit_protocol());
    assert(s.subrange(p, qp) =~= m.protocol);
    assert(s.subrange(qp, q) =~= lit_alert());
    assert(s.subrange(q, qq) =~= m.alert);
    assert(s.subrange(qq, s.len() as int) =~= lit_end());

    assert(has_lit(s, 0, lit_timestamp()));
    assert(has_lit(s, qa, lit_source_ip()));
    assert(has_lit(s, qc, lit_dest_ip()));
    assert(has_lit(s, qd, lit_source_port()));
    assert(has_lit(s, f, lit_dest_port()));
    assert(has_lit(s, h, lit_protocol()));
    assert(has_lit(s, qp, lit_alert()));
    assert(has_lit(s, qq, lit_end()));

    assert(s[qa] == '"');
    assert(s[qc] == '"');
    assert(s[qd] == '"');
    assert(s[qp] == '"');
    assert(s[qq] == '"');

    assert forall|k: int| a <= k < qa implies plain_char(s[k]) by {
        assert(s.subrange(a, qa)[k - a] == m.timestamp[k - a]);
    }
    lemma_close_quote_finds(s, a, qa);
    assert forall|k: int| c <= k < qc implies plain_char(s[k]) by {
        assert(s.subrange(c, qc)[k - c] == m.source_ip[k - c]);
    }
    lemma_close_quote_finds(s, c, qc);
    assert forall|k: int| d <= k < qd implies plain_char(s[k]) by {
        assert(s.subrange(d, qd)[k - d] == m.dest_ip[k - d]);
    }
    lemma_close_quote_finds(s, d, qd);
    assert forall|k: int| p <= k < qp implies plain_char(s[k]) by {
        assert(s.subrange(p, qp)[k - p] == m.protocol[k - p]);
    }
    lemma_close_quote_finds(s, p, qp);
    assert forall|k: int| q <= k < qq implies plain_char(s[k]) by {
        assert(s.subrange(q, qq)[k - q] == m.alert[k - q]);
    }
    lemma_close_quote_finds(s, q, qq);

    assert forall|k: int| e <= k < f implies is_digit(s[k]) by {
        assert(s.subrange(e, f)[k - e] == d1[k - e]);
    }
    assert(!is_digit(s[f]));
    lemma_end_digits_finds(s, e, f);
    assert forall|k: int| g <= k < h implies is_digit(s[k]) by {
        assert(s.subrange(g, h)[k - g] == d2[k - g]);
    }
    assert(!is_digit(s[h]));
    lemma_end_digits_finds(s, g, h);

    lemma_dec_value_of(s, e, m.source_port as int);
    lemma_dec_value_of(s, g, m.dest_port as int);
    assert(digit_val(s[e]) == digit_val(d1[0]));
    assert(digit_val(s[g]) == digit_val(d2[0]));
    assert(valid_number(s, e, f));
    assert(valid_number(s, g, h));

    assert(spec_parse(s) == Some(m));
}

/// A canonical record line is already trimmed and contributes exactly its
/// record to the finalized array.
#[verifier::rlimit(100)]
proof fn lemma_encoded_line_entries(m: LogEntryView)
    requires
        m.wf(),
    ensures
        spec_line_entries(spec_encode(m)) == seq![m],
{
    reveal_strlit("{\"timestamp\":\"");
    reveal_strlit("\"}");
    let l = spec_encode(m);
    assert(l.len() >= lit_timestamp().len() + lit_end().len());
    assert(l[0] == lit_timestamp()[0]);
    assert(!is_space(l[0]));
    assert(l[l.len() - 1] == lit_end()[lit_end().len() - 1]) by {
        assert(l.subrange(l.len() - lit_end().len(), l.len() as int) =~= lit_end());
    }
    assert(!is_space(l[l.len() - 1]));
    assert(trim_start_idx(l, 0) == 0);
    assert(trim_end_idx(l, l.len() as int) == l.len());
    assert(spec_trim(l) =~= l);
    lemma_parse_encode_roundtrip(m);
}

/// When every line is the canonical text of a well-formed record, finalizing
/// keeps exactly those records, in order: one array item per line.
pub proof fn lemma_finalize_of_valid_records(lines: Seq<Seq<char>>, ms: Seq<LogEntryView>)
    requires
        lines.len() == ms.len(),
        forall|i: int|
            0 <= i < lines.len() ==> (#[trigger] ms[i]).wf() && lines[i] == spec_encode(ms[i]),
    ensures
        spec_entries(lines) == ms,
    decreases lines.len(),
{
    if lines.len() == 0 {
        assert(spec_entries(lines) =~= ms);
    } else {
        let l = lines[0];
        let m = ms[0];
        assert(l == spec_encode(m));
        lemma_encoded_line_entries(m);
        assert(spec_line_entries(l) == seq![m]);
        assert(forall|i: int|
            0 <= i < lines.drop_first().len() ==> #[trigger] lines.drop_first()[i] == lines[i + 1]
                && ms.drop_first()[i] == ms[i + 1]);
        lemma_finalize_of_valid_records(lines.drop_first(), ms.drop_first());
        assert(spec_entries(lines) =~= ms) by {
            assert(spec_entries(lines) == seq![m] + ms.drop_first());
            assert(forall|i: int| 1 <= i < ms.len() ==> (seq![m] + ms.drop_first())[i] == ms[i]);
        }
    }
}


/// A digit character is recovered from its value.
proof fn lemma_digit_char_inverse(c: char)
    requires
        is_digit(c),
    ensures
        digit_char(digit_val(c)) == c,
{
    lemma_digit_char(digit_val(c));
    vstd::utf8::char_u32_cast(c, c as u32);
    vstd::utf8::char_u32_cast(digit_char(digit_val(c)), c as u32);
}

/// A canonical digit run is exactly the rendering of its value.
proof fn lemma_dec_canonical(s: Seq<char>, i: int, j: int)
    requires
        0 <= i < j <= s.len(),
        forall|t: int| i <= t < j ==> is_digit(#[trigger] s[t]),
        digit_val(s[i]) != 0 || j == i + 1,
    ensures
        spec_dec(dec_value(s, i, j)) == s.subrange(i, j),
    decreases j - i,
{
    reveal_with_fuel(dec_value, 2);
    let v = dec_value(s, i, j);
    if j == i + 1 {
        reveal_with_fuel(dec_value, 3);
        lemma_digit_char_inverse(s[i]);
        assert(spec_dec(v) =~= s.subrange(i, j));
    } else {
        let prev = dec_value(s, i, j - 1);
        let d_last = digit_val(s[j - 1]);
        lemma_dec_value_lower(s, i, j - 1);
        lemma_pow10_pos(j - 1 - i - 1);
        assert(prev >= 1);
        assert(v == prev * 10 + d_last);
        assert(v >= 10) by (nonlinear_arith)
            requires
                v == prev * 10 + d_last,
                prev >= 1,
                d_last >= 0,
        ;
        assert(v / 10 == prev && v % 10 == d_last) by (nonlinear_arith)
            requires
                v == prev * 10 + d_last,
                0 <= d_last < 10,
        ;
        lemma_dec_canonical(s, i, j - 1);
        lemma_digit_char_inverse(s[j - 1]);
        assert(spec_dec(v) == spec_dec(prev).push(s[j - 1]));
        assert(s.subrange(i, j - 1).push(s[j - 1]) =~= s.subrange(i, j));
    }
}

/// Parsing accepts only canonical lines: a line that parses at all is
/// exactly the one-line JSON text of the well-formed record it yields.
#[verifier::rlimit(100)]
pub proof fn lemma_parse_sound(s: Seq<char>, m: LogEntryView)
    requires
        spec_parse(s) == Some(m),
    ensures
        m.wf(),
        s == spec_encode(m),
{
    let a = lit_timestamp().len() as int;
    assert(has_lit(s, 0, lit_timestamp()));
    let qa = close_quote(s, a)->0;
    lemma_close_quote_props(s, a);
    assert(has_lit(s, qa, lit_source_ip()));
    let c = qa + lit_source_ip().len();
    let qc = close_quote(s, c)->0;
    lemma_close_quote_props(s, c);
    assert(has_lit(s, qc, lit_dest_ip()));
    let d = qc + lit_dest_ip().len();
    let qd = close_quote(s, d)->0;
    lemma_close_quote_props(s, d);
    assert(has_lit(s, qd, lit_source_port()));
    let e = qd + lit_source_port().len();
    let f = end_digits(s, e);
    lemma_end_digits_props(s, e);
    assert(valid_number(s, e, f));
    assert(has_lit(s, f, lit_dest_port()));
    let g = f + lit_dest_port().len();
    let h = end_digits(s, g);
    lemma_end_digits_props(s, g);
    assert(valid_number(s, g, h));
    assert(has_lit(s, h, lit_protocol()));
    let p = h + lit_protocol().len();
    let qp = close_quote(s, p)->0;
    lemma_close_quote_props(s, p);
    assert(has_lit(s, qp, lit_alert()));
    let q = qp + lit_alert().len();
    let qq = close_quote(s, q)->0;
    lemma_close_quote_props(s, q);
    assert(has_lit(s, qq, lit_end()));
    assert(qq + lit_end().len() == s.len());

    assert(m.timestamp == s.subrange(a, qa));
    assert(m.source_ip == s.subrange(c, qc));
    assert(m.dest_ip == s.subrange(d, qd));
    assert(m.protocol == s.subrange(p, qp));
    assert(m.alert == s.subrange(q, qq));
    lemma_dec_value_bounds(s, e, f);
    lemma_dec_value_bounds(s, g, h);
    assert(m.source_port as int == dec_value(s, e, f));
    assert(m.dest_port as int == dec_value(s, g, h));

    assert(plain(m.timestamp)) by {
        assert(forall|t: int|
            0 <= t < m.timestamp.len() ==> #[trigger] m.timestamp[t] == s[a + t]);
    }
    assert(plain(m.source_ip)) by {
        assert(forall|t: int|
            0 <= t < m.source_ip.len() ==> #[trigger] m.source_ip[t] == s[c + t]);
    }
    assert(plain(m.dest_ip)) by {
        assert(forall|t: int| 0 <= t < m.dest_ip.len() ==> #[trigger] m.dest_ip[t] == s[d + t]);
    }
    assert(plain(m.protocol)) by {
        assert(forall|t: int| 0 <= t < m.protocol.len() ==> #[trigger] m.protocol[t] == s[p + t]);
    }
    assert(plain(m.alert)) by {
        assert(forall|t: int| 0 <= t < m.alert.len() ==> #[trigger] m.alert[t] == s[q + t]);
    }

    lemma_dec_canonical(s, e, f);
    lemma_dec_canonical(s, g, h);
    assert(spec_dec(m.source_port as int) == s.subrange(e, f));
    assert(spec_dec(m.dest_port as int) == s.subrange(g, h));

    assert(s.subrange(0, a) == lit_timestamp());
    assert(s.subrange(qa, c) =~= lit_source_ip()) by {
        assert(forall|t: int|
            0 <= t < lit_source_ip().len() ==> #[trigger] s.subrange(qa, c)[t] == s.subrange(
                qa,
                qa + lit_source_ip().len(),
            )[t]);
    }
    assert(s.subrange(qc, d) =~= lit_dest_ip()) by {
        assert(forall|t: int|
            0 <= t < lit_dest_ip().len() ==> #[trigger] s.subrange(qc, d)[t] == s.subrange(
                qc,
                qc + lit_dest_ip().len(),
            )[t]);
    }
    assert(s.subrange(qd, e) =~= lit_source_port()) by {
        assert(forall|t: int|
            0 <= t < lit_source_port().len() ==> #[trigger] s.subrange(qd, e)[t] == s.subrange(
                qd,
                qd + lit_source_port().len(),
            )[t]);
    }
    assert(s.subrange(f, g) =~= lit_dest_port()) by {
        assert(forall|t: int|
            0 <= t < lit_dest_port().len() ==> #[trigger] s.subrange(f, g)[t] == s.subrange(
                f,
                f + lit_dest_port().len(),
            )[t]);
    }
    assert(s.subrange(h, p) =~= lit_protocol()) by {
        assert(forall|t: int|
            0 <= t < lit_protocol().len() ==> #[trigger] s.subrange(h, p)[t] == s.subrange(
                h,
                h + lit_protocol().len(),
            )[t]);
    }
    assert(s.subrange(qp, q) =~= lit_alert()) by {
        assert(forall|t: int|
            0 <= t < lit_alert().len() ==> #[trigger] s.subrange(qp, q)[t] == s.subrange(
                qp,
                qp + lit_alert().len(),
            )[t]);
    }
    assert(s.subrange(qq, s.len() as int) =~= lit_end()) by {
        assert(forall|t: int|
            0 <= t < lit_end().len() ==> #[trigger] s.subrange(qq, s.len() as int)[t]
                == s.subrange(qq, qq + lit_end().len())[t]);
    }

    assert(s =~= spec_encode(m));
}

} // verus!\n