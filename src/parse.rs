use vstd::prelude::*;
use crate::record::{Record, Timestamp};
use crate::text::{
    chars_of, cut, find, find_from, join, lemma_cut_step, lemma_find_first, lemma_find_from, lemma_join_from_cuts,
    lemma_join_piece, lemma_not_at, occurs_at,
};
use vstd::string::StrSliceExecFns;

verus! {

/// What follows the client address: `" - - ["`.
pub open spec fn after_client() -> Seq<char> {
    seq![' ', '-', ' ', '-', ' ', '[']
}

/// What closes the timestamp and opens the request: `"] \""`.
pub open spec fn after_timestamp() -> Seq<char> {
    seq![']', ' ', '"']
}

/// What separates the path from the protocol version: `" HTTP/"`.
pub open spec fn before_version() -> Seq<char> {
    seq![' ', 'H', 'T', 'T', 'P', '/']
}

/// What closes the request: `"\" "`.
pub open spec fn after_request() -> Seq<char> {
    seq!['"', ' ']
}

/// What follows the byte count and opens the referrer: `" \""`.
pub open spec fn after_bytes() -> Seq<char> {
    seq![' ', '"']
}

/// What separates the referrer from the user agent: `"\" \""`.
pub open spec fn after_referrer() -> Seq<char> {
    seq!['"', ' ', '"']
}

pub open spec fn is_digit(c: char) -> bool {
    '0' <= c <= '9'
}

pub open spec fn all_digits(s: Seq<char>) -> bool {
    forall|i: int| 0 <= i < s.len() ==> is_digit(#[trigger] s[i])
}

pub open spec fn is_hex_or_colon(c: char) -> bool {
    is_digit(c) || ('a' <= c <= 'f') || c == ':'
}

/// Reads `s` from position `i` on as the rest of a dotted quad, having seen
/// `dots` dots and, since the last of them, `run` digits.
pub open spec fn quad_from(s: Seq<char>, i: int, dots: int, run: int) -> bool
    decreases s.len() - i,
{
    if i < 0 || i >= s.len() {
        dots == 3 && 1 <= run <= 3
    } else if s[i] == '.' {
        1 <= run <= 3 && dots < 3 && quad_from(s, i + 1, dots + 1, 0)
    } else if is_digit(s[i]) {
        run < 3 && quad_from(s, i + 1, dots, run + 1)
    } else {
        false
    }
}

/// Four groups of one to three digits, separated by dots.
pub open spec fn is_dotted_quad(s: Seq<char>) -> bool {
    quad_from(s, 0, 0, 0)
}

/// A client address: an IPv6-like run of lowercase hex digits and colons, or
/// an IPv4 dotted quad.
pub open spec fn is_client(s: Seq<char>) -> bool {
    (s.len() > 0 && forall|i: int| 0 <= i < s.len() ==> is_hex_or_colon(#[trigger] s[i]))
        || is_dotted_quad(s)
}

pub open spec fn is_method(s: Seq<char>) -> bool {
    s.len() > 0 && forall|i: int| 0 <= i < s.len() ==> 'A' <= #[trigger] s[i] <= 'Z'
}

/// The fields of a log line, as text.
pub struct LineView {
    pub client: Seq<char>,
    pub timestamp: Seq<char>,
    pub method: Seq<char>,
    pub path: Seq<char>,
    pub version: Seq<char>,
    pub status: Seq<char>,
    pub bytes: Seq<char>,
    pub referrer: Seq<char>,
    pub user_agent: Seq<char>,
}

/// The eighteen pieces of a log line: its fields and the text between them.
pub open spec fn line_pieces(f: LineView) -> Seq<Seq<char>> {
    seq![
        f.client, after_client(), f.timestamp, after_timestamp(), f.method, seq![' '], f.path,
        before_version(), f.version, after_request(), f.status, seq![' '], f.bytes, after_bytes(),
        f.referrer, after_referrer(), f.user_agent, seq!['"'],
    ]
}

/// The line that the fields make:
/// `<client> - - [<timestamp>] "<method> <path> HTTP/<version>" <status> <bytes> "<referrer>" "<user agent>"`.
pub open spec fn render(f: LineView) -> Seq<char> {
    join(line_pieces(f))
}

/// The fields of `s` read by the access-log grammar, or `None` where `s`
/// does not follow it. Each delimiter is taken at its first occurrence after
/// the previous field; the client must be an address, the method capital
/// letters, the status three digits and the byte count one or more digits, and
/// the line must end with the quote that closes the user agent.
pub open spec fn split_line(s: Seq<char>) -> Option<LineView> {
    let c_end = find_from(s, after_client(), 0);
    let t_start = c_end + 6;
    let t_end = find_from(s, after_timestamp(), t_start);
    let m_start = t_end + 3;
    let m_end = find_from(s, seq![' '], m_start);
    let p_start = m_end + 1;
    let p_end = find_from(s, before_version(), p_start);
    let v_start = p_end + 6;
    let v_end = find_from(s, after_request(), v_start);
    let s_start = v_end + 2;
    let b_start = s_start + 4;
    let b_end = find_from(s, after_bytes(), b_start);
    let r_start = b_end + 2;
    let r_end = find_from(s, after_referrer(), r_start);
    let a_start = r_end + 3;
    if c_end < 0 || t_end < 0 || m_end < 0 || p_end < 0 || v_end < 0 || b_start > s.len()
        || b_end < 0 || r_end < 0 || a_start >= s.len() || s[s.len() - 1] != '"'
        || s[s_start + 3] != ' ' {
        None
    } else {
        let f = LineView {
            client: s.subrange(0, c_end),
            timestamp: s.subrange(t_start, t_end),
            method: s.subrange(m_start, m_end),
            path: s.subrange(p_start, p_end),
            version: s.subrange(v_start, v_end),
            status: s.subrange(s_start, s_start + 3),
            bytes: s.subrange(b_start, b_end),
            referrer: s.subrange(r_start, r_end),
            user_agent: s.subrange(a_start, s.len() - 1),
        };
        if is_client(f.client) && is_method(f.method) && all_digits(f.status) && f.bytes.len() > 0
            && all_digits(f.bytes) {
            Some(f)
        } else {
            None
        }
    }
}

/// The value of a run of decimal digits.
pub open spec fn digits_value(s: Seq<char>) -> int
    decreases s.len(),
{
    if s.len() == 0 {
        0
    } else {
        digits_value(s.drop_last()) * 10 + (s.last() as u32 as int - '0' as u32 as int)
    }
}

/// The fields of a log line, as text.
pub struct LineFields {
    pub client: String,
    pub timestamp: String,
    pub method: String,
    pub path: String,
    pub version: String,
    pub status: String,
    pub bytes: String,
    pub referrer: String,
    pub user_agent: String,
}

impl View for LineFields {
    type V = LineView;

    open spec fn view(&self) -> LineView {
        LineView {
            client: self.client@,
            timestamp: self.timestamp@,
            method: self.method@,
            path: self.path@,
            version: self.version@,
            status: self.status@,
            bytes: self.bytes@,
            referrer: self.referrer@,
            user_agent: self.user_agent@,
        }
    }
}

fn slice_chars(s: &Vec<char>, a: usize, b: usize) -> (r: Vec<char>)
    requires
        a <= b <= s@.len(),
    ensures
        r@ == s@.subrange(a as int, b as int),
{
    let mut r: Vec<char> = Vec::new();
    let mut i: usize = a;
    while i < b
        invariant
            a <= i <= b,
            b <= s@.len(),
            r@ == s@.subrange(a as int, i as int),
        decreases b - i,
    {
        r.push(s[i]);
        assert(s@.subrange(a as int, i + 1) =~= s@.subrange(a as int, i as int).push(s@[i as int]));
        i += 1;
    }
    r
}

fn all_digits_exec(s: &Vec<char>) -> (r: bool)
    ensures
        r == all_digits(s@),
{
    let mut i: usize = 0;
    while i < s.len()
        invariant
            i <= s@.len(),
            forall|t: int| 0 <= t < i ==> is_digit(s@[t]),
        decreases s@.len() - i,
    {
        if !('0' <= s[i] && s[i] <= '9') {
            return false;
        }
        i += 1;
    }
    true
}

fn is_method_exec(s: &Vec<char>) -> (r: bool)
    ensures
        r == is_method(s@),
{
    if s.len() == 0 {
        return false;
    }
    let mut i: usize = 0;
    while i < s.len()
        invariant
            i <= s@.len(),
            forall|t: int| 0 <= t < i ==> 'A' <= #[trigger] s@[t] <= 'Z',
        decreases s@.len() - i,
    {
        if !('A' <= s[i] && s[i] <= 'Z') {
            return false;
        }
        i += 1;
    }
    true
}

fn is_hex_run(s: &Vec<char>) -> (r: bool)
    ensures
        r == (s@.len() > 0 && forall|t: int| 0 <= t < s@.len() ==> is_hex_or_colon(#[trigger] s@[t])),
{
    if s.len() == 0 {
        return false;
    }
    let mut i: usize = 0;
    while i < s.len()
        invariant
            i <= s@.len(),
            forall|t: int| 0 <= t < i ==> is_hex_or_colon(#[trigger] s@[t]),
        decreases s@.len() - i,
    {
        let c = s[i];
        if !(('0' <= c && c <= '9') || ('a' <= c && c <= 'f') || c == ':') {
            assert(!is_hex_or_colon(s@[i as int]));
            return false;
        }
        i += 1;
    }
    true
}

fn is_dotted_quad_exec(s: &Vec<char>) -> (r: bool)
    ensures
        r == is_dotted_quad(s@),
{
    let mut dots: usize = 0;
    let mut run: usize = 0;
    let mut j: usize = 0;
    while j < s.len()
        invariant
            j <= s@.len(),
            dots <= 3,
            run <= 3,
            is_dotted_quad(s@) == quad_from(s@, j as int, dots as int, run as int),
        decreases s@.len() - j,
    {
        let c = s[j];
        if c == '.' {
            if !(1 <= run && run <= 3 && dots < 3) {
                return false;
            }
            dots += 1;
            run = 0;
        } else if '0' <= c && c <= '9' {
            if run >= 3 {
                return false;
            }
            run += 1;
        } else {
            return false;
        }
        j += 1;
    }
    dots == 3 && 1 <= run && run <= 3
}

fn is_client_exec(s: &Vec<char>) -> (r: bool)
    ensures
        r == is_client(s@),
{
    is_hex_run(s) || is_dotted_quad_exec(s)
}

fn string_of(s: &Vec<char>, line: &str, a: usize, b: usize) -> (r: String)
    requires
        s@ == line@,
        a <= b <= s@.len(),
    ensures
        r@ == s@.subrange(a as int, b as int),
{
    line.substring_char(a, b).to_owned()
}

/// Splits a line into its fields by the access-log grammar.
pub fn split_fields(line: &str) -> (r: Option<LineFields>)
    ensures
        match r {
            Some(f) => split_line(line@) == Some(f@),
            None => split_line(line@) is None,
        },
{
    let s = chars_of(line);
    let n = s.len();
    let p_client: Vec<char> = vec![' ', '-', ' ', '-', ' ', '['];
    assert(p_client@ =~= after_client());
    let p_ts: Vec<char> = vec![']', ' ', '"'];
    assert(p_ts@ =~= after_timestamp());
    let p_space: Vec<char> = vec![' '];
    assert(p_space@ =~= seq![' ']);
    let p_http: Vec<char> = vec![' ', 'H', 'T', 'T', 'P', '/'];
    assert(p_http@ =~= before_version());
    let p_req: Vec<char> = vec!['"', ' '];
    assert(p_req@ =~= after_request());
    let p_bytes: Vec<char> = vec![' ', '"'];
    assert(p_bytes@ =~= after_bytes());
    let p_ref: Vec<char> = vec!['"', ' ', '"'];
    assert(p_ref@ =~= after_referrer());
    let c_end = match find(&s, &p_client, 0) {
        Some(p) => p,
        None => return None,
    };
    let t_start = c_end + 6;
    let t_end = match find(&s, &p_ts, t_start) {
        Some(p) => p,
        None => return None,
    };
    let m_start = t_end + 3;
    let m_end = match find(&s, &p_space, m_start) {
        Some(p) => p,
        None => return None,
    };
    let p_start = m_end + 1;
    let p_end = match find(&s, &p_http, p_start) {
        Some(p) => p,
        None => return None,
    };
    let v_start = p_end + 6;
    let v_end = match find(&s, &p_req, v_start) {
        Some(p) => p,
        None => return None,
    };
    let s_start = v_end + 2;
    if s_start > s.len() || s.len() - s_start < 4 {
        return None;
    }
    let b_start = s_start + 4;
    let b_end = match find(&s, &p_bytes, b_start) {
        Some(p) => p,
        None => return None,
    };
    let r_start = b_end + 2;
    let r_end = match find(&s, &p_ref, r_start) {
        Some(p) => p,
        None => return None,
    };
    let a_start = r_end + 3;
    if a_start >= s.len() || s[s.len() - 1] != '"' || s[s_start + 3] != ' ' {
        return None;
    }
    let client = slice_chars(&s, 0, c_end);
    let method = slice_chars(&s, m_start, m_end);
    let status = slice_chars(&s, s_start, s_start + 3);
    let bytes = slice_chars(&s, b_start, b_end);
    if !(is_client_exec(&client) && is_method_exec(&method) && all_digits_exec(&status) && bytes.len() > 0
        && all_digits_exec(&bytes)) {
        return None;
    }
    let f = LineFields {
        client: string_of(&s, line, 0, c_end),
        timestamp: string_of(&s, line, t_start, t_end),
        method: string_of(&s, line, m_start, m_end),
        path: string_of(&s, line, p_start, p_end),
        version: string_of(&s, line, v_start, v_end),
        status: string_of(&s, line, s_start, s_start + 3),
        bytes: string_of(&s, line, b_start, b_end),
        referrer: string_of(&s, line, r_start, r_end),
        user_agent: string_of(&s, line, a_start, s.len() - 1),
    };
    Some(f)
}

/// What chrono reads from a timestamp written `day/Mon/Year:HH:MM:SS ±HHMM`:
/// the instant in seconds since the Unix epoch and the UTC offset in seconds,
/// or `None` where the text is no such timestamp.
pub uninterp spec fn timestamp_of(text: Seq<char>) -> Option<(i64, i32)>;

/// Relies on chrono's `DateTime::parse_from_str` with the format
/// `%d/%b/%Y:%H:%M:%S %z`, and on `timestamp()` and
/// `offset().local_minus_utc()` of the value it returns.
#[verifier::external_body]
fn parse_timestamp(text: &str) -> (r: Option<Timestamp>)
    ensures
        match r {
            Some(t) => timestamp_of(text@) == Some((t.utc_seconds, t.offset_seconds)),
            None => timestamp_of(text@) is None,
        },
{
    match chrono::DateTime::parse_from_str(text, "%d/%b/%Y:%H:%M:%S %z") {
        Ok(dt) => Some(Timestamp { utc_seconds: dt.timestamp(), offset_seconds: dt.offset().local_minus_utc() }),
        Err(_) => None,
    }
}

/// `r` is the record made of the fields `f` and the instant `ts`.
pub open spec fn record_of(r: Record, f: LineView, ts: Timestamp) -> bool {
    &&& r.ip@ == f.client
    &&& r.timestamp == ts
    &&& r.path@ == f.path
    &&& r.status as int == digits_value(f.status)
    &&& r.referrer@ == f.referrer
    &&& r.user_agent@ == f.user_agent
}

/// The record that a line yields: `None` where it does not follow the grammar
/// or its timestamp cannot be read.
pub open spec fn line_yields(line: Seq<char>, r: Option<Record>) -> bool {
    match split_line(line) {
        None => r is None,
        Some(f) => match timestamp_of(f.timestamp) {
            None => r is None,
            Some(t) => r is Some && record_of(
                r->0,
                f,
                Timestamp { utc_seconds: t.0, offset_seconds: t.1 },
            ),
        },
    }
}

/// The value of a three-digit status code.
fn status_value(s: &Vec<char>) -> (v: i32)
    requires
        s@.len() == 3,
        all_digits(s@),
    ensures
        v as int == digits_value(s@),
{
    let a = (s[0] as u32 - '0' as u32) as i32;
    let b = (s[1] as u32 - '0' as u32) as i32;
    let c = (s[2] as u32 - '0' as u32) as i32;
    proof {
        let t = s@;
        assert(is_digit(t[0]) && is_digit(t[1]) && is_digit(t[2]));
        let t2 = t.drop_last();
        let t1 = t2.drop_last();
        let t0 = t1.drop_last();
        assert(t0 =~= Seq::<char>::empty());
        assert(t1.last() == t[0]);
        assert(t2.last() == t[1]);
        assert(digits_value(t0) == 0);
        assert(digits_value(t1) == t[0] as u32 as int - '0' as u32 as int);
        assert(digits_value(t2) == digits_value(t1) * 10 + (t[1] as u32 as int - '0' as u32 as int));
        assert(digits_value(t) == digits_value(t2) * 10 + (t[2] as u32 as int - '0' as u32 as int));
    }
    a * 100 + b * 10 + c
}

/// The record made of the fields of a line and the instant read from its
/// timestamp.
pub fn build_record(fields: &LineFields, timestamp: Timestamp) -> (r: Record)
    requires
        fields.status@.len() == 3,
        all_digits(fields.status@),
    ensures
        record_of(r, fields@, timestamp),
{
    let status = status_value(&chars_of(fields.status.as_str()));
    Record {
        ip: fields.client.clone(),
        timestamp,
        path: fields.path.clone(),
        status,
        referrer: fields.referrer.clone(),
        user_agent: fields.user_agent.clone(),
    }
}

/// Reads one log line into a record.
pub fn parse_line(line: &str) -> (r: Option<Record>)
    ensures
        line_yields(line@, r),
{
    let fields = match split_fields(line) {
        Some(f) => f,
        None => return None,
    };
    let timestamp = match parse_timestamp(fields.timestamp.as_str()) {
        Some(t) => t,
        None => return None,
    };
    Some(build_record(&fields, timestamp))
}

/// Parsing loses nothing: where a line follows the grammar, putting its
/// fields back together gives the line itself, so each field (client,
/// timestamp, path, status, referrer, user agent) is the text the line held
/// in its place.
pub proof fn lemma_split_render(s: Seq<char>)
    requires
        split_line(s) is Some,
    ensures
        render(split_line(s)->0) == s,
{
    let f = split_line(s)->0;
    let c_end = find_from(s, after_client(), 0);
    let t_start = c_end + 6;
    let t_end = find_from(s, after_timestamp(), t_start);
    let m_start = t_end + 3;
    let m_end = find_from(s, seq![' '], m_start);
    let p_start = m_end + 1;
    let p_end = find_from(s, before_version(), p_start);
    let v_start = p_end + 6;
    let v_end = find_from(s, after_request(), v_start);
    let s_start = v_end + 2;
    let b_start = s_start + 4;
    let b_end = find_from(s, after_bytes(), b_start);
    let r_start = b_end + 2;
    let r_end = find_from(s, after_referrer(), r_start);
    let a_start = r_end + 3;
    lemma_find_from(s, after_client(), 0);
    lemma_find_from(s, after_timestamp(), t_start);
    lemma_find_from(s, seq![' '], m_start);
    lemma_find_from(s, before_version(), p_start);
    lemma_find_from(s, after_request(), v_start);
    lemma_find_from(s, after_bytes(), b_start);
    lemma_find_from(s, after_referrer(), r_start);
    let n = s.len() as int;
    let ps = line_pieces(f);
    assert(ps.subrange(0, 0) =~= Seq::<Seq<char>>::empty());
    assert(cut(ps, 0) == 0);
    assert(s.subrange(s_start + 3, b_start) =~= seq![' ']);
    assert(s.subrange(n - 1, n) =~= seq!['"']);
    lemma_cut_step(ps, 0);
    assert(cut(ps, 1) == c_end);
    assert(s.subrange(0, c_end) == ps[0]);
    lemma_cut_step(ps, 1);
    assert(cut(ps, 2) == t_start);
    assert(s.subrange(c_end, t_start) == ps[1]);
    lemma_cut_step(ps, 2);
    assert(cut(ps, 3) == t_end);
    assert(s.subrange(t_start, t_end) == ps[2]);
    lemma_cut_step(ps, 3);
    assert(cut(ps, 4) == m_start);
    assert(s.subrange(t_end, m_start) == ps[3]);
    lemma_cut_step(ps, 4);
    assert(cut(ps, 5) == m_end);
    assert(s.subrange(m_start, m_end) == ps[4]);
    lemma_cut_step(ps, 5);
    assert(cut(ps, 6) == p_start);
    assert(s.subrange(m_end, p_start) == ps[5]);
    lemma_cut_step(ps, 6);
    assert(cut(ps, 7) == p_end);
    assert(s.subrange(p_start, p_end) == ps[6]);
    lemma_cut_step(ps, 7);
    assert(cut(ps, 8) == v_start);
    assert(s.subrange(p_end, v_start) == ps[7]);
    lemma_cut_step(ps, 8);
    assert(cut(ps, 9) == v_end);
    assert(s.subrange(v_start, v_end) == ps[8]);
    lemma_cut_step(ps, 9);
    assert(cut(ps, 10) == s_start);
    assert(s.subrange(v_end, s_start) == ps[9]);
    lemma_cut_step(ps, 10);
    assert(cut(ps, 11) == s_start + 3);
    assert(s.subrange(s_start, s_start + 3) == ps[10]);
    lemma_cut_step(ps, 11);
    assert(cut(ps, 12) == b_start);
    assert(s.subrange(s_start + 3, b_start) == ps[11]);
    lemma_cut_step(ps, 12);
    assert(cut(ps, 13) == b_end);
    assert(s.subrange(b_start, b_end) == ps[12]);
    lemma_cut_step(ps, 13);
    assert(cut(ps, 14) == r_start);
    assert(s.subrange(b_end, r_start) == ps[13]);
    lemma_cut_step(ps, 14);
    assert(cut(ps, 15) == r_end);
    assert(s.subrange(r_start, r_end) == ps[14]);
    lemma_cut_step(ps, 15);
    assert(cut(ps, 16) == a_start);
    assert(s.subrange(r_end, a_start) == ps[15]);
    lemma_cut_step(ps, 16);
    assert(cut(ps, 17) == n - 1);
    assert(s.subrange(a_start, n - 1) == ps[16]);
    lemma_cut_step(ps, 17);
    assert(cut(ps, 18) == n);
    assert(s.subrange(n - 1, n) == ps[17]);
    assert forall|i: int| 0 <= i < ps.len() implies s.subrange(cut(ps, i), #[trigger] cut(ps, i + 1)) == ps[i] by {
        if i == 0 {
        } else if i == 1 {
        } else if i == 2 {
        } else if i == 3 {
        } else if i == 4 {
        } else if i == 5 {
        } else if i == 6 {
        } else if i == 7 {
        } else if i == 8 {
        } else if i == 9 {
        } else if i == 10 {
        } else if i == 11 {
        } else if i == 12 {
        } else if i == 13 {
        } else if i == 14 {
        } else if i == 15 {
        } else if i == 16 {
        } else if i == 17 {
        }
    }
    lemma_join_from_cuts(ps, s);
}

/// Fields that a line can hold: a client address, a timestamp without `]`,
/// a method of capital letters, a path in which ` HTTP/` does not occur, a
/// version and a referrer without `"`, a three-digit status and a byte count
/// of one or more digits.
pub open spec fn fields_well_formed(f: LineView) -> bool {
    &&& is_client(f.client)
    &&& forall|i: int| 0 <= i < f.timestamp.len() ==> #[trigger] f.timestamp[i] != ']'
    &&& is_method(f.method)
    &&& forall|i: int| !#[trigger] occurs_at(f.path, before_version(), i)
    &&& forall|i: int| 0 <= i < f.version.len() ==> #[trigger] f.version[i] != '"'
    &&& f.status.len() == 3
    &&& all_digits(f.status)
    &&& f.bytes.len() > 0
    &&& all_digits(f.bytes)
    &&& forall|i: int| 0 <= i < f.referrer.len() ==> #[trigger] f.referrer[i] != '"'
}

proof fn lemma_quad_no_space(s: Seq<char>, i: int, dots: int, run: int)
    requires
        0 <= i,
        quad_from(s, i, dots, run),
    ensures
        forall|j: int| i <= j < s.len() ==> #[trigger] s[j] != ' ',
    decreases s.len() - i,
{
    if i < s.len() {
        if s[i] == '.' {
            lemma_quad_no_space(s, i + 1, dots + 1, 0);
        } else {
            lemma_quad_no_space(s, i + 1, dots, run + 1);
        }
    }
}

/// Fields put together into a line are read back unchanged: the client
/// address, timestamp, path, status, referrer and user agent that the
/// grammar finds in the rendered line are the ones it was made of.
pub proof fn lemma_render_split(f: LineView)
    requires
        fields_well_formed(f),
    ensures
        split_line(render(f)) == Some(f),
{
    let s = render(f);
    let ps = line_pieces(f);
    let n = s.len() as int;
    if !(f.client.len() > 0 && forall|i: int| 0 <= i < f.client.len() ==> is_hex_or_colon(#[trigger] f.client[i])) {
        lemma_quad_no_space(f.client, 0, 0, 0);
    }
    assert(forall|i: int| 0 <= i < f.client.len() ==> #[trigger] f.client[i] != ' ');
    assert(ps.subrange(0, 0) =~= Seq::<Seq<char>>::empty());
    assert(cut(ps, 0) == 0);
    let c1: int = 0 + f.client.len() as int;
    let c2: int = c1 + 6 as int;
    let c3: int = c2 + f.timestamp.len() as int;
    let c4: int = c3 + 3 as int;
    let c5: int = c4 + f.method.len() as int;
    let c6: int = c5 + 1 as int;
    let c7: int = c6 + f.path.len() as int;
    let c8: int = c7 + 6 as int;
    let c9: int = c8 + f.version.len() as int;
    let c10: int = c9 + 2 as int;
    let c11: int = c10 + 3 as int;
    let c12: int = c11 + 1 as int;
    let c13: int = c12 + f.bytes.len() as int;
    let c14: int = c13 + 2 as int;
    let c15: int = c14 + f.referrer.len() as int;
    let c16: int = c15 + 3 as int;
    let c17: int = c16 + f.user_agent.len() as int;
    lemma_cut_step(ps, 0);
    lemma_join_piece(ps, 0);
    assert(cut(ps, 1) == c1);
    assert(s.subrange(0, c1) == f.client);
    lemma_cut_step(ps, 1);
    lemma_join_piece(ps, 1);
    assert(cut(ps, 2) == c2);
    assert(s.subrange(c1, c2) == after_client());
    lemma_cut_step(ps, 2);
    lemma_join_piece(ps, 2);
    assert(cut(ps, 3) == c3);
    assert(s.subrange(c2, c3) == f.timestamp);
    lemma_cut_step(ps, 3);
    lemma_join_piece(ps, 3);
    assert(cut(ps, 4) == c4);
    assert(s.subrange(c3, c4) == after_timestamp());
    lemma_cut_step(ps, 4);
    lemma_join_piece(ps, 4);
    assert(cut(ps, 5) == c5);
    assert(s.subrange(c4, c5) == f.method);
    lemma_cut_step(ps, 5);
    lemma_join_piece(ps, 5);
    assert(cut(ps, 6) == c6);
    assert(s.subrange(c5, c6) == seq![' ']);
    lemma_cut_step(ps, 6);
    lemma_join_piece(ps, 6);
    assert(cut(ps, 7) == c7);
    assert(s.subrange(c6, c7) == f.path);
    lemma_cut_step(ps, 7);
    lemma_join_piece(ps, 7);
    assert(cut(ps, 8) == c8);
    assert(s.subrange(c7, c8) == before_version());
    lemma_cut_step(ps, 8);
    lemma_join_piece(ps, 8);
    assert(cut(ps, 9) == c9);
    assert(s.subrange(c8, c9) == f.version);
    lemma_cut_step(ps, 9);
    lemma_join_piece(ps, 9);
    assert(cut(ps, 10) == c10);
    assert(s.subrange(c9, c10) == after_request());
    lemma_cut_step(ps, 10);
    lemma_join_piece(ps, 10);
    assert(cut(ps, 11) == c11);
    assert(s.subrange(c10, c11) == f.status);
    lemma_cut_step(ps, 11);
    lemma_join_piece(ps, 11);
    assert(cut(ps, 12) == c12);
    assert(s.subrange(c11, c12) == seq![' ']);
    lemma_cut_step(ps, 12);
    lemma_join_piece(ps, 12);
    assert(cut(ps, 13) == c13);
    assert(s.subrange(c12, c13) == f.bytes);
    lemma_cut_step(ps, 13);
    lemma_join_piece(ps, 13);
    assert(cut(ps, 14) == c14);
    assert(s.subrange(c13, c14) == after_bytes());
    lemma_cut_step(ps, 14);
    lemma_join_piece(ps, 14);
    assert(cut(ps, 15) == c15);
    assert(s.subrange(c14, c15) == f.referrer);
    lemma_cut_step(ps, 15);
    lemma_join_piece(ps, 15);
    assert(cut(ps, 16) == c16);
    assert(s.subrange(c15, c16) == after_referrer());
    lemma_cut_step(ps, 16);
    lemma_join_piece(ps, 16);
    assert(cut(ps, 17) == c17);
    assert(s.subrange(c16, c17) == f.user_agent);
    lemma_cut_step(ps, 17);
    lemma_join_piece(ps, 17);
    assert(cut(ps, 18) == n);
    assert(s.subrange(c17, n) == seq!['"']);
    assert(s.subrange(0, c1) =~= f.client);
    assert forall|i: int| 0 <= i < c1 implies !#[trigger] occurs_at(s, after_client(), i) by {
        assert(s.subrange(0, c1)[i - 0] == s[i]);
        lemma_not_at(s, after_client(), i);
    }
    lemma_find_first(s, after_client(), 0, c1);
    assert forall|i: int| c2 <= i < c3 implies !#[trigger] occurs_at(s, after_timestamp(), i) by {
        assert(s.subrange(c2, c3)[i - c2] == s[i]);
        lemma_not_at(s, after_timestamp(), i);
    }
    lemma_find_first(s, after_timestamp(), c2, c3);
    assert forall|i: int| c4 <= i < c5 implies !#[trigger] occurs_at(s, seq![' '], i) by {
        assert(s.subrange(c4, c5)[i - c4] == s[i]);
        lemma_not_at(s, seq![' '], i);
    }
    lemma_find_first(s, seq![' '], c4, c5);
    assert forall|i: int| c6 <= i < c7 implies !#[trigger] occurs_at(s, before_version(), i) by {
        if i + 6 <= c7 {
            if occurs_at(s, before_version(), i) {
                assert(s.subrange(i, i + 6) =~= f.path.subrange(i - c6, i - c6 + 6));
                assert(occurs_at(f.path, before_version(), i - c6));
            }
        } else {
            assert(s.subrange(c7, c8)[0] == s[c7]);
            assert(s[c7] == ' ');
            if occurs_at(s, before_version(), i) {
                assert(s.subrange(i, i + 6)[c7 - i] == s[c7]);
            }
        }
    }
    lemma_find_first(s, before_version(), c6, c7);
    assert forall|i: int| c8 <= i < c9 implies !#[trigger] occurs_at(s, after_request(), i) by {
        assert(s.subrange(c8, c9)[i - c8] == s[i]);
        lemma_not_at(s, after_request(), i);
    }
    lemma_find_first(s, after_request(), c8, c9);
    assert forall|i: int| c12 <= i < c13 implies !#[trigger] occurs_at(s, after_bytes(), i) by {
        assert(s.subrange(c12, c13)[i - c12] == s[i]);
        lemma_not_at(s, after_bytes(), i);
    }
    lemma_find_first(s, after_bytes(), c12, c13);
    assert forall|i: int| c14 <= i < c15 implies !#[trigger] occurs_at(s, after_referrer(), i) by {
        assert(s.subrange(c14, c15)[i - c14] == s[i]);
        lemma_not_at(s, after_referrer(), i);
    }
    lemma_find_first(s, after_referrer(), c14, c15);
    assert(s[c10 + 3] == ' ') by {
        assert(s.subrange(c11, c12)[0] == s[c11]);
    }
    assert(s[n - 1] == '"') by {
        assert(s.subrange(c17, n)[0] == s[c17]);
    }
    let g = split_line(s)->0;
    assert(split_line(s) is Some);
    assert(g == f);
}

} // verus!
