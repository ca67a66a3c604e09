//! The wire protocol: one newline-terminated ASCII line per request.
//!
//! A line is one of the verbs `STOP`, `HEALTH_CHECK`, `GET_STATS`,
//! `COMMAND_BEGIN <pid> <command...>` or `COMMAND_END <pid> <exit_code>`.
//! Parsing and serialization are exact inverses for every representable
//! request whose command text does not end in whitespace.

use vstd::prelude::*;
use vstd::string::*;

use crate::digits::{
    all_digits, dec_rep, dec_val, lemma_dec_rep_digits, lemma_dec_val_of_rep, parse_u64,
};
use crate::text::{
    find_space, first_space, is_space, lemma_first_space_at, push_char, spec_trim, str_eq, trim,
    trim_back, trim_front,
};

verus! {

/// One parsed request of the daemon's wire protocol.
#[derive(Debug)]
pub enum Request {
    Stop,
    HealthCheck,
    CommandBegin { pid: u32, command: String },
    CommandEnd { pid: u32, exit_code: i32 },
    GetStats,
}

/// The mathematical value of a request: the command text as a sequence of
/// characters.
pub enum RequestView {
    Stop,
    HealthCheck,
    CommandBegin { pid: u32, command: Seq<char> },
    CommandEnd { pid: u32, exit_code: i32 },
    GetStats,
}

impl View for Request {
    type V = RequestView;

    open spec fn view(&self) -> RequestView {
        match self {
            Request::Stop => RequestView::Stop,
            Request::HealthCheck => RequestView::HealthCheck,
            Request::CommandBegin { pid, command } => (RequestView::CommandBegin {
                pid: *pid,
                command: command@,
            }),
            Request::CommandEnd { pid, exit_code } => (RequestView::CommandEnd {
                pid: *pid,
                exit_code: *exit_code,
            }),
            Request::GetStats => RequestView::GetStats,
        }
    }
}

impl PartialEq for Request {
    fn eq(&self, other: &Request) -> (r: bool) {
        match (self, other) {
            (Request::Stop, Request::Stop) => true,
            (Request::HealthCheck, Request::HealthCheck) => true,
            (
                Request::CommandBegin { pid: p1, command: c1 },
                Request::CommandBegin { pid: p2, command: c2 },
            ) => *p1 == *p2 && str_eq(c1.as_str(), c2.as_str()),
            (
                Request::CommandEnd { pid: p1, exit_code: e1 },
                Request::CommandEnd { pid: p2, exit_code: e2 },
            ) => *p1 == *p2 && *e1 == *e2,
            (Request::GetStats, Request::GetStats) => true,
            _ => false,
        }
    }
}

impl vstd::std_specs::cmp::PartialEqSpecImpl for Request {
    open spec fn obeys_eq_spec() -> bool {
        true
    }

    open spec fn eq_spec(&self, other: &Request) -> bool {
        self@ == other@
    }
}

/// The one failure of parsing: the line fits no request form.
#[derive(Debug, PartialEq, Eq, Structural, Clone, Copy)]
pub enum ParseError {
    MalformedRequest,
}

/// A nonempty all-digit token whose value fits a `u32`: the accepted form
/// of a process id.
pub open spec fn is_dec_u32(s: Seq<char>) -> bool {
    s.len() > 0 && all_digits(s) && dec_val(s) <= u32::MAX
}

/// The value of an exit-code token: an optional minus sign followed by
/// digits, within the range of an `i32`.
pub open spec fn spec_parse_i32(s: Seq<char>) -> Option<i32> {
    if s.len() > 0 && s[0] == '-' {
        let mag = s.skip(1);
        if mag.len() > 0 && all_digits(mag) && dec_val(mag) <= 0x8000_0000 {
            Some((0 - dec_val(mag)) as i32)
        } else {
            None
        }
    } else if s.len() > 0 && all_digits(s) && dec_val(s) <= 0x7fff_ffff {
        Some(dec_val(s) as i32)
    } else {
        None
    }
}

/// The body of a `COMMAND_BEGIN` line after the verb: a pid token, one
/// space, then the command text verbatim.
pub open spec fn spec_parse_begin_body(u: Seq<char>) -> Option<RequestView> {
    match first_space(u) {
        None => None,
        Some(i) => {
            let pid_tok = u.take(i);
            let rest = u.skip(i + 1);
            if is_dec_u32(pid_tok) {
                Some(RequestView::CommandBegin {
                    pid: dec_val(pid_tok) as u32,
                    command: rest,
                })
            } else {
                None
            }
        },
    }
}

/// The body of a `COMMAND_END` line after the verb: a pid token, one
/// space, then an exit-code token.
pub open spec fn spec_parse_end_body(u: Seq<char>) -> Option<RequestView> {
    match first_space(u) {
        None => None,
        Some(i) => {
            let pid_tok = u.take(i);
            let rest = u.skip(i + 1);
            if is_dec_u32(pid_tok) {
                match spec_parse_i32(rest) {
                    None => None,
                    Some(e) => Some(RequestView::CommandEnd {
                        pid: dec_val(pid_tok) as u32,
                        exit_code: e,
                    }),
                }
            } else {
                None
            }
        },
    }
}

/// What one line of input means: the request it parses to, or nothing.
pub open spec fn spec_parse(s: Seq<char>) -> Option<RequestView> {
    let t = spec_trim(s);
    if t == "STOP"@ {
        Some(RequestView::Stop)
    } else if t == "HEALTH_CHECK"@ {
        Some(RequestView::HealthCheck)
    } else if t == "GET_STATS"@ {
        Some(RequestView::GetStats)
    } else if t.len() >= 14 && t.take(14) == "COMMAND_BEGIN "@ {
        spec_parse_begin_body(t.skip(14))
    } else if t.len() >= 12 && t.take(12) == "COMMAND_END "@ {
        spec_parse_end_body(t.skip(12))
    } else {
        None
    }
}

/// The serialized form of a request: the verb, then its space-separated
/// fields.
pub open spec fn spec_serialize(r: RequestView) -> Seq<char> {
    match r {
        RequestView::Stop => "STOP"@,
        RequestView::HealthCheck => "HEALTH_CHECK"@,
        RequestView::GetStats => "GET_STATS"@,
        RequestView::CommandBegin { pid, command } => "COMMAND_BEGIN "@ + dec_rep(
            pid as int,
        ) + seq![' '] + command,
        RequestView::CommandEnd { pid, exit_code } => "COMMAND_END "@ + dec_rep(pid as int) + seq![
            ' ',
        ] + spec_rep_i32(exit_code as int),
    }
}

/// The decimal rendering of a signed number.
pub open spec fn spec_rep_i32(e: int) -> Seq<char> {
    if e < 0 {
        seq!['-'] + dec_rep(-e)
    } else {
        dec_rep(e)
    }
}

/// Serialization round-trips through parsing: for `COMMAND_BEGIN` the
/// command must be nonempty and must not end in whitespace, since parsing
/// strips trailing whitespace from the line.
pub open spec fn wf_request(r: RequestView) -> bool {
    match r {
        RequestView::CommandBegin { pid, command } => command.len() > 0 && !is_space(
            command.last(),
        ),
        _ => true,
    }
}

/// Trimming leaves a string alone when neither end is whitespace.
proof fn lemma_trim_noop(s: Seq<char>)
    requires
        s.len() > 0,
        !is_space(s[0]),
        !is_space(s.last()),
    ensures
        spec_trim(s) == s,
{
    assert(trim_front(s) == s);
    assert(trim_back(s) == s);
}

/// Digit characters are neither spaces nor a minus sign.
proof fn lemma_digits_not_special(s: Seq<char>)
    requires
        all_digits(s),
    ensures
        forall|j: int| 0 <= j < s.len() ==> #[trigger] s[j] != ' ',
        forall|j: int| 0 <= j < s.len() ==> !is_space(#[trigger] s[j]),
        forall|j: int| 0 <= j < s.len() ==> #[trigger] s[j] != '-',
{
    assert forall|j: int| 0 <= j < s.len() implies #[trigger] s[j] != ' ' && !is_space(s[j])
        && s[j] != '-' by {
        assert(crate::digits::is_digit(s[j]));
        assert(' ' as u32 == 32);
        assert('\t' as u32 == 9);
        assert('\r' as u32 == 13);
        assert('\n' as u32 == 10);
        assert('-' as u32 == 45);
    }
}

/// The four fixed verbs are pairwise distinct lines; revealed once here.
proof fn lemma_verbs()
    ensures
        "STOP"@.len() == 4,
        "HEALTH_CHECK"@.len() == 12,
        "GET_STATS"@.len() == 9,
        "COMMAND_BEGIN "@.len() == 14,
        "COMMAND_END "@.len() == 12,
        !is_space("STOP"@[0]),
        !is_space("STOP"@[3]),
        !is_space("HEALTH_CHECK"@[0]),
        !is_space("HEALTH_CHECK"@[11]),
        !is_space("GET_STATS"@[0]),
        !is_space("GET_STATS"@[8]),
        !is_space("COMMAND_BEGIN "@[0]),
        !is_space("COMMAND_END "@[0]),
        "COMMAND_BEGIN "@[8] == 'B',
        "COMMAND_END "@[8] == 'E',
        "GET_STATS"@ != "STOP"@,
        "GET_STATS"@ != "HEALTH_CHECK"@,
        "HEALTH_CHECK"@ != "STOP"@,
{
    reveal_strlit("STOP");
    reveal_strlit("HEALTH_CHECK");
    reveal_strlit("GET_STATS");
    reveal_strlit("COMMAND_BEGIN ");
    reveal_strlit("COMMAND_END ");
}

/// The round trip of the codec: every well-formed request parses back from
/// its own serialization.
pub proof fn lemma_parse_of_serialize(r: RequestView)
    requires
        wf_request(r),
    ensures
        spec_parse(spec_serialize(r)) == Some(r),
{
    lemma_verbs();
    let line = spec_serialize(r);
    match r {
        RequestView::Stop => {
            lemma_trim_noop(line);
        },
        RequestView::HealthCheck => {
            lemma_trim_noop(line);
        },
        RequestView::GetStats => {
            lemma_trim_noop(line);
        },
        RequestView::CommandBegin { pid, command } => {
            let reps = dec_rep(pid as int);
            lemma_dec_rep_digits(pid as int);
            lemma_dec_val_of_rep(pid as int);
            lemma_digits_not_special(reps);
            assert(line.len() == 14 + reps.len() + 1 + command.len());
            assert(line[0] == "COMMAND_BEGIN "@[0]);
            assert(line.last() == command.last());
            lemma_trim_noop(line);
            let t = spec_trim(line);
            assert(t.take(14) =~= "COMMAND_BEGIN "@);
            let u = t.skip(14);
            assert(u =~= reps + seq![' '] + command);
            assert(u[reps.len() as int] == ' ');
            assert forall|j: int| 0 <= j < reps.len() implies #[trigger] u[j] != ' ' by {
                assert(u[j] == reps[j]);
            }
            lemma_first_space_at(u, reps.len() as int);
            assert(u.take(reps.len() as int) =~= reps);
            assert(u.skip(reps.len() as int + 1) =~= command);
            assert(spec_parse_begin_body(u) == Some(r));
        },
        RequestView::CommandEnd { pid, exit_code } => {
            let reps = dec_rep(pid as int);
            let etok = spec_rep_i32(exit_code as int);
            lemma_dec_rep_digits(pid as int);
            lemma_dec_val_of_rep(pid as int);
            lemma_digits_not_special(reps);
            if exit_code < 0 {
                lemma_dec_rep_digits(-(exit_code as int));
                lemma_dec_val_of_rep(-(exit_code as int));
                lemma_digits_not_special(dec_rep(-(exit_code as int)));
                assert(etok[0] == '-');
                assert(etok.last() == dec_rep(-(exit_code as int)).last());
            } else {
                lemma_dec_rep_digits(exit_code as int);
                lemma_dec_val_of_rep(exit_code as int);
                lemma_digits_not_special(etok);
            }
            assert(line.len() == 12 + reps.len() + 1 + etok.len());
            assert(line[0] == "COMMAND_END "@[0]);
            assert(line.last() == etok.last());
            assert(!is_space(line.last()));
            lemma_trim_noop(line);
            let t = spec_trim(line);
            assert(t[8] == "COMMAND_END "@[8]);
            assert(t.len() >= 14 ==> t.take(14)[8] == 'E');
            assert(!(t.len() >= 14 && t.take(14) == "COMMAND_BEGIN "@));
            assert(t.take(12) =~= "COMMAND_END "@);
            let u = t.skip(12);
            assert(u =~= reps + seq![' '] + etok);
            assert(u[reps.len() as int] == ' ');
            assert forall|j: int| 0 <= j < reps.len() implies #[trigger] u[j] != ' ' by {
                assert(u[j] == reps[j]);
            }
            lemma_first_space_at(u, reps.len() as int);
            assert(u.take(reps.len() as int) =~= reps);
            assert(u.skip(reps.len() as int + 1) =~= etok);
            if exit_code < 0 {
                assert(etok.skip(1) =~= dec_rep(-(exit_code as int)));
                assert(spec_parse_i32(etok) == Some(exit_code));
            } else {
                assert(etok[0] != '-');
                assert(spec_parse_i32(etok) == Some(exit_code));
            }
            assert(spec_parse_end_body(u) == Some(r));
        },
    }
}

impl Request {
    /// Parses one line of input. Returns the request the line means, and
    /// an error exactly on the lines that mean none.
    pub fn from_str(s: &str) -> (r: Result<Request, ParseError>)
        ensures
            match r {
                Ok(req) => spec_parse(s@) == Some(req@),
                Err(_) => spec_parse(s@) == None::<RequestView>,
            },
    {
        let t = trim(s);
        if str_eq(t, "STOP") {
            return Ok(Request::Stop);
        }
        if str_eq(t, "HEALTH_CHECK") {
            return Ok(Request::HealthCheck);
        }
        if str_eq(t, "GET_STATS") {
            return Ok(Request::GetStats);
        }
        let tlen = t.unicode_len();
        if tlen >= 14 && str_eq(t.substring_char(0, 14), "COMMAND_BEGIN ") {
            let u = t.substring_char(14, tlen);
            assert(u@ == spec_trim(s@).skip(14));
            match Self::parse_begin_body(u) {
                Some(req) => {
                    return Ok(req);
                },
                None => {
                    return Err(ParseError::MalformedRequest);
                },
            }
        }
        if tlen >= 12 && str_eq(t.substring_char(0, 12), "COMMAND_END ") {
            let u = t.substring_char(12, tlen);
            assert(u@ == spec_trim(s@).skip(12));
            match Self::parse_end_body(u) {
                Some(req) => {
                    return Ok(req);
                },
                None => {
                    return Err(ParseError::MalformedRequest);
                },
            }
        }
        Err(ParseError::MalformedRequest)
    }

    fn parse_begin_body(u: &str) -> (r: Option<Request>)
        ensures
            match r {
                Some(req) => spec_parse_begin_body(u@) == Some(req@),
                None => spec_parse_begin_body(u@) == None::<RequestView>,
            },
    {
        let ulen = u.unicode_len();
        match find_space(u) {
            None => None,
            Some(i) => {
                let pid_tok = u.substring_char(0, i);
                let rest = u.substring_char(i + 1, ulen);
                match parse_u64(pid_tok) {
                    Some(v) if v <= 0xffff_ffff => Some(Request::CommandBegin {
                        pid: v as u32,
                        command: rest.to_owned(),
                    }),
                    _ => None,
                }
            },
        }
    }

    fn parse_end_body(u: &str) -> (r: Option<Request>)
        ensures
            match r {
                Some(req) => spec_parse_end_body(u@) == Some(req@),
                None => spec_parse_end_body(u@) == None::<RequestView>,
            },
    {
        let ulen = u.unicode_len();
        match find_space(u) {
            None => None,
            Some(i) => {
                let pid_tok = u.substring_char(0, i);
                let rest = u.substring_char(i + 1, ulen);
                match parse_u64(pid_tok) {
                    Some(v) if v <= 0xffff_ffff => {
                        match Self::parse_i32_token(rest) {
                            Some(e) => Some(Request::CommandEnd { pid: v as u32, exit_code: e }),
                            None => None,
                        }
                    },
                    _ => None,
                }
            },
        }
    }

    fn parse_i32_token(tok: &str) -> (r: Option<i32>)
        ensures
            r == spec_parse_i32(tok@),
    {
        let len = tok.unicode_len();
        if len == 0 {
            return None;
        }
        if tok.get_char(0) == '-' {
            let mag = tok.substring_char(1, len);
            assert(mag@ == tok@.skip(1));
            match parse_u64(mag) {
                Some(v) if v <= 0x8000_0000 => {
                    if v == 0x8000_0000 {
                        Some(i32::MIN)
                    } else {
                        Some(-(v as i32))
                    }
                },
                _ => None,
            }
        } else {
            match parse_u64(tok) {
                Some(v) if v <= 0x7fff_ffff => Some(v as i32),
                _ => None,
            }
        }
    }

    /// The serialized line for this request, without a trailing newline.
    pub fn to_line(&self) -> (out: String)
        ensures
            out@ == spec_serialize(self@),
    {
        let mut out = String::new();
        match self {
            Request::Stop => {
                out.append("STOP");
            },
            Request::HealthCheck => {
                out.append("HEALTH_CHECK");
            },
            Request::GetStats => {
                out.append("GET_STATS");
            },
            Request::CommandBegin { pid, command } => {
                out.append("COMMAND_BEGIN ");
                crate::digits::push_dec_u64(&mut out, *pid as u64);
                push_char(&mut out, ' ');
                out.append(command.as_str());
                assert(out@ =~= spec_serialize(self@));
            },
            Request::CommandEnd { pid, exit_code } => {
                out.append("COMMAND_END ");
                crate::digits::push_dec_u64(&mut out, *pid as u64);
                push_char(&mut out, ' ');
                let e = *exit_code;
                if e < 0 {
                    push_char(&mut out, '-');
                    let mag = (-(e as i64)) as u64;
                    crate::digits::push_dec_u64(&mut out, mag);
                } else {
                    crate::digits::push_dec_u64(&mut out, e as u64);
                }
                assert(out@ =~= spec_serialize(self@));
            },
        }
        proof {
            if self@ is Stop || self@ is HealthCheck || self@ is GetStats {
                assert(out@ =~= spec_serialize(self@));
            }
        }
        out
    }
}

} // verus!
