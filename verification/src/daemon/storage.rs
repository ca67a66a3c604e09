//! The persistence codec: the aggregated-statistics map as one JSON
//! document.
//!
//! The document maps each command text to an object with the five counter
//! fields, pretty-printed with two-space indentation. Keys keep the map's
//! insertion order, so decoding a document the encoder wrote gives back
//! the very same map; `lemma_decode_of_encode` states that round trip.
//! The decoder accepts exactly the canonical form and rejects everything
//! else, including documents whose counters contradict the ledger
//! invariant: a load failure is fatal at daemon startup rather than a
//! silently repaired one.

use vstd::prelude::*;
use vstd::string::*;

use crate::daemon::state::ledger_wf;
use crate::digits::{
    dec_rep, dec_val, digit_char, is_digit, lemma_dec_rep_digits, lemma_dec_val_of_rep, parse_u64,
    push_dec_u64,
};
use crate::dto::{stats_wf, CommandStats};
use crate::strmap::{entries_wf, lemma_upsert_absent, StrMap};
use crate::text::{push_char, str_eq};

verus! {

/// The hexadecimal digit character for a value below sixteen.
pub open spec fn hex_digit(d: int) -> char {
    if d < 10 {
        digit_char(d)
    } else if d == 10 {
        'a'
    } else if d == 11 {
        'b'
    } else if d == 12 {
        'c'
    } else if d == 13 {
        'd'
    } else if d == 14 {
        'e'
    } else {
        'f'
    }
}

/// The numeric value of a hexadecimal digit character, or a negative
/// number for any other character.
pub open spec fn hex_val(c: char) -> int {
    if is_digit(c) {
        c as u32 - 48
    } else if c == 'a' {
        10
    } else if c == 'b' {
        11
    } else if c == 'c' {
        12
    } else if c == 'd' {
        13
    } else if c == 'e' {
        14
    } else if c == 'f' {
        15
    } else {
        -1
    }
}

/// How one character is written inside a JSON string: quote and backslash
/// get a backslash escape, control characters a `\u00XX` escape, and every
/// other character stands for itself.
pub open spec fn esc_char(c: char) -> Seq<char> {
    if c == '"' {
        seq!['\\', '"']
    } else if c == '\\' {
        seq!['\\', '\\']
    } else if (c as u32) < 32 {
        seq!['\\', 'u', '0', '0', hex_digit(c as u32 as int / 16), hex_digit(c as u32 as int % 16)]
    } else {
        seq![c]
    }
}

/// The body of a JSON string: every character escaped in turn.
pub open spec fn enc_str(s: Seq<char>) -> Seq<char>
    decreases s.len(),
{
    if s.len() == 0 {
        Seq::empty()
    } else {
        esc_char(s[0]) + enc_str(s.drop_first())
    }
}

/// Escaping distributes over concatenation.
pub proof fn lemma_enc_str_concat(a: Seq<char>, b: Seq<char>)
    ensures
        enc_str(a + b) == enc_str(a) + enc_str(b),
    decreases a.len(),
{
    if a.len() == 0 {
        assert(a + b =~= b);
        assert(enc_str(a) + enc_str(b) =~= enc_str(b));
    } else {
        lemma_enc_str_concat(a.drop_first(), b);
        assert((a + b).drop_first() =~= a.drop_first() + b);
        assert(esc_char((a + b)[0]) + (enc_str(a.drop_first()) + enc_str(b)) =~= enc_str(a)
            + enc_str(b));
    }
}

/// The JSON object holding one aggregate's five counters.
pub open spec fn enc_stats_obj(st: CommandStats) -> Seq<char> {
    "{\n    \"count\": "@ + dec_rep(st.count as int) + ",\n    \"total_duration\": "@ + dec_rep(
        st.total_duration as int,
    ) + ",\n    \"last_run_duration\": "@ + dec_rep(st.last_run_duration as int)
        + ",\n    \"success_count\": "@ + dec_rep(st.success_count as int)
        + ",\n    \"fail_count\": "@ + dec_rep(st.fail_count as int) + "\n  }"@
}

/// One document entry: the quoted, escaped command text, a colon, and the
/// aggregate object.
pub open spec fn enc_entry(k: Seq<char>, st: CommandStats) -> Seq<char> {
    "  \""@ + enc_str(k) + seq!['"'] + ": "@ + enc_stats_obj(st)
}

/// The entries of a nonempty document, separated by commas.
pub open spec fn enc_entries(m: Seq<(Seq<char>, CommandStats)>) -> Seq<char>
    decreases m.len(),
{
    if m.len() == 0 {
        Seq::empty()
    } else if m.len() == 1 {
        enc_entry(m[0].0, m[0].1)
    } else {
        enc_entry(m[0].0, m[0].1) + ",\n"@ + enc_entries(m.drop_first())
    }
}

/// The whole document: `{}` for the empty map, otherwise the entries
/// between braces on lines of their own.
pub open spec fn enc_doc(m: Seq<(Seq<char>, CommandStats)>) -> Seq<char> {
    if m.len() == 0 {
        "{}"@
    } else {
        "{\n"@ + enc_entries(m) + "\n}"@
    }
}

/// Appending an entry extends the encoded entry list by a separator and
/// the entry.
proof fn lemma_enc_entries_push(m: Seq<(Seq<char>, CommandStats)>, k: Seq<char>, st: CommandStats)
    requires
        m.len() >= 1,
    ensures
        enc_entries(m.push((k, st))) == enc_entries(m) + ",\n"@ + enc_entry(k, st),
    decreases m.len(),
{
    let p = m.push((k, st));
    if m.len() == 1 {
        assert(p.drop_first() =~= seq![(k, st)]);
        assert(enc_entries(p.drop_first()) == enc_entry(k, st));
    } else {
        lemma_enc_entries_push(m.drop_first(), k, st);
        assert(p.drop_first() =~= m.drop_first().push((k, st)));
        assert(enc_entry(m[0].0, m[0].1) + ",\n"@ + (enc_entries(m.drop_first()) + ",\n"@
            + enc_entry(k, st)) =~= enc_entries(m) + ",\n"@ + enc_entry(k, st));
    }
}

/// The hexadecimal digit character, as executable code.
fn hex_char(d: u8) -> (c: char)
    requires
        d < 16,
    ensures
        c == hex_digit(d as int),
{
    match d {
        0 => '0',
        1 => '1',
        2 => '2',
        3 => '3',
        4 => '4',
        5 => '5',
        6 => '6',
        7 => '7',
        8 => '8',
        9 => '9',
        10 => 'a',
        11 => 'b',
        12 => 'c',
        13 => 'd',
        14 => 'e',
        _ => 'f',
    }
}

/// Appends the escaped form of one character.
fn push_escaped(out: &mut String, c: char)
    ensures
        final(out)@ == old(out)@ + esc_char(c),
{
    if c == '"' {
        push_char(out, '\\');
        push_char(out, '"');
        assert(out@ =~= old(out)@ + esc_char(c));
    } else if c == '\\' {
        push_char(out, '\\');
        push_char(out, '\\');
        assert(out@ =~= old(out)@ + esc_char(c));
    } else {
        let u = c as u32;
        if u < 32 {
            push_char(out, '\\');
            push_char(out, 'u');
            push_char(out, '0');
            push_char(out, '0');
            push_char(out, hex_char((u / 16) as u8));
            push_char(out, hex_char((u % 16) as u8));
            assert(out@ =~= old(out)@ + esc_char(c));
        } else {
            push_char(out, c);
            assert(out@ =~= old(out)@ + esc_char(c));
        }
    }
}

/// Appends the escaped body of a JSON string.
fn push_json_string(out: &mut String, k: &str)
    ensures
        final(out)@ == old(out)@ + enc_str(k@),
{
    let len = k.unicode_len();
    let mut i: usize = 0;
    while i < len
        invariant
            len == k@.len(),
            0 <= i <= len,
            out@ == old(out)@ + enc_str(k@.take(i as int)),
        decreases len - i,
    {
        push_escaped(out, k.get_char(i));
        proof {
            lemma_enc_str_concat(k@.take(i as int), seq![k@[i as int]]);
            assert(k@.take(i + 1) =~= k@.take(i as int) + seq![k@[i as int]]);
            reveal_with_fuel(enc_str, 2);
            assert(seq![k@[i as int]].drop_first() =~= Seq::<char>::empty());
            assert(enc_str(seq![k@[i as int]]) =~= esc_char(k@[i as int]));
            assert(out@ =~= old(out)@ + enc_str(k@.take(i + 1)));
        }
        i += 1;
    }
    proof {
        assert(k@.take(len as int) =~= k@);
    }
}

/// Appends the JSON object of one aggregate.
fn push_stats_obj(out: &mut String, st: &CommandStats)
    ensures
        final(out)@ == old(out)@ + enc_stats_obj(*st),
{
    out.append("{\n    \"count\": ");
    push_dec_u64(out, st.count);
    out.append(",\n    \"total_duration\": ");
    push_dec_u64(out, st.total_duration);
    out.append(",\n    \"last_run_duration\": ");
    push_dec_u64(out, st.last_run_duration);
    out.append(",\n    \"success_count\": ");
    push_dec_u64(out, st.success_count);
    out.append(",\n    \"fail_count\": ");
    push_dec_u64(out, st.fail_count);
    out.append("\n  }");
    assert(out@ =~= old(out)@ + enc_stats_obj(*st));
}

/// Appends one document entry.
fn push_entry(out: &mut String, k: &str, st: &CommandStats)
    ensures
        final(out)@ == old(out)@ + enc_entry(k@, *st),
{
    out.append("  \"");
    push_json_string(out, k);
    push_char(out, '"');
    out.append(": ");
    push_stats_obj(out, st);
    assert(out@ =~= old(out)@ + enc_entry(k@, *st));
}

/// The aggregated-statistics map as one JSON document.
pub fn encode_stats_json(m: &StrMap<CommandStats>) -> (out: String)
    ensures
        out@ == enc_doc(m@),
{
    let n = m.len();
    let mut out = String::new();
    if n == 0 {
        out.append("{}");
        assert(out@ =~= enc_doc(m@));
        return out;
    }
    out.append("{\n");
    push_entry(&mut out, m.key_at(0).as_str(), m.val_at(0));
    proof {
        assert(m@.take(1) =~= seq![m@[0]]);
        assert(enc_entries(m@.take(1)) == enc_entry(m@[0].0, m@[0].1));
        assert(out@ =~= "{\n"@ + enc_entries(m@.take(1)));
    }
    let mut i: usize = 1;
    while i < n
        invariant
            n == m@.len(),
            1 <= i <= n,
            out@ == "{\n"@ + enc_entries(m@.take(i as int)),
        decreases n - i,
    {
        out.append(",\n");
        push_entry(&mut out, m.key_at(i).as_str(), m.val_at(i));
        proof {
            lemma_enc_entries_push(m@.take(i as int), m@[i as int].0, m@[i as int].1);
            assert(m@.take(i + 1) =~= m@.take(i as int).push(m@[i as int]));
            assert(out@ =~= "{\n"@ + enc_entries(m@.take(i + 1)));
        }
        i += 1;
    }
    out.append("\n}");
    proof {
        assert(m@.take(n as int) =~= m@);
        assert(out@ =~= enc_doc(m@));
    }
    out
}

/// Consumes the literal `lit` at position `pos`, or fails.
pub open spec fn eat_lit(s: Seq<char>, pos: int, lit: Seq<char>) -> Option<int> {
    if 0 <= pos && pos + lit.len() <= s.len() && s.subrange(pos, pos + lit.len()) == lit {
        Some(pos + lit.len())
    } else {
        None
    }
}

/// The end of the digit run starting at `pos`.
pub open spec fn digits_end(s: Seq<char>, pos: int) -> int
    decreases s.len() - pos when 0 <= pos <= s.len()
{
    if pos < s.len() && is_digit(s[pos]) {
        digits_end(s, pos + 1)
    } else {
        pos
    }
}

/// Reads the digit run at `pos` as a `u64`: it must be nonempty and its
/// value must fit.
pub open spec fn dec_num(s: Seq<char>, pos: int) -> Option<(u64, int)> {
    if 0 <= pos <= s.len() {
        let e = digits_end(s, pos);
        if e == pos {
            None
        } else if dec_val(s.subrange(pos, e)) <= u64::MAX {
            Some((dec_val(s.subrange(pos, e)) as u64, e))
        } else {
            None
        }
    } else {
        None
    }
}

/// Reads a JSON string body from `pos` up to and including its closing
/// quote, undoing the escapes the encoder writes.
pub open spec fn dec_string(s: Seq<char>, pos: int) -> Option<(Seq<char>, int)>
    decreases s.len() - pos when 0 <= pos <= s.len()
{
    if pos >= s.len() {
        None
    } else if s[pos] == '"' {
        Some((Seq::empty(), pos + 1))
    } else if s[pos] == '\\' {
        if pos + 1 >= s.len() {
            None
        } else if s[pos + 1] == '"' || s[pos + 1] == '\\' {
            match dec_string(s, pos + 2) {
                None => None,
                Some((t, e)) => Some((seq![s[pos + 1]] + t, e)),
            }
        } else if s[pos + 1] == 'u' {
            if pos + 6 <= s.len() && s[pos + 2] == '0' && s[pos + 3] == '0' && hex_val(s[pos + 4])
                >= 0 && hex_val(s[pos + 5]) >= 0 && hex_val(s[pos + 4]) * 16 + hex_val(s[pos + 5])
                < 32 {
                let v = (hex_val(s[pos + 4]) * 16 + hex_val(s[pos + 5])) as u32;
                match dec_string(s, pos + 6) {
                    None => None,
                    Some((t, e)) => Some((seq![v as char] + t, e)),
                }
            } else {
                None
            }
        } else {
            None
        }
    } else {
        match dec_string(s, pos + 1) {
            None => None,
            Some((t, e)) => Some((seq![s[pos]] + t, e)),
        }
    }
}

/// Reads one aggregate object: the five counters in canonical order, and
/// only if they satisfy the ledger invariant.
pub open spec fn dec_stats_obj(s: Seq<char>, pos: int) -> Option<(CommandStats, int)> {
    match eat_lit(s, pos, "{\n    \"count\": "@) {
        None => None,
        Some(p1) => match dec_num(s, p1) {
            None => None,
            Some((count, p2)) => match eat_lit(s, p2, ",\n    \"total_duration\": "@) {
                None => None,
                Some(p3) => match dec_num(s, p3) {
                    None => None,
                    Some((total_duration, p4)) => match eat_lit(
                        s,
                        p4,
                        ",\n    \"last_run_duration\": "@,
                    ) {
                        None => None,
                        Some(p5) => match dec_num(s, p5) {
                            None => None,
                            Some((last_run_duration, p6)) => match eat_lit(
                                s,
                                p6,
                                ",\n    \"success_count\": "@,
                            ) {
                                None => None,
                                Some(p7) => match dec_num(s, p7) {
                                    None => None,
                                    Some((success_count, p8)) => match eat_lit(
                                        s,
                                        p8,
                                        ",\n    \"fail_count\": "@,
                                    ) {
                                        None => None,
                                        Some(p9) => match dec_num(s, p9) {
                                            None => None,
                                            Some((fail_count, p10)) => match eat_lit(
                                                s,
                                                p10,
                                                "\n  }"@,
                                            ) {
                                                None => None,
                                                Some(p11) => if count == success_count
                                                    + fail_count {
                                                    Some(
                                                        (
                                                            CommandStats {
                                                                count,
                                                                total_duration,
                                                                last_run_duration,
                                                                success_count,
                                                                fail_count,
                                                            },
                                                            p11,
                                                        ),
                                                    )
                                                } else {
                                                    None
                                                },
                                            },
                                        },
                                    },
                                },
                            },
                        },
                    },
                },
            },
        },
    }
}

/// Reads one entry: the quoted command text, a colon, and the aggregate.
pub open spec fn dec_entry(s: Seq<char>, pos: int) -> Option<((Seq<char>, CommandStats), int)> {
    match eat_lit(s, pos, "  \""@) {
        None => None,
        Some(p1) => match dec_string(s, p1) {
            None => None,
            Some((k, p2)) => match eat_lit(s, p2, ": "@) {
                None => None,
                Some(p3) => match dec_stats_obj(s, p3) {
                    None => None,
                    Some((st, p4)) => Some(((k, st), p4)),
                },
            },
        },
    }
}

/// Reads the comma-separated entry list starting at `pos`.
pub open spec fn dec_entries(s: Seq<char>, pos: int) -> Option<
    (Seq<(Seq<char>, CommandStats)>, int),
>
    decreases s.len() - pos when 0 <= pos <= s.len()
{
    match dec_entry(s, pos) {
        None => None,
        Some((e, p)) => match eat_lit(s, p, ",\n"@) {
            None => Some((seq![e], p)),
            Some(p2) => if pos < p2 <= s.len() {
                match dec_entries(s, p2) {
                    None => None,
                    Some((es, p3)) => Some((seq![e] + es, p3)),
                }
            } else {
                None
            },
        },
    }
}

/// What a document means: the entry sequence it encodes, or nothing. Only
/// the canonical form is accepted, and only with pairwise distinct keys.
pub open spec fn dec_doc(s: Seq<char>) -> Option<Seq<(Seq<char>, CommandStats)>> {
    if s == "{}"@ {
        Some(Seq::empty())
    } else {
        match eat_lit(s, 0, "{\n"@) {
            None => None,
            Some(p) => match dec_entries(s, p) {
                None => None,
                Some((es, p2)) => match eat_lit(s, p2, "\n}"@) {
                    None => None,
                    Some(p3) => if p3 == s.len() && entries_wf(es) {
                        Some(es)
                    } else {
                        None
                    },
                },
            },
        }
    }
}

/// Consumes the literal `lit` at position `pos`.
fn eat_lit_exec(s: &str, pos: usize, lit: &str) -> (r: Option<usize>)
    ensures
        match r {
            Some(p) => eat_lit(s@, pos as int, lit@) == Some(p as int) && pos <= p <= s@.len(),
            None => eat_lit(s@, pos as int, lit@) == None::<int>,
        },
{
    let sl = s.unicode_len();
    let ll = lit.unicode_len();
    if pos > sl || sl - pos < ll {
        return None;
    }
    let mut i: usize = 0;
    while i < ll
        invariant
            sl == s@.len(),
            ll == lit@.len(),
            pos + ll <= sl,
            0 <= i <= ll,
            forall|j: int| 0 <= j < i ==> s@[pos + j] == lit@[j],
        decreases ll - i,
    {
        if s.get_char(pos + i) != lit.get_char(i) {
            proof {
                assert(s@.subrange(pos as int, pos + ll) != lit@) by {
                    assert(s@.subrange(pos as int, pos + ll)[i as int] == s@[pos + i]);
                }
            }
            return None;
        }
        i += 1;
    }
    proof {
        assert(s@.subrange(pos as int, pos + ll) =~= lit@);
    }
    Some(pos + ll)
}

/// The digit run starting at `pos` ends exactly at the first non-digit.
proof fn lemma_digits_end_at(s: Seq<char>, pos: int, e: int)
    requires
        0 <= pos <= e <= s.len(),
        forall|j: int| pos <= j < e ==> is_digit(#[trigger] s[j]),
        e == s.len() || !is_digit(s[e]),
    ensures
        digits_end(s, pos) == e,
    decreases e - pos,
{
    if pos < e {
        lemma_digits_end_at(s, pos + 1, e);
    }
}

/// Reads the digit run at `pos` as a `u64`.
fn decode_num(s: &str, pos: usize) -> (r: Option<(u64, usize)>)
    requires
        pos <= s@.len(),
    ensures
        match r {
            Some(v) => dec_num(s@, pos as int) == Some((v.0, v.1 as int)) && pos < v.1 <= s@.len(),
            None => dec_num(s@, pos as int) == None::<(u64, int)>,
        },
{
    let len = s.unicode_len();
    let mut e: usize = pos;
    while e < len && crate::digits::is_digit_char(s.get_char(e))
        invariant
            len == s@.len(),
            pos <= e <= len,
            forall|j: int| pos <= j < e ==> is_digit(#[trigger] s@[j]),
        decreases len - e,
    {
        e += 1;
    }
    proof {
        lemma_digits_end_at(s@, pos as int, e as int);
    }
    if e == pos {
        return None;
    }
    let tok = s.substring_char(pos, e);
    assert(tok@ == s@.subrange(pos as int, e as int));
    match parse_u64(tok) {
        Some(v) => Some((v, e)),
        None => None,
    }
}

/// The decoded string so far: reading from `cur` with `built` already
/// decoded gives the same outcome as reading from `pos0`.
pub open spec fn dec_string_from(s: Seq<char>, pos0: int, cur: int, built: Seq<char>) -> bool {
    dec_string(s, pos0) == match dec_string(s, cur) {
        None => None::<(Seq<char>, int)>,
        Some((t, e)) => Some((built + t, e)),
    }
}

/// The numeric value of a hexadecimal digit character.
fn hex_val_exec(c: char) -> (r: Option<u8>)
    ensures
        match r {
            Some(d) => hex_val(c) == d as int && d < 16,
            None => hex_val(c) < 0,
        },
{
    let u = c as u32;
    if 48 <= u && u <= 57 {
        Some((u - 48) as u8)
    } else if c == 'a' {
        Some(10)
    } else if c == 'b' {
        Some(11)
    } else if c == 'c' {
        Some(12)
    } else if c == 'd' {
        Some(13)
    } else if c == 'e' {
        Some(14)
    } else if c == 'f' {
        Some(15)
    } else {
        None
    }
}

/// Relies on `char::from_u32`: the character with scalar value `v`. The
/// precondition keeps `v` a valid Unicode scalar, so the call cannot fail.
#[verifier::external_body]
fn char_from_u32(v: u32) -> (c: char)
    requires
        v < 0xD800,
    ensures
        c == (v as char),
{
    char::from_u32(v).unwrap()
}

/// Reads a JSON string body up to and including its closing quote.
fn decode_string(s: &str, pos: usize) -> (r: Option<(String, usize)>)
    requires
        pos <= s@.len(),
    ensures
        match r {
            Some(v) => dec_string(s@, pos as int) == Some((v.0@, v.1 as int)) && pos < v.1
                <= s@.len(),
            None => dec_string(s@, pos as int) == None::<(Seq<char>, int)>,
        },
{
    let len = s.unicode_len();
    let mut out = String::new();
    let mut cur = pos;
    loop
        invariant
            len == s@.len(),
            pos <= cur <= len,
            dec_string_from(s@, pos as int, cur as int, out@),
        decreases len - cur,
    {
        if cur >= len {
            return None;
        }
        let c = s.get_char(cur);
        if c == '"' {
            proof {
                assert(out@ + Seq::<char>::empty() =~= out@);
            }
            return Some((out, cur + 1));
        } else if c == '\\' {
            if cur + 1 >= len {
                return None;
            }
            let c2 = s.get_char(cur + 1);
            if c2 == '"' || c2 == '\\' {
                let ghost ob = out@;
                proof {
                    lemma_dec_string_from_step(s@, pos as int, cur as int, ob, cur + 2, seq![c2]);
                }
                push_char(&mut out, c2);
                proof {
                    assert(out@ =~= ob + seq![c2]);
                }
                cur = cur + 2;
            } else if c2 == 'u' {
                if len - cur < 6 {
                    return None;
                }
                if s.get_char(cur + 2) != '0' || s.get_char(cur + 3) != '0' {
                    return None;
                }
                let d1 = match hex_val_exec(s.get_char(cur + 4)) {
                    Some(d) => d,
                    None => {
                        return None;
                    },
                };
                let d2 = match hex_val_exec(s.get_char(cur + 5)) {
                    Some(d) => d,
                    None => {
                        return None;
                    },
                };
                let v = d1 * 16 + d2;
                if v >= 32 {
                    return None;
                }
                let dc = char_from_u32(v as u32);
                let ghost ob = out@;
                proof {
                    lemma_dec_string_from_step(s@, pos as int, cur as int, ob, cur + 6, seq![dc]);
                }
                push_char(&mut out, dc);
                proof {
                    assert(out@ =~= ob + seq![dc]);
                }
                cur = cur + 6;
            } else {
                return None;
            }
        } else {
            let ghost ob = out@;
            proof {
                lemma_dec_string_from_step(s@, pos as int, cur as int, ob, cur + 1, seq![c]);
            }
            push_char(&mut out, c);
            proof {
                assert(out@ =~= ob + seq![c]);
            }
            cur = cur + 1;
        }
    }
}

/// One decoding step: when reading from `cur` yields `piece` and then
/// whatever reading from `next` yields, the partial decode advances.
proof fn lemma_dec_string_from_step(
    s: Seq<char>,
    pos0: int,
    cur: int,
    built: Seq<char>,
    next: int,
    piece: Seq<char>,
)
    requires
        dec_string_from(s, pos0, cur, built),
        dec_string(s, cur) == match dec_string(s, next) {
            None => None::<(Seq<char>, int)>,
            Some((t, e)) => Some((piece + t, e)),
        },
    ensures
        dec_string_from(s, pos0, next, built + piece),
{
    match dec_string(s, next) {
        None => {},
        Some((t, e)) => {
            assert(built + (piece + t) =~= (built + piece) + t);
        },
    }
}

/// Reads one aggregate object.
fn decode_stats_obj(s: &str, pos: usize) -> (r: Option<(CommandStats, usize)>)
    ensures
        match r {
            Some(v) => dec_stats_obj(s@, pos as int) == Some((v.0, v.1 as int)) && pos < v.1
                <= s@.len() && stats_wf(v.0),
            None => dec_stats_obj(s@, pos as int) == None::<(CommandStats, int)>,
        },
{
    let p1 = match eat_lit_exec(s, pos, "{\n    \"count\": ") {
        Some(p) => p,
        None => {
            return None;
        },
    };
    let (count, p2) = match decode_num(s, p1) {
        Some(v) => v,
        None => {
            return None;
        },
    };
    let p3 = match eat_lit_exec(s, p2, ",\n    \"total_duration\": ") {
        Some(p) => p,
        None => {
            return None;
        },
    };
    let (total_duration, p4) = match decode_num(s, p3) {
        Some(v) => v,
        None => {
            return None;
        },
    };
    let p5 = match eat_lit_exec(s, p4, ",\n    \"last_run_duration\": ") {
        Some(p) => p,
        None => {
            return None;
        },
    };
    let (last_run_duration, p6) = match decode_num(s, p5) {
        Some(v) => v,
        None => {
            return None;
        },
    };
    let p7 = match eat_lit_exec(s, p6, ",\n    \"success_count\": ") {
        Some(p) => p,
        None => {
            return None;
        },
    };
    let (success_count, p8) = match decode_num(s, p7) {
        Some(v) => v,
        None => {
            return None;
        },
    };
    let p9 = match eat_lit_exec(s, p8, ",\n    \"fail_count\": ") {
        Some(p) => p,
        None => {
            return None;
        },
    };
    let (fail_count, p10) = match decode_num(s, p9) {
        Some(v) => v,
        None => {
            return None;
        },
    };
    let p11 = match eat_lit_exec(s, p10, "\n  }") {
        Some(p) => p,
        None => {
            return None;
        },
    };
    if count as u128 == success_count as u128 + fail_count as u128 {
        Some(
            (
                CommandStats { count, total_duration, last_run_duration, success_count, fail_count },
                p11,
            ),
        )
    } else {
        None
    }
}

/// Reads one entry: the quoted command text and its aggregate.
fn decode_entry(s: &str, pos: usize) -> (r: Option<((String, CommandStats), usize)>)
    ensures
        match r {
            Some(v) => dec_entry(s@, pos as int) == Some((((v.0).0@, (v.0).1), v.1 as int)) && pos
                < v.1 <= s@.len() && stats_wf((v.0).1),
            None => dec_entry(s@, pos as int) == None::<((Seq<char>, CommandStats), int)>,
        },
{
    let p1 = match eat_lit_exec(s, pos, "  \"") {
        Some(p) => p,
        None => {
            return None;
        },
    };
    let (k, p2) = match decode_string(s, p1) {
        Some(v) => v,
        None => {
            return None;
        },
    };
    let p3 = match eat_lit_exec(s, p2, ": ") {
        Some(p) => p,
        None => {
            return None;
        },
    };
    let (st, p4) = match decode_stats_obj(s, p3) {
        Some(v) => v,
        None => {
            return None;
        },
    };
    Some(((k, st), p4))
}

/// The views of decoded entries: command text as character sequences.
pub open spec fn entries_view(v: Seq<(String, CommandStats)>) -> Seq<(Seq<char>, CommandStats)> {
    v.map_values(|p: (String, CommandStats)| (p.0@, p.1))
}

/// The decoded entries so far: reading from `cur` with `done` already
/// decoded gives the same outcome as reading from `pos0`.
pub open spec fn dec_entries_from(
    s: Seq<char>,
    pos0: int,
    cur: int,
    done: Seq<(Seq<char>, CommandStats)>,
) -> bool {
    dec_entries(s, pos0) == match dec_entries(s, cur) {
        None => None::<(Seq<(Seq<char>, CommandStats)>, int)>,
        Some((es, e)) => Some((done + es, e)),
    }
}

/// Reads the comma-separated entry list starting at `pos`.
fn decode_entries(s: &str, pos: usize) -> (r: Option<(Vec<(String, CommandStats)>, usize)>)
    requires
        pos <= s@.len(),
    ensures
        match r {
            Some(v) => dec_entries(s@, pos as int) == Some((entries_view(v.0@), v.1 as int)) && v.1
                <= s@.len() && (forall|i: int|
                0 <= i < v.0@.len() ==> stats_wf((#[trigger] v.0@[i]).1)),
            None => dec_entries(s@, pos as int) == None::<(Seq<(Seq<char>, CommandStats)>, int)>,
        },
{
    let len = s.unicode_len();
    let mut done: Vec<(String, CommandStats)> = Vec::new();
    let mut cur = pos;
    proof {
        assert(entries_view(done@) =~= Seq::<(Seq<char>, CommandStats)>::empty());
    }
    loop
        invariant
            len == s@.len(),
            pos <= cur <= len,
            dec_entries_from(s@, pos as int, cur as int, entries_view(done@)),
            forall|i: int| 0 <= i < done@.len() ==> stats_wf((#[trigger] done@[i]).1),
        decreases len - cur,
    {
        let ghost dv = entries_view(done@);
        let (entry, p) = match decode_entry(s, cur) {
            Some(v) => v,
            None => {
                return None;
            },
        };
        let ghost ev = (entry.0@, entry.1);
        match eat_lit_exec(s, p, ",\n") {
            Some(p2) => {
                proof {
                    assert(dec_entries(s@, cur as int) == (match dec_entries(s@, p2 as int) {
                        None => None::<(Seq<(Seq<char>, CommandStats)>, int)>,
                        Some((es, e)) => Some((seq![ev] + es, e)),
                    }));
                    match dec_entries(s@, p2 as int) {
                        None => {},
                        Some((es, e)) => {
                            assert(dv + (seq![ev] + es) =~= (dv + seq![ev]) + es);
                        },
                    }
                }
                done.push(entry);
                proof {
                    assert(entries_view(done@) =~= dv + seq![ev]);
                }
                cur = p2;
            },
            None => {
                proof {
                    assert(dec_entries(s@, cur as int) == Some((seq![ev], p as int)));
                    assert(dv + seq![ev] =~= entries_view(done@.push(entry)));
                }
                done.push(entry);
                return Some((done, p));
            },
        }
    }
}

/// Reads a whole document back into a statistics map. Returns the map the
/// document encodes, and nothing when the document is not canonical, holds
/// a repeated key, or holds an aggregate violating the ledger invariant.
#[verifier::loop_isolation(false)]
pub fn decode_stats_json(s: &str) -> (r: Option<StrMap<CommandStats>>)
    ensures
        match r {
            Some(m) => dec_doc(s@) == Some(m@) && ledger_wf(m@),
            None => dec_doc(s@) == None::<Seq<(Seq<char>, CommandStats)>>,
        },
{
    if str_eq(s, "{}") {
        let m = StrMap::<CommandStats>::new();
        return Some(m);
    }
    let p = match eat_lit_exec(s, 0, "{\n") {
        Some(p) => p,
        None => {
            return None;
        },
    };
    let (es, p2) = match decode_entries(s, p) {
        Some(v) => v,
        None => {
            return None;
        },
    };
    let p3 = match eat_lit_exec(s, p2, "\n}") {
        Some(p) => p,
        None => {
            return None;
        },
    };
    if p3 != s.unicode_len() {
        return None;
    }
    let n = es.len();
    let mut i: usize = 0;
    while i < n
        invariant
            n == es@.len(),
            0 <= i <= n,
            forall|a: int, b: int|
                0 <= a < b < n && a < i ==> (#[trigger] es@[a]).0@ != (#[trigger] es@[b]).0@,
        decreases n - i,
    {
        let mut j: usize = i + 1;
        while j < n
            invariant
                n == es@.len(),
                0 <= i < j <= n,
                forall|b: int| i < b < j ==> (#[trigger] es@[b]).0@ != es@[i as int].0@,
            decreases n - j,
        {
            if str_eq(es[i].0.as_str(), es[j].0.as_str()) {
                proof {
                    let ev = entries_view(es@);
                    assert(0 <= (i as int) && (i as int) < (j as int) && (j as int) < ev.len());
                    assert(ev[i as int].0 == ev[j as int].0);
                    assert(!entries_wf(ev));
                }
                return None;
            }
            j += 1;
        }
        i += 1;
    }
    proof {
        assert(entries_wf(entries_view(es@))) by {
            assert forall|a: int, b: int|
                0 <= a < b < entries_view(es@).len() implies (#[trigger] entries_view(es@)[a]).0
                != (#[trigger] entries_view(es@)[b]).0 by {
                assert(es@[a].0@ != es@[b].0@);
            }
        }
    }
    let mut m = StrMap::<CommandStats>::new();
    let mut idx: usize = 0;
    proof {
        assert(m@ =~= entries_view(es@).take(0));
    }
    while idx < n
        invariant
            n == es@.len(),
            0 <= idx <= n,
            entries_wf(entries_view(es@)),
            forall|i2: int| 0 <= i2 < n ==> stats_wf((#[trigger] es@[i2]).1),
            m@ == entries_view(es@).take(idx as int),
        decreases n - idx,
    {
        proof {
            assert forall|j2: int| 0 <= j2 < m@.len() implies (#[trigger] m@[j2]).0 != es@[
                idx as int].0@ by {
                assert(entries_view(es@)[j2].0 == m@[j2].0);
                assert(entries_view(es@)[idx as int].0 == es@[idx as int].0@);
            }
            lemma_upsert_absent(m@, es@[idx as int].0@, es@[idx as int].1);
        }
        let key = es[idx].0.clone();
        let value = es[idx].1;
        m.insert(key, value);
        proof {
            assert(m@ =~= entries_view(es@).take(idx + 1));
        }
        idx += 1;
    }
    proof {
        assert(entries_view(es@).take(n as int) =~= entries_view(es@));
        assert(ledger_wf(m@)) by {
            assert forall|i2: int| 0 <= i2 < m@.len() implies stats_wf((#[trigger] m@[i2]).1) by {
                assert(m@[i2] == entries_view(es@)[i2]);
                assert(entries_view(es@)[i2].1 == es@[i2].1);
            }
        }
    }
    Some(m)
}

/// The one failure of loading: a statistics file exists but does not hold
/// a readable document.
#[derive(Debug, PartialEq, Eq, Structural, Clone, Copy)]
pub enum LoadError {
    CorruptDocument,
}

/// The load policy at daemon startup: no statistics file means a cold
/// start with the empty map; a file that exists must hold a readable
/// document, and one that does not is a fatal error rather than a silently
/// discarded one.
pub fn load_stats(contents: Option<&str>) -> (r: Result<StrMap<CommandStats>, LoadError>)
    ensures
        match r {
            Ok(m) => {
                &&& ledger_wf(m@)
                &&& match contents {
                    None => m@ == Seq::<(Seq<char>, CommandStats)>::empty(),
                    Some(s) => dec_doc(s@) == Some(m@),
                }
            },
            Err(_) => match contents {
                None => false,
                Some(s) => dec_doc(s@) == None::<Seq<(Seq<char>, CommandStats)>>,
            },
        },
{
    match contents {
        None => Ok(StrMap::new()),
        Some(s) => match decode_stats_json(s) {
            Some(m) => Ok(m),
            None => Err(LoadError::CorruptDocument),
        },
    }
}

/// Splitting text after a known prefix: what follows position `pos + a.len()`.
proof fn lemma_skip_split(s: Seq<char>, pos: int, a: Seq<char>, b: Seq<char>)
    requires
        0 <= pos <= s.len(),
        s.skip(pos) == a + b,
    ensures
        pos + a.len() <= s.len(),
        s.skip(pos + a.len()) == b,
{
    assert(s.skip(pos).len() == a.len() + b.len());
    assert(s.skip(pos + a.len()) =~= b) by {
        assert(forall|i: int|
            0 <= i < b.len() ==> #[trigger] s.skip(pos + a.len() as int)[i] == s.skip(pos)[a.len()
                + i]);
    }
}

/// Text standing at `pos` is readable by direct indexing.
proof fn lemma_skip_index(s: Seq<char>, pos: int, a: Seq<char>, b: Seq<char>)
    requires
        0 <= pos <= s.len(),
        s.skip(pos) == a + b,
    ensures
        forall|i: int| 0 <= i < a.len() ==> #[trigger] s[pos + i] == a[i],
{
    assert(s.skip(pos).len() == a.len() + b.len());
    assert forall|i: int| 0 <= i < a.len() implies #[trigger] s[pos + i] == a[i] by {
        assert(s.subrange(pos, s.len() as int)[i] == s[pos + i]);
        assert((a + b)[i] == a[i]);
    }
}

/// A literal that stands at `pos` is consumed there.
proof fn lemma_eat_lit_at(s: Seq<char>, pos: int, lit: Seq<char>, rest: Seq<char>)
    requires
        0 <= pos <= s.len(),
        s.skip(pos) == lit + rest,
    ensures
        eat_lit(s, pos, lit) == Some(pos + lit.len()),
        pos + lit.len() <= s.len(),
        s.skip(pos + lit.len()) == rest,
{
    lemma_skip_split(s, pos, lit, rest);
    assert(s.subrange(pos, pos + lit.len()) =~= lit) by {
        assert(forall|i: int|
            0 <= i < lit.len() ==> #[trigger] s.subrange(pos, pos + lit.len() as int)[i] == s.skip(
                pos,
            )[i]);
    }
}

/// A canonical decimal rendering at `pos`, followed by a non-digit, reads
/// back as its value.
proof fn lemma_dec_num_of_rep(s: Seq<char>, pos: int, v: u64, rest: Seq<char>)
    requires
        0 <= pos <= s.len(),
        s.skip(pos) == dec_rep(v as int) + rest,
        rest.len() > 0,
        !is_digit(rest[0]),
    ensures
        dec_num(s, pos) == Some((v, pos + dec_rep(v as int).len())),
        s.skip(pos + dec_rep(v as int).len()) == rest,
{
    let rep = dec_rep(v as int);
    lemma_dec_rep_digits(v as int);
    lemma_dec_val_of_rep(v as int);
    lemma_skip_split(s, pos, rep, rest);
    lemma_skip_index(s, pos, rep, rest);
    let e = pos + rep.len();
    assert forall|j: int| pos <= j < e implies is_digit(#[trigger] s[j]) by {
        assert(s[pos + (j - pos)] == rep[j - pos]);
    }
    assert(s[e] == rest[0]) by {
        assert(s.skip(e)[0] == s[e]);
    }
    lemma_digits_end_at(s, pos, e);
    assert(s.subrange(pos, e) =~= rep);
}

/// Reading a hexadecimal digit back gives its value.
proof fn lemma_hex_val_of_digit(d: int)
    requires
        0 <= d < 16,
    ensures
        hex_val(hex_digit(d)) == d,
{
    if d < 10 {
        crate::digits::lemma_digit_char_val(d);
    }
}

/// An escaped string at `pos`, closed by a quote, reads back as itself.
proof fn lemma_dec_string_of_enc(s: Seq<char>, pos: int, k: Seq<char>, rest: Seq<char>)
    requires
        0 <= pos <= s.len(),
        s.skip(pos) == enc_str(k) + seq!['"'] + rest,
    ensures
        dec_string(s, pos) == Some((k, pos + enc_str(k).len() + 1)),
        s.skip(pos + enc_str(k).len() + 1) == rest,
    decreases k.len(),
{
    broadcast use vstd::utf8::char_u32_cast;

    if k.len() == 0 {
        assert(enc_str(k) + seq!['"'] + rest =~= seq!['"'] + rest);
        lemma_skip_split(s, pos, seq!['"'], rest);
        assert(s[pos] == s.skip(pos)[0]);
        assert(s[pos] == '"');
        assert(k =~= Seq::<char>::empty());
    } else {
        let c = k[0];
        let kt = k.drop_first();
        let esc = esc_char(c);
        assert(enc_str(k) == esc + enc_str(kt));
        let tail = enc_str(kt) + seq!['"'] + rest;
        assert(s.skip(pos) =~= esc + tail);
        lemma_skip_split(s, pos, esc, tail);
        lemma_skip_index(s, pos, esc, tail);
        lemma_dec_string_of_enc(s, pos + esc.len(), kt, rest);
        assert(s[pos + 0] == esc[0]);
        if c == '"' {
            assert(s[pos] == '\\' && s[pos + 1] == '"');
            assert(seq![s[pos + 1]] + kt =~= k);
        } else if c == '\\' {
            assert(s[pos] == '\\' && s[pos + 1] == '\\');
            assert(seq![s[pos + 1]] + kt =~= k);
        } else if (c as u32) < 32 {
            let cu = c as u32 as int;
            assert(s[pos] == '\\' && s[pos + 1] == 'u' && s[pos + 2] == '0' && s[pos + 3] == '0');
            assert(s[pos + 4] == hex_digit(cu / 16) && s[pos + 5] == hex_digit(cu % 16));
            lemma_hex_val_of_digit(cu / 16);
            lemma_hex_val_of_digit(cu % 16);
            assert(hex_val(s[pos + 4]) * 16 + hex_val(s[pos + 5]) == cu);
            let v = (hex_val(s[pos + 4]) * 16 + hex_val(s[pos + 5])) as u32;
            assert(v == c as u32);
            vstd::utf8::char_u32_cast(c, v);
            assert((v as char) == c);
            assert(seq![v as char] + kt =~= k);
        } else {
            assert(s[pos] == c);
            assert(s[pos] != '"' && s[pos] != '\\');
            assert(seq![s[pos]] + kt =~= k);
        }
    }
}

/// An encoded aggregate object at `pos` reads back as the aggregate.
#[verifier::rlimit(100)]
proof fn lemma_dec_stats_obj_of_enc(s: Seq<char>, pos: int, st: CommandStats, rest: Seq<char>)
    requires
        stats_wf(st),
        0 <= pos <= s.len(),
        s.skip(pos) == enc_stats_obj(st) + rest,
        rest.len() > 0,
        !is_digit(rest[0]),
    ensures
        dec_stats_obj(s, pos) == Some((st, pos + enc_stats_obj(st).len())),
        s.skip(pos + enc_stats_obj(st).len()) == rest,
{
    reveal_strlit(",\n    \"total_duration\": ");
    reveal_strlit(",\n    \"last_run_duration\": ");
    reveal_strlit(",\n    \"success_count\": ");
    reveal_strlit(",\n    \"fail_count\": ");
    reveal_strlit("\n  }");
    let l_count = "{\n    \"count\": "@;
    let l_td = ",\n    \"total_duration\": "@;
    let l_lrd = ",\n    \"last_run_duration\": "@;
    let l_sc = ",\n    \"success_count\": "@;
    let l_fc = ",\n    \"fail_count\": "@;
    let l_close = "\n  }"@;
    let r_count = dec_rep(st.count as int);
    let r_td = dec_rep(st.total_duration as int);
    let r_lrd = dec_rep(st.last_run_duration as int);
    let r_sc = dec_rep(st.success_count as int);
    let r_fc = dec_rep(st.fail_count as int);
    assert(s.skip(pos) =~= l_count + (r_count + (l_td + (r_td + (l_lrd + (r_lrd + (l_sc + (r_sc + (
    l_fc + (r_fc + (l_close + rest)))))))))));
    lemma_eat_lit_at(s, pos, l_count, r_count + (l_td + (r_td + (l_lrd + (r_lrd + (l_sc + (r_sc + (
    l_fc + (r_fc + (l_close + rest))))))))));
    let p1 = pos + l_count.len();
    assert(!is_digit(l_td[0]));
    lemma_dec_num_of_rep(s, p1, st.count, l_td + (r_td + (l_lrd + (r_lrd + (l_sc + (r_sc + (l_fc + (
    r_fc + (l_close + rest)))))))));
    let p2 = p1 + r_count.len();
    lemma_eat_lit_at(s, p2, l_td, r_td + (l_lrd + (r_lrd + (l_sc + (r_sc + (l_fc + (r_fc + (l_close
        + rest))))))));
    let p3 = p2 + l_td.len();
    assert(!is_digit(l_lrd[0]));
    lemma_dec_num_of_rep(s, p3, st.total_duration, l_lrd + (r_lrd + (l_sc + (r_sc + (l_fc + (r_fc
        + (l_close + rest)))))));
    let p4 = p3 + r_td.len();
    lemma_eat_lit_at(s, p4, l_lrd, r_lrd + (l_sc + (r_sc + (l_fc + (r_fc + (l_close + rest))))));
    let p5 = p4 + l_lrd.len();
    assert(!is_digit(l_sc[0]));
    lemma_dec_num_of_rep(s, p5, st.last_run_duration, l_sc + (r_sc + (l_fc + (r_fc + (l_close
        + rest)))));
    let p6 = p5 + r_lrd.len();
    lemma_eat_lit_at(s, p6, l_sc, r_sc + (l_fc + (r_fc + (l_close + rest))));
    let p7 = p6 + l_sc.len();
    assert(!is_digit(l_fc[0]));
    lemma_dec_num_of_rep(s, p7, st.success_count, l_fc + (r_fc + (l_close + rest)));
    let p8 = p7 + r_sc.len();
    lemma_eat_lit_at(s, p8, l_fc, r_fc + (l_close + rest));
    let p9 = p8 + l_fc.len();
    assert(!is_digit(l_close[0]));
    lemma_dec_num_of_rep(s, p9, st.fail_count, l_close + rest);
    let p10 = p9 + r_fc.len();
    lemma_eat_lit_at(s, p10, l_close, rest);
    let p11 = p10 + l_close.len();
    assert(p11 == pos + enc_stats_obj(st).len());
    assert(dec_stats_obj(s, pos) == Some((st, p11)));
}

/// An encoded entry at `pos` reads back as the entry.
proof fn lemma_dec_entry_of_enc(
    s: Seq<char>,
    pos: int,
    k: Seq<char>,
    st: CommandStats,
    rest: Seq<char>,
)
    requires
        stats_wf(st),
        0 <= pos <= s.len(),
        s.skip(pos) == enc_entry(k, st) + rest,
        rest.len() > 0,
        !is_digit(rest[0]),
    ensures
        dec_entry(s, pos) == Some(((k, st), pos + enc_entry(k, st).len())),
        s.skip(pos + enc_entry(k, st).len()) == rest,
{
    let l_open = "  \""@;
    let l_colon = ": "@;
    assert(s.skip(pos) =~= l_open + ((enc_str(k) + seq!['"']) + (l_colon + (enc_stats_obj(st)
        + rest))));
    lemma_eat_lit_at(s, pos, l_open, (enc_str(k) + seq!['"']) + (l_colon + (enc_stats_obj(st)
        + rest)));
    let p1 = pos + l_open.len();
    assert(s.skip(p1) =~= enc_str(k) + seq!['"'] + (l_colon + (enc_stats_obj(st) + rest)));
    lemma_dec_string_of_enc(s, p1, k, l_colon + (enc_stats_obj(st) + rest));
    let p2 = p1 + enc_str(k).len() + 1;
    lemma_eat_lit_at(s, p2, l_colon, enc_stats_obj(st) + rest);
    let p3 = p2 + l_colon.len();
    lemma_dec_stats_obj_of_enc(s, p3, st, rest);
    let p4 = p3 + enc_stats_obj(st).len();
    assert(p4 == pos + enc_entry(k, st).len());
}

/// An encoded entry list at `pos`, followed by a line break, reads back as
/// the entries.
proof fn lemma_dec_entries_of_enc(
    s: Seq<char>,
    pos: int,
    m: Seq<(Seq<char>, CommandStats)>,
    rest: Seq<char>,
)
    requires
        m.len() >= 1,
        forall|i: int| 0 <= i < m.len() ==> stats_wf((#[trigger] m[i]).1),
        0 <= pos <= s.len(),
        s.skip(pos) == enc_entries(m) + rest,
        rest.len() > 0,
        rest[0] == '\n',
    ensures
        dec_entries(s, pos) == Some((m, pos + enc_entries(m).len())),
        s.skip(pos + enc_entries(m).len()) == rest,
    decreases m.len(),
{
    reveal_strlit(",\n");
    let l_sep = ",\n"@;
    assert(!is_digit('\n')) by {
        assert('\n' as u32 == 10);
    }
    if m.len() == 1 {
        assert(s.skip(pos) =~= enc_entry(m[0].0, m[0].1) + rest);
        lemma_dec_entry_of_enc(s, pos, m[0].0, m[0].1, rest);
        let p = pos + enc_entry(m[0].0, m[0].1).len();
        assert(eat_lit(s, p, l_sep) == None::<int>) by {
            if p + 2 <= s.len() {
                assert(s.subrange(p, p + 2)[0] == s.skip(p)[0]);
                assert(s.skip(p)[0] == rest[0]);
            }
        }
        assert(seq![m[0]] =~= m);
    } else {
        let mt = m.drop_first();
        assert(s.skip(pos) =~= enc_entry(m[0].0, m[0].1) + (l_sep + (enc_entries(mt) + rest)));
        lemma_dec_entry_of_enc(s, pos, m[0].0, m[0].1, l_sep + (enc_entries(mt) + rest));
        let p = pos + enc_entry(m[0].0, m[0].1).len();
        lemma_eat_lit_at(s, p, l_sep, enc_entries(mt) + rest);
        let p2 = p + 2;
        assert(forall|i: int| 0 <= i < mt.len() ==> mt[i] == m[i + 1]);
        lemma_dec_entries_of_enc(s, p2, mt, rest);
        assert(seq![m[0]] + mt =~= m);
    }
}

/// The persistence round trip: any well-formed aggregated-statistics map,
/// the empty one included, decodes from its own encoding to itself.
pub proof fn lemma_decode_of_encode(m: Seq<(Seq<char>, CommandStats)>)
    requires
        ledger_wf(m),
    ensures
        dec_doc(enc_doc(m)) == Some(m),
{
    if m.len() == 0 {
        assert(m =~= Seq::<(Seq<char>, CommandStats)>::empty());
    } else {
        reveal_strlit("{}");
        let s = enc_doc(m);
        let l_open = "{\n"@;
        let l_close = "\n}"@;
        reveal_strlit("{\n");
        reveal_strlit("\n}");
        assert(enc_entries(m).len() >= 1) by {
            assert(enc_entry(m[0].0, m[0].1).len() >= 1);
        }
        assert(s.len() >= 5);
        assert(s != "{}"@);
        assert(s.skip(0) =~= l_open + (enc_entries(m) + l_close));
        lemma_eat_lit_at(s, 0, l_open, enc_entries(m) + l_close);
        let p = l_open.len() as int;
        lemma_dec_entries_of_enc(s, p, m, l_close);
        let p2 = p + enc_entries(m).len();
        lemma_eat_lit_at(s, p2, l_close, Seq::<char>::empty());
        let p3 = p2 + l_close.len();
        assert(s.skip(p2) =~= l_close + Seq::<char>::empty());
        assert(p3 == s.len());
    }
}

} // verus!
