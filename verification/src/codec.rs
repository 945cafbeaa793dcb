use vstd::prelude::*;
use crate::numfmt::{
    all_dec_digits, dec_val, is_dec_digit, lemma_digits_canonical, lemma_digits_val,
    lemma_spec_digits_shape, parse_id_chars, push_digits, spec_digits, spec_parse_id,
};
use crate::strutil::{chars_to_string, push_str_chars, str_to_chars};
use crate::types::{msg_tuple, Message};

verus! {

// ------------------------------------------------------------------
// The record format. A message is persisted as one JSON object with the
// fields in a fixed order; inside string fields `"` and `\` are escaped
// with a backslash, the control characters as `\n`, `\r`, `\t` or
// `\u00xx`, and everything else is stored verbatim.
// `parse_message` accepts exactly the records `encode_message` writes:
// anything else is treated as corrupt and silently discarded by the
// loading path.
// ------------------------------------------------------------------
/// The lowercase hex digit for a value below 16.
pub open spec fn hex_lo_char(d: int) -> char {
    if d == 0 {
        '0'
    } else if d == 1 {
        '1'
    } else if d == 2 {
        '2'
    } else if d == 3 {
        '3'
    } else if d == 4 {
        '4'
    } else if d == 5 {
        '5'
    } else if d == 6 {
        '6'
    } else if d == 7 {
        '7'
    } else if d == 8 {
        '8'
    } else if d == 9 {
        '9'
    } else if d == 10 {
        'a'
    } else if d == 11 {
        'b'
    } else if d == 12 {
        'c'
    } else if d == 13 {
        'd'
    } else if d == 14 {
        'e'
    } else {
        'f'
    }
}

pub open spec fn is_hex_lo(c: char) -> bool {
    ('0' <= c && c <= '9') || ('a' <= c && c <= 'f')
}

pub open spec fn hex_val(c: char) -> int {
    if '0' <= c && c <= '9' {
        c as int - 48
    } else {
        c as int - 87
    }
}

/// The control character with the given value below 32.
pub open spec fn low_char(v: int) -> char {
    if v == 0 {
        '\u{00}'
    } else if v == 1 {
        '\u{01}'
    } else if v == 2 {
        '\u{02}'
    } else if v == 3 {
        '\u{03}'
    } else if v == 4 {
        '\u{04}'
    } else if v == 5 {
        '\u{05}'
    } else if v == 6 {
        '\u{06}'
    } else if v == 7 {
        '\u{07}'
    } else if v == 8 {
        '\u{08}'
    } else if v == 9 {
        '\u{09}'
    } else if v == 10 {
        '\u{0a}'
    } else if v == 11 {
        '\u{0b}'
    } else if v == 12 {
        '\u{0c}'
    } else if v == 13 {
        '\u{0d}'
    } else if v == 14 {
        '\u{0e}'
    } else if v == 15 {
        '\u{0f}'
    } else if v == 16 {
        '\u{10}'
    } else if v == 17 {
        '\u{11}'
    } else if v == 18 {
        '\u{12}'
    } else if v == 19 {
        '\u{13}'
    } else if v == 20 {
        '\u{14}'
    } else if v == 21 {
        '\u{15}'
    } else if v == 22 {
        '\u{16}'
    } else if v == 23 {
        '\u{17}'
    } else if v == 24 {
        '\u{18}'
    } else if v == 25 {
        '\u{19}'
    } else if v == 26 {
        '\u{1a}'
    } else if v == 27 {
        '\u{1b}'
    } else if v == 28 {
        '\u{1c}'
    } else if v == 29 {
        '\u{1d}'
    } else if v == 30 {
        '\u{1e}'
    } else {
        '\u{1f}'
    }
}

/// What a one-letter escape code after a backslash stands for.
pub open spec fn esc_code(c: char) -> Option<char> {
    if c == '"' {
        Some('"')
    } else if c == '\\' {
        Some('\\')
    } else if c == 'n' {
        Some('\n')
    } else if c == 'r' {
        Some('\r')
    } else if c == 't' {
        Some('\t')
    } else {
        None
    }
}

pub open spec fn esc_char(c: char) -> Seq<char> {
    if c == '"' {
        seq!['\\', '"']
    } else if c == '\\' {
        seq!['\\', '\\']
    } else if c == '\n' {
        seq!['\\', 'n']
    } else if c == '\r' {
        seq!['\\', 'r']
    } else if c == '\t' {
        seq!['\\', 't']
    } else if (c as u32) < 32 {
        seq!['\\', 'u', '0', '0', hex_lo_char((c as u32) as int / 16), hex_lo_char(
            (c as u32) as int % 16,
        )]
    } else {
        seq![c]
    }
}

proof fn lemma_hex_round(d: int)
    requires
        0 <= d < 16,
    ensures
        is_hex_lo(hex_lo_char(d)),
        hex_val(hex_lo_char(d)) == d,
{
}

proof fn lemma_hex_back(c: char)
    requires
        is_hex_lo(c),
    ensures
        0 <= hex_val(c) < 16,
        hex_lo_char(hex_val(c)) == c,
{
}

proof fn lemma_low_char_round(v: int)
    requires
        0 <= v < 32,
    ensures
        low_char(v) as u32 == v,
{
}

proof fn lemma_low_char_back(c: char)
    requires
        (c as u32) < 32,
    ensures
        low_char((c as u32) as int) == c,
{
    lemma_low_char_round((c as u32) as int);
}

pub open spec fn spec_escape(s: Seq<char>) -> Seq<char>
    decreases s.len(),
{
    if s.len() == 0 {
        Seq::empty()
    } else {
        esc_char(s[0]) + spec_escape(s.skip(1))
    }
}

/// The one record form of a message with the given id and field contents.
pub open spec fn spec_encode_fields(
    id: usize,
    room: Seq<char>,
    user: Seq<char>,
    user_iv: Seq<char>,
    content: Seq<char>,
    iv: Seq<char>,
    timestamp: Seq<char>,
) -> Seq<char> {
    "{\"id\":"@ + (spec_digits(id as nat) + (",\"room\":\""@ + (spec_escape(room)
        + ("\",\"user\":\""@ + (spec_escape(user) + ("\",\"user_iv\":\""@ + (spec_escape(user_iv)
        + ("\",\"content\":\""@ + (spec_escape(content) + ("\",\"iv\":\""@ + (spec_escape(iv)
        + ("\",\"timestamp\":\""@ + (spec_escape(timestamp) + "\"}"@)))))))))))))
}

pub open spec fn spec_encode_message(m: Message) -> Seq<char> {
    spec_encode_fields(m.id, m.room@, m.user@, m.user_iv@, m.content@, m.iv@, m.timestamp@)
}

fn hex_lo(d: u32) -> (c: char)
    requires
        d < 16,
    ensures
        c == hex_lo_char(d as int),
{
    if d == 0 {
        '0'
    } else if d == 1 {
        '1'
    } else if d == 2 {
        '2'
    } else if d == 3 {
        '3'
    } else if d == 4 {
        '4'
    } else if d == 5 {
        '5'
    } else if d == 6 {
        '6'
    } else if d == 7 {
        '7'
    } else if d == 8 {
        '8'
    } else if d == 9 {
        '9'
    } else if d == 10 {
        'a'
    } else if d == 11 {
        'b'
    } else if d == 12 {
        'c'
    } else if d == 13 {
        'd'
    } else if d == 14 {
        'e'
    } else {
        'f'
    }
}

fn hex_val_exec(c: char) -> (r: Option<u32>)
    ensures
        r is Some <==> is_hex_lo(c),
        r matches Some(v) ==> v == hex_val(c) && v < 16,
{
    if '0' <= c && c <= '9' {
        Some(c as u32 - 48)
    } else if 'a' <= c && c <= 'f' {
        Some(c as u32 - 87)
    } else {
        None
    }
}

fn esc_code_exec(c: char) -> (r: Option<char>)
    ensures
        r == esc_code(c),
{
    if c == '"' {
        Some('"')
    } else if c == '\\' {
        Some('\\')
    } else if c == 'n' {
        Some('\n')
    } else if c == 'r' {
        Some('\r')
    } else if c == 't' {
        Some('\t')
    } else {
        None
    }
}

fn low_char_exec(v: u32) -> (c: char)
    requires
        v < 32,
    ensures
        c == low_char(v as int),
{
    if v == 0 {
        '\u{00}'
    } else if v == 1 {
        '\u{01}'
    } else if v == 2 {
        '\u{02}'
    } else if v == 3 {
        '\u{03}'
    } else if v == 4 {
        '\u{04}'
    } else if v == 5 {
        '\u{05}'
    } else if v == 6 {
        '\u{06}'
    } else if v == 7 {
        '\u{07}'
    } else if v == 8 {
        '\u{08}'
    } else if v == 9 {
        '\u{09}'
    } else if v == 10 {
        '\u{0a}'
    } else if v == 11 {
        '\u{0b}'
    } else if v == 12 {
        '\u{0c}'
    } else if v == 13 {
        '\u{0d}'
    } else if v == 14 {
        '\u{0e}'
    } else if v == 15 {
        '\u{0f}'
    } else if v == 16 {
        '\u{10}'
    } else if v == 17 {
        '\u{11}'
    } else if v == 18 {
        '\u{12}'
    } else if v == 19 {
        '\u{13}'
    } else if v == 20 {
        '\u{14}'
    } else if v == 21 {
        '\u{15}'
    } else if v == 22 {
        '\u{16}'
    } else if v == 23 {
        '\u{17}'
    } else if v == 24 {
        '\u{18}'
    } else if v == 25 {
        '\u{19}'
    } else if v == 26 {
        '\u{1a}'
    } else if v == 27 {
        '\u{1b}'
    } else if v == 28 {
        '\u{1c}'
    } else if v == 29 {
        '\u{1d}'
    } else if v == 30 {
        '\u{1e}'
    } else {
        '\u{1f}'
    }
}

/// Appends the escaped form of `s` to `out`.
fn escape_into(out: &mut Vec<char>, s: &str)
    ensures
        final(out)@ == old(out)@ + spec_escape(s@),
{
    let cs = str_to_chars(s);
    let n = cs.len();
    let mut i: usize = 0;
    assert(cs@.skip(0) =~= cs@);
    while i < n
        invariant
            cs@ == s@,
            n == cs@.len(),
            0 <= i <= n,
            out@ + spec_escape(cs@.skip(i as int)) == old(out)@ + spec_escape(cs@),
        decreases n - i,
    {
        let ghost o0 = out@;
        let ghost si = cs@.skip(i as int);
        let c = cs[i];
        assert(si.len() > 0 && si[0] == c);
        assert(si.skip(1) =~= cs@.skip(i + 1));
        if c == '"' {
            out.push('\\');
            out.push('"');
        } else if c == '\\' {
            out.push('\\');
            out.push('\\');
        } else if c == '\n' {
            out.push('\\');
            out.push('n');
        } else if c == '\r' {
            out.push('\\');
            out.push('r');
        } else if c == '\t' {
            out.push('\\');
            out.push('t');
        } else if (c as u32) < 32 {
            let v = c as u32;
            out.push('\\');
            out.push('u');
            out.push('0');
            out.push('0');
            out.push(hex_lo(v / 16));
            out.push(hex_lo(v % 16));
        } else {
            out.push(c);
        }
        assert(out@ =~= o0 + esc_char(c));
        assert(spec_escape(si) == esc_char(c) + spec_escape(cs@.skip(i + 1)));
        assert(out@ + spec_escape(cs@.skip(i + 1)) =~= o0 + spec_escape(si));
        i = i + 1;
    }
    assert(cs@.skip(n as int) =~= Seq::<char>::empty());
    assert(out@ + spec_escape(cs@.skip(n as int)) =~= out@);
}

#[verifier::rlimit(100)]
#[verifier::spinoff_prover]
proof fn lemma_concat15(
    a1: Seq<char>,
    a2: Seq<char>,
    a3: Seq<char>,
    a4: Seq<char>,
    a5: Seq<char>,
    a6: Seq<char>,
    a7: Seq<char>,
    a8: Seq<char>,
    a9: Seq<char>,
    a10: Seq<char>,
    a11: Seq<char>,
    a12: Seq<char>,
    a13: Seq<char>,
    a14: Seq<char>,
    a15: Seq<char>,
)
    ensures
        a1 + a2 + a3 + a4 + a5 + a6 + a7 + a8 + a9 + a10 + a11 + a12 + a13 + a14 + a15 == a1 + (a2
            + (a3 + (a4 + (a5 + (a6 + (a7 + (a8 + (a9 + (a10 + (a11 + (a12 + (a13 + (a14
            + a15))))))))))))),
{
    assert(a1 + a2 + a3 + a4 + a5 + a6 + a7 + a8 + a9 + a10 + a11 + a12 + a13 + a14 + a15 =~= a1 + (
    a2 + (a3 + (a4 + (a5 + (a6 + (a7 + (a8 + (a9 + (a10 + (a11 + (a12 + (a13 + (a14
        + a15))))))))))))));
}

/// Renders a message as its one persistent record form.
pub fn encode_message(m: &Message) -> (r: String)
    ensures
        r@ == spec_encode_message(*m),
{
    let mut out: Vec<char> = Vec::new();
    assert(out@ =~= Seq::<char>::empty());
    push_str_chars(&mut out, "{\"id\":");
    assert(out@ =~= "{\"id\":"@);
    push_digits(m.id as u64, &mut out);
    push_str_chars(&mut out, ",\"room\":\"");
    escape_into(&mut out, m.room.as_str());
    push_str_chars(&mut out, "\",\"user\":\"");
    escape_into(&mut out, m.user.as_str());
    push_str_chars(&mut out, "\",\"user_iv\":\"");
    escape_into(&mut out, m.user_iv.as_str());
    push_str_chars(&mut out, "\",\"content\":\"");
    escape_into(&mut out, m.content.as_str());
    push_str_chars(&mut out, "\",\"iv\":\"");
    escape_into(&mut out, m.iv.as_str());
    push_str_chars(&mut out, "\",\"timestamp\":\"");
    escape_into(&mut out, m.timestamp.as_str());
    push_str_chars(&mut out, "\"}");
    proof {
        lemma_concat15(
            "{\"id\":"@,
            spec_digits(m.id as nat),
            ",\"room\":\""@,
            spec_escape(m.room@),
            "\",\"user\":\""@,
            spec_escape(m.user@),
            "\",\"user_iv\":\""@,
            spec_escape(m.user_iv@),
            "\",\"content\":\""@,
            spec_escape(m.content@),
            "\",\"iv\":\""@,
            spec_escape(m.iv@),
            "\",\"timestamp\":\""@,
            spec_escape(m.timestamp@),
            "\"}"@,
        );
    }
    chars_to_string(out)
}

// ------------------------------------------------------------------
// The parsing grammar, as total specification functions, each consuming
// a prefix of the input and handing back the remaining suffix.
// ------------------------------------------------------------------
/// Consume `lit` verbatim.
pub open spec fn spec_expect(s: Seq<char>, lit: Seq<char>) -> Option<Seq<char>> {
    if lit.len() <= s.len() && s.take(lit.len() as int) == lit {
        Some(s.skip(lit.len() as int))
    } else {
        None
    }
}

/// Consume an escaped string body, stopping at (not consuming) the first
/// unescaped quote. Exactly the canonical escapes are admitted: the five
/// short codes, and `\u00xx` only for a control character that has no
/// short code; a raw control character is refused.
pub open spec fn spec_parse_body(s: Seq<char>) -> Option<(Seq<char>, Seq<char>)>
    decreases s.len(),
{
    if s.len() == 0 {
        None
    } else if s[0] == '"' {
        Some((Seq::empty(), s))
    } else if s[0] == '\\' {
        if s.len() >= 2 && esc_code(s[1]) is Some {
            prepend_body(seq![esc_code(s[1]).unwrap()], spec_parse_body(s.skip(2)))
        } else if s.len() >= 6 && s[1] == 'u' && s[2] == '0' && s[3] == '0' && is_hex_lo(s[4])
            && is_hex_lo(s[5]) && ({
            let v = hex_val(s[4]) * 16 + hex_val(s[5]);
            v < 32 && v != 9 && v != 10 && v != 13
        }) {
            prepend_body(
                seq![low_char(hex_val(s[4]) * 16 + hex_val(s[5]))],
                spec_parse_body(s.skip(6)),
            )
        } else {
            None
        }
    } else if (s[0] as u32) < 32 {
        None
    } else {
        prepend_body(seq![s[0]], spec_parse_body(s.skip(1)))
    }
}

pub open spec fn prepend_body(p: Seq<char>, o: Option<(Seq<char>, Seq<char>)>) -> Option<
    (Seq<char>, Seq<char>),
> {
    match o {
        Some((f, r)) => Some((p + f, r)),
        None => None,
    }
}

/// The maximal digit prefix of `s`.
pub open spec fn spec_take_digits(s: Seq<char>) -> Seq<char>
    decreases s.len(),
{
    if s.len() > 0 && is_dec_digit(s[0]) {
        seq![s[0]] + spec_take_digits(s.skip(1))
    } else {
        Seq::empty()
    }
}

/// Consume a canonical decimal number: maximal digit run, non-empty, no
/// leading zero, value within `usize`.
pub open spec fn spec_parse_number(s: Seq<char>) -> Option<(usize, Seq<char>)> {
    let d = spec_take_digits(s);
    if d.len() > 0 && (d.len() > 1 ==> d[0] != '0') && dec_val(d) <= usize::MAX as int {
        Some((dec_val(d) as usize, s.skip(d.len() as int)))
    } else {
        None
    }
}

/// The whole record: each field in order, nothing left over.
pub open spec fn spec_parse_fields(s: Seq<char>) -> Option<
    (usize, Seq<char>, Seq<char>, Seq<char>, Seq<char>, Seq<char>, Seq<char>),
> {
    match spec_expect(s, "{\"id\":"@) {
        None => None,
        Some(s1) => match spec_parse_number(s1) {
            None => None,
            Some((id, s2)) => match spec_expect(s2, ",\"room\":\""@) {
                None => None,
                Some(s3) => match spec_parse_body(s3) {
                    None => None,
                    Some((room, s4)) => match spec_expect(s4, "\",\"user\":\""@) {
                        None => None,
                        Some(s5) => match spec_parse_body(s5) {
                            None => None,
                            Some((user, s6)) => match spec_expect(s6, "\",\"user_iv\":\""@) {
                                None => None,
                                Some(s7) => match spec_parse_body(s7) {
                                    None => None,
                                    Some((user_iv, s8)) => match spec_expect(
                                        s8,
                                        "\",\"content\":\""@,
                                    ) {
                                        None => None,
                                        Some(s9) => match spec_parse_body(s9) {
                                            None => None,
                                            Some((content, s10)) => match spec_expect(
                                                s10,
                                                "\",\"iv\":\""@,
                                            ) {
                                                None => None,
                                                Some(s11) => match spec_parse_body(s11) {
                                                    None => None,
                                                    Some((iv, s12)) => match spec_expect(
                                                        s12,
                                                        "\",\"timestamp\":\""@,
                                                    ) {
                                                        None => None,
                                                        Some(s13) => match spec_parse_body(s13) {
                                                            None => None,
                                                            Some((timestamp, s14)) => match spec_expect(
                                                                s14,
                                                                "\"}"@,
                                                            ) {
                                                                None => None,
                                                                Some(s15) => if s15.len() == 0 {
                                                                    Some(
                                                                        (
                                                                            id,
                                                                            room,
                                                                            user,
                                                                            user_iv,
                                                                            content,
                                                                            iv,
                                                                            timestamp,
                                                                        ),
                                                                    )
                                                                } else {
                                                                    None
                                                                },
                                                            },
                                                        },
                                                    },
                                                },
                                            },
                                        },
                                    },
                                },
                            },
                        },
                    },
                },
            },
        },
    }
}

// ------------------------------------------------------------------
// Round-trip lemmas: the grammar consumes exactly what the encoder
// produced, piece by piece.
// ------------------------------------------------------------------
proof fn lemma_prepend_prepend(a: Seq<char>, b: Seq<char>, o: Option<(Seq<char>, Seq<char>)>)
    ensures
        prepend_body(a, prepend_body(b, o)) == prepend_body(a + b, o),
{
    match o {
        Some((f, r)) => {
            assert(a + (b + f) =~= (a + b) + f);
        },
        None => {},
    }
}

proof fn lemma_expect_prefix(lit: Seq<char>, tail: Seq<char>)
    ensures
        spec_expect(lit + tail, lit) == Some(tail),
{
    let s = lit + tail;
    assert(s.take(lit.len() as int) =~= lit);
    assert(s.skip(lit.len() as int) =~= tail);
}

proof fn lemma_expect_sound(s: Seq<char>, lit: Seq<char>)
    requires
        spec_expect(s, lit) is Some,
    ensures
        s == lit + spec_expect(s, lit)->Some_0,
{
    assert(s =~= s.take(lit.len() as int) + s.skip(lit.len() as int));
}

proof fn lemma_body_complete(f: Seq<char>, rest: Seq<char>)
    requires
        rest.len() > 0,
        rest[0] == '"',
    ensures
        spec_parse_body(spec_escape(f) + rest) == Some((f, rest)),
    decreases f.len(),
{
    let s = spec_escape(f) + rest;
    if f.len() == 0 {
        assert(spec_escape(f) =~= Seq::<char>::empty());
        assert(s =~= rest);
        assert(spec_parse_body(s) == Some((Seq::<char>::empty(), s)));
    } else {
        let c = f[0];
        let e = esc_char(c);
        let tail = spec_escape(f.skip(1)) + rest;
        assert(s =~= e + tail);
        lemma_body_complete(f.skip(1), rest);
        if c == '"' || c == '\\' || c == '\n' || c == '\r' || c == '\t' {
            assert(s[0] == '\\');
            assert(esc_code(s[1]) == Some(c));
            assert(s.skip(2) =~= tail);
            assert(seq![esc_code(s[1]).unwrap()] + f.skip(1) =~= f);
        } else if (c as u32) < 32 {
            let v = (c as u32) as int;
            assert(s[0] == '\\' && s[1] == 'u' && s[2] == '0' && s[3] == '0');
            assert(s[4] == hex_lo_char(v / 16) && s[5] == hex_lo_char(v % 16));
            lemma_hex_round(v / 16);
            lemma_hex_round(v % 16);
            assert(esc_code('u') is None);
            assert(hex_val(s[4]) * 16 + hex_val(s[5]) == v);
            lemma_low_char_back(c);
            assert(s.skip(6) =~= tail);
            assert(seq![low_char(v)] + f.skip(1) =~= f);
        } else {
            assert(s[0] == c);
            assert(s.skip(1) =~= tail);
            assert(seq![s[0]] + f.skip(1) =~= f);
        }
    }
}

proof fn lemma_body_sound(s: Seq<char>)
    requires
        spec_parse_body(s) is Some,
    ensures
        s == spec_escape(spec_parse_body(s)->Some_0.0) + spec_parse_body(s)->Some_0.1,
        spec_parse_body(s)->Some_0.1.len() > 0,
        spec_parse_body(s)->Some_0.1[0] == '"',
    decreases s.len(),
{
    let (f, r) = spec_parse_body(s)->Some_0;
    if s[0] == '"' {
        assert(f =~= Seq::<char>::empty());
        assert(spec_escape(f) =~= Seq::<char>::empty());
        assert(s =~= spec_escape(f) + r);
    } else if s[0] == '\\' {
        if s.len() >= 2 && esc_code(s[1]) is Some {
            lemma_body_sound(s.skip(2));
            let (f2, r2) = spec_parse_body(s.skip(2))->Some_0;
            let d = esc_code(s[1]).unwrap();
            assert(f == seq![d] + f2 && r == r2);
            assert(f[0] == d);
            assert(f.skip(1) =~= f2);
            assert(esc_char(d) =~= seq![s[0], s[1]]);
            assert(spec_escape(f) == esc_char(f[0]) + spec_escape(f2));
            assert(s =~= seq![s[0], s[1]] + s.skip(2));
            assert(s =~= spec_escape(f) + r);
        } else {
            // the \u00xx form, for a control character with no short code
            lemma_body_sound(s.skip(6));
            let (f2, r2) = spec_parse_body(s.skip(6))->Some_0;
            let v = hex_val(s[4]) * 16 + hex_val(s[5]);
            let d = low_char(v);
            assert(f == seq![d] + f2 && r == r2);
            assert(f[0] == d);
            assert(f.skip(1) =~= f2);
            lemma_hex_back(s[4]);
            lemma_hex_back(s[5]);
            lemma_low_char_round(v);
            assert((d as u32) as int == v);
            assert(d != '"' && d != '\\' && d != '\n' && d != '\r' && d != '\t');
            assert(v / 16 == hex_val(s[4]) && v % 16 == hex_val(s[5])) by {
                assert(0 <= hex_val(s[5]) < 16);
                assert((hex_val(s[4]) * 16 + hex_val(s[5])) / 16 == hex_val(s[4]))
                    by (nonlinear_arith)
                    requires 0 <= hex_val(s[5]) < 16;
                assert((hex_val(s[4]) * 16 + hex_val(s[5])) % 16 == hex_val(s[5]))
                    by (nonlinear_arith)
                    requires 0 <= hex_val(s[5]) < 16;
            }
            assert(esc_char(d) =~= seq![s[0], s[1], s[2], s[3], s[4], s[5]]);
            assert(spec_escape(f) == esc_char(f[0]) + spec_escape(f2));
            assert(s =~= seq![s[0], s[1], s[2], s[3], s[4], s[5]] + s.skip(6));
            assert(s =~= spec_escape(f) + r);
        }
    } else {
        lemma_body_sound(s.skip(1));
        let (f2, r2) = spec_parse_body(s.skip(1))->Some_0;
        assert(f == seq![s[0]] + f2 && r == r2);
        assert(f[0] == s[0]);
        assert(f.skip(1) =~= f2);
        assert(esc_char(f[0]) =~= seq![s[0]]);
        assert(spec_escape(f) == esc_char(f[0]) + spec_escape(f2));
        assert(s =~= seq![s[0]] + s.skip(1));
        assert(s =~= spec_escape(f) + r);
    }
}

proof fn lemma_take_digits_app(d: Seq<char>, rest: Seq<char>)
    requires
        all_dec_digits(d),
        rest.len() > 0 ==> !is_dec_digit(rest[0]),
    ensures
        spec_take_digits(d + rest) == d,
    decreases d.len(),
{
    let s = d + rest;
    if d.len() == 0 {
        assert(s =~= rest);
        assert(spec_take_digits(s) =~= d);
    } else {
        assert(s[0] == d[0] && is_dec_digit(d[0]));
        assert(all_dec_digits(d.skip(1))) by {
            assert(forall|i: int|
                0 <= i < d.skip(1).len() ==> #[trigger] d.skip(1)[i] == d[i + 1]);
        }
        lemma_take_digits_app(d.skip(1), rest);
        assert(s.skip(1) =~= d.skip(1) + rest);
        assert(spec_take_digits(s) == seq![s[0]] + spec_take_digits(s.skip(1)));
        assert(seq![d[0]] + d.skip(1) =~= d);
    }
}

proof fn lemma_take_digits_sound(s: Seq<char>)
    ensures
        all_dec_digits(spec_take_digits(s)),
        spec_take_digits(s).len() <= s.len(),
        spec_take_digits(s) == s.take(spec_take_digits(s).len() as int),
        spec_take_digits(s).len() < s.len() ==> !is_dec_digit(
            s[spec_take_digits(s).len() as int],
        ),
    decreases s.len(),
{
    let d = spec_take_digits(s);
    if s.len() > 0 && is_dec_digit(s[0]) {
        lemma_take_digits_sound(s.skip(1));
        let d2 = spec_take_digits(s.skip(1));
        assert(d == seq![s[0]] + d2);
        assert(all_dec_digits(d)) by {
            assert(forall|i: int| 1 <= i < d.len() ==> #[trigger] d[i] == d2[i - 1]);
            assert(d[0] == s[0]);
        }
        assert(d =~= s.take(d.len() as int)) by {
            assert(d2 == s.skip(1).take(d2.len() as int));
            assert(forall|i: int|
                1 <= i < d.len() ==> #[trigger] d[i] == s.skip(1)[i - 1]);
        }
        if d.len() < s.len() {
            assert(s[d.len() as int] == s.skip(1)[d2.len() as int]);
        }
    } else {
        assert(d =~= s.take(0));
    }
}

proof fn lemma_number_complete(n: nat, rest: Seq<char>)
    requires
        n <= usize::MAX as nat,
        rest.len() > 0 ==> !is_dec_digit(rest[0]),
    ensures
        spec_parse_number(spec_digits(n) + rest) == Some((n as usize, rest)),
{
    let d = spec_digits(n);
    lemma_spec_digits_shape(n);
    lemma_digits_val(n);
    lemma_take_digits_app(d, rest);
    assert((d + rest).skip(d.len() as int) =~= rest);
}

proof fn lemma_number_sound(s: Seq<char>)
    requires
        spec_parse_number(s) is Some,
    ensures
        s == spec_digits(spec_parse_number(s)->Some_0.0 as nat) + spec_parse_number(s)->Some_0.1,
    decreases s.len(),
{
    let d = spec_take_digits(s);
    lemma_take_digits_sound(s);
    lemma_digits_canonical(d);
    assert(s =~= s.take(d.len() as int) + s.skip(d.len() as int));
}

/// Every record the encoder writes parses back to exactly its fields.
proof fn lemma_fields_complete(
    id: usize,
    room: Seq<char>,
    user: Seq<char>,
    user_iv: Seq<char>,
    content: Seq<char>,
    iv: Seq<char>,
    timestamp: Seq<char>,
)
    ensures
        spec_parse_fields(spec_encode_fields(id, room, user, user_iv, content, iv, timestamp))
            == Some((id, room, user, user_iv, content, iv, timestamp)),
{
    let l1 = "{\"id\":"@;
    let l2 = ",\"room\":\""@;
    let l3 = "\",\"user\":\""@;
    let l4 = "\",\"user_iv\":\""@;
    let l5 = "\",\"content\":\""@;
    let l6 = "\",\"iv\":\""@;
    let l7 = "\",\"timestamp\":\""@;
    let l8 = "\"}"@;
    reveal_strlit(",\"room\":\"");
    reveal_strlit("\",\"user\":\"");
    reveal_strlit("\",\"user_iv\":\"");
    reveal_strlit("\",\"content\":\"");
    reveal_strlit("\",\"iv\":\"");
    reveal_strlit("\",\"timestamp\":\"");
    reveal_strlit("\"}");
    let r14: Seq<char> = l8;
    let r13 = spec_escape(timestamp) + r14;
    let r12 = l7 + r13;
    let r11 = spec_escape(iv) + r12;
    let r10 = l6 + r11;
    let r9 = spec_escape(content) + r10;
    let r8 = l5 + r9;
    let r7 = spec_escape(user_iv) + r8;
    let r6 = l4 + r7;
    let r5 = spec_escape(user) + r6;
    let r4 = l3 + r5;
    let r3 = spec_escape(room) + r4;
    let r2 = l2 + r3;
    let r1 = spec_digits(id as nat) + r2;
    let s = spec_encode_fields(id, room, user, user_iv, content, iv, timestamp);
    assert(s == l1 + r1);
    lemma_expect_prefix(l1, r1);
    assert(r2[0] == ',' && !is_dec_digit(','));
    lemma_number_complete(id as nat, r2);
    lemma_expect_prefix(l2, r3);
    assert(r4[0] == '"');
    lemma_body_complete(room, r4);
    lemma_expect_prefix(l3, r5);
    assert(r6[0] == '"');
    lemma_body_complete(user, r6);
    lemma_expect_prefix(l4, r7);
    assert(r8[0] == '"');
    lemma_body_complete(user_iv, r8);
    lemma_expect_prefix(l5, r9);
    assert(r10[0] == '"');
    lemma_body_complete(content, r10);
    lemma_expect_prefix(l6, r11);
    assert(r12[0] == '"');
    lemma_body_complete(iv, r12);
    lemma_expect_prefix(l7, r13);
    assert(r14[0] == '"');
    lemma_body_complete(timestamp, r14);
    assert(r14 =~= l8 + Seq::<char>::empty());
    lemma_expect_prefix(l8, Seq::<char>::empty());
}

/// Anything the parser accepts is the encoding of what it returned.
proof fn lemma_fields_sound(s: Seq<char>)
    requires
        spec_parse_fields(s) is Some,
    ensures
        ({
            let t = spec_parse_fields(s)->Some_0;
            s == spec_encode_fields(t.0, t.1, t.2, t.3, t.4, t.5, t.6)
        }),
{
    let l1 = "{\"id\":"@;
    let l2 = ",\"room\":\""@;
    let l3 = "\",\"user\":\""@;
    let l4 = "\",\"user_iv\":\""@;
    let l5 = "\",\"content\":\""@;
    let l6 = "\",\"iv\":\""@;
    let l7 = "\",\"timestamp\":\""@;
    let l8 = "\"}"@;
    let s1 = spec_expect(s, l1)->Some_0;
    lemma_expect_sound(s, l1);
    let (id, s2) = spec_parse_number(s1)->Some_0;
    lemma_number_sound(s1);
    let s3 = spec_expect(s2, l2)->Some_0;
    lemma_expect_sound(s2, l2);
    let (room, s4) = spec_parse_body(s3)->Some_0;
    lemma_body_sound(s3);
    let s5 = spec_expect(s4, l3)->Some_0;
    lemma_expect_sound(s4, l3);
    let (user, s6) = spec_parse_body(s5)->Some_0;
    lemma_body_sound(s5);
    let s7 = spec_expect(s6, l4)->Some_0;
    lemma_expect_sound(s6, l4);
    let (user_iv, s8) = spec_parse_body(s7)->Some_0;
    lemma_body_sound(s7);
    let s9 = spec_expect(s8, l5)->Some_0;
    lemma_expect_sound(s8, l5);
    let (content, s10) = spec_parse_body(s9)->Some_0;
    lemma_body_sound(s9);
    let s11 = spec_expect(s10, l6)->Some_0;
    lemma_expect_sound(s10, l6);
    let (iv, s12) = spec_parse_body(s11)->Some_0;
    lemma_body_sound(s11);
    let s13 = spec_expect(s12, l7)->Some_0;
    lemma_expect_sound(s12, l7);
    let (timestamp, s14) = spec_parse_body(s13)->Some_0;
    lemma_body_sound(s13);
    let s15 = spec_expect(s14, l8)->Some_0;
    lemma_expect_sound(s14, l8);
    assert(s15 =~= Seq::<char>::empty());
    assert(s14 =~= l8);
    assert(s == spec_encode_fields(id, room, user, user_iv, content, iv, timestamp));
}

/// Round trip: every record the encoder writes parses back to exactly
/// the message it was written from — saving a message and loading the
/// room hands the same fields back.
pub proof fn lemma_record_round_trip(m: Message)
    ensures
        spec_parse_fields(spec_encode_message(m)) == Some(msg_tuple(m)),
{
    lemma_fields_complete(m.id, m.room@, m.user@, m.user_iv@, m.content@, m.iv@, m.timestamp@);
}

// ------------------------------------------------------------------
// The executable parser, a refinement of the grammar above.
// ------------------------------------------------------------------
/// Matches `lit` at `pos`, returning the position after it.
fn expect_lit(v: &Vec<char>, pos: usize, lit: &str) -> (r: Option<usize>)
    requires
        pos <= v@.len(),
    ensures
        r is Some <==> spec_expect(v@.skip(pos as int), lit@) is Some,
        r matches Some(p) ==> p == pos + lit@.len() && p <= v@.len() && spec_expect(
            v@.skip(pos as int),
            lit@,
        ) == Some(v@.skip(p as int)),
{
    let ghost s = v@.skip(pos as int);
    let n = lit.unicode_len();
    let nv = v.len();
    if nv - pos < n {
        return None;
    }
    let mut j: usize = 0;
    while j < n
        invariant
            pos <= v@.len(),
            s == v@.skip(pos as int),
            n == lit@.len(),
            nv == v@.len(),
            n <= s.len(),
            pos + n <= nv,
            0 <= j <= n,
            forall|k: int| 0 <= k < j ==> s[k] == lit@[k],
        decreases n - j,
    {
        let c = lit.get_char(j);
        if v[pos + j] != c {
            assert(s[j as int] != lit@[j as int]);
            assert(s.take(n as int)[j as int] == s[j as int]);
            assert(s.take(n as int) != lit@);
            return None;
        }
        j = j + 1;
    }
    assert(s.take(n as int) =~= lit@);
    assert(s.skip(n as int) =~= v@.skip(pos + n));
    Some(pos + n)
}

/// Reads an escaped string body starting at `pos`, stopping at the first
/// unescaped quote.
fn parse_body(v: &Vec<char>, pos: usize) -> (r: Option<(Vec<char>, usize)>)
    requires
        pos <= v@.len(),
    ensures
        r is Some <==> spec_parse_body(v@.skip(pos as int)) is Some,
        r matches Some(p) ==> pos <= p.1 <= v@.len() && spec_parse_body(v@.skip(pos as int))
            == Some((p.0@, v@.skip(p.1 as int))),
{
    let mut out: Vec<char> = Vec::new();
    let mut i: usize = pos;
    let n = v.len();
    while i < n
        invariant
            pos <= i <= n,
            n == v@.len(),
            spec_parse_body(v@.skip(pos as int)) == prepend_body(
                out@,
                spec_parse_body(v@.skip(i as int)),
            ),
        decreases n - i,
    {
        let ghost si = v@.skip(i as int);
        assert(si.len() == n - i);
        let c = v[i];
        assert(si[0] == c);
        if c == '"' {
            assert(spec_parse_body(si) == Some((Seq::<char>::empty(), si)));
            assert(out@ + Seq::<char>::empty() =~= out@);
            return Some((out, i));
        } else if c == '\\' {
            if i + 1 >= n {
                assert(si.len() < 2);
                assert(spec_parse_body(si) is None);
                return None;
            }
            let c2 = v[i + 1];
            assert(si[1] == c2);
            match esc_code_exec(c2) {
                Some(d) => {
                    assert(si.skip(2) =~= v@.skip(i + 2));
                    assert(spec_parse_body(si) == prepend_body(
                        seq![d],
                        spec_parse_body(v@.skip(i + 2)),
                    ));
                    proof {
                        lemma_prepend_prepend(out@, seq![d], spec_parse_body(v@.skip(i + 2)));
                    }
                    let ghost o0 = out@;
                    out.push(d);
                    assert(out@ =~= o0 + seq![d]);
                    i = i + 2;
                },
                None => {
                    if c2 != 'u' || n - i < 6 {
                        assert(spec_parse_body(si) is None);
                        return None;
                    }
                    let c3 = v[i + 2];
                    let c4 = v[i + 3];
                    assert(si[2] == c3 && si[3] == c4);
                    assert(si[4] == v@[i + 4] && si[5] == v@[i + 5]);
                    if c3 != '0' || c4 != '0' {
                        assert(spec_parse_body(si) is None);
                        return None;
                    }
                    match (hex_val_exec(v[i + 4]), hex_val_exec(v[i + 5])) {
                        (Some(a), Some(b)) => {
                            let val = a * 16 + b;
                            if val < 32 && val != 9 && val != 10 && val != 13 {
                                let d = low_char_exec(val);
                                assert(si.skip(6) =~= v@.skip(i + 6));
                                assert(spec_parse_body(si) == prepend_body(
                                    seq![d],
                                    spec_parse_body(v@.skip(i + 6)),
                                ));
                                proof {
                                    lemma_prepend_prepend(
                                        out@,
                                        seq![d],
                                        spec_parse_body(v@.skip(i + 6)),
                                    );
                                }
                                let ghost o0 = out@;
                                out.push(d);
                                assert(out@ =~= o0 + seq![d]);
                                i = i + 6;
                            } else {
                                assert(spec_parse_body(si) is None);
                                return None;
                            }
                        },
                        _ => {
                            assert(spec_parse_body(si) is None);
                            return None;
                        },
                    }
                },
            }
        } else if (c as u32) < 32 {
            assert(spec_parse_body(si) is None);
            return None;
        } else {
            assert(si.skip(1) =~= v@.skip(i + 1));
            assert(spec_parse_body(si) == prepend_body(
                seq![c],
                spec_parse_body(v@.skip(i + 1)),
            ));
            proof {
                lemma_prepend_prepend(out@, seq![c], spec_parse_body(v@.skip(i + 1)));
            }
            let ghost o0 = out@;
            out.push(c);
            assert(out@ =~= o0 + seq![c]);
            i = i + 1;
        }
    }
    assert(v@.skip(n as int).len() == 0);
    assert(spec_parse_body(v@.skip(n as int)) is None);
    None
}

/// Reads a canonical decimal number starting at `pos`.
fn parse_number(v: &Vec<char>, pos: usize) -> (r: Option<(usize, usize)>)
    requires
        pos <= v@.len(),
    ensures
        r is Some <==> spec_parse_number(v@.skip(pos as int)) is Some,
        r matches Some(p) ==> pos <= p.1 <= v@.len() && spec_parse_number(v@.skip(pos as int))
            == Some((p.0, v@.skip(p.1 as int))),
{
    let ghost s = v@.skip(pos as int);
    let n = v.len();
    let mut j: usize = pos;
    while j < n && '0' <= v[j] && v[j] <= '9'
        invariant
            pos <= j <= n,
            n == v@.len(),
            s == v@.skip(pos as int),
            forall|k: int| pos <= k < j ==> is_dec_digit(#[trigger] v@[k]),
        decreases n - j,
    {
        j = j + 1;
    }
    let ghost d = v@.subrange(pos as int, j as int);
    proof {
        assert(all_dec_digits(d)) by {
            assert(forall|k: int| 0 <= k < d.len() ==> #[trigger] d[k] == v@[pos + k]);
        }
        assert(j < n ==> !is_dec_digit(v@[j as int]));
        assert(s =~= d + v@.skip(j as int));
        lemma_take_digits_app(d, v@.skip(j as int));
        assert(spec_take_digits(s) == d);
    }
    if j == pos {
        assert(spec_take_digits(s).len() == 0);
        return None;
    }
    if v[pos] == '0' && j - pos > 1 {
        assert(d[0] == '0' && d.len() > 1);
        return None;
    }
    match parse_id_chars(v, pos, j) {
        Some(val) => {
            assert(spec_parse_id(d) == Some(val));
            assert(s.skip(d.len() as int) =~= v@.skip(j as int));
            Some((val, j))
        },
        None => {
            assert(spec_parse_id(d) is None);
            assert(d.len() > 0 && all_dec_digits(d));
            assert(dec_val(d) > usize::MAX as int);
            None
        },
    }
}

/// Reads a record back. Exactly the strings `encode_message` produces are
/// accepted; any other input — truncated, reordered, or otherwise not in
/// record form — yields nothing, and the loading path discards it.
pub fn parse_message(s: &str) -> (r: Option<Message>)
    ensures
        r is Some <==> spec_parse_fields(s@) is Some,
        r matches Some(p) ==> spec_parse_fields(s@) == Some(msg_tuple(p)),
        r matches Some(p) ==> s@ == spec_encode_message(p),
        forall|m: Message|
            s@ == #[trigger] spec_encode_message(m) ==> (r matches Some(p) && p.id == m.id
                && p.room@ == m.room@ && p.user@ == m.user@ && p.user_iv@ == m.user_iv@
                && p.content@ == m.content@ && p.iv@ == m.iv@ && p.timestamp@ == m.timestamp@),
{
    let v = str_to_chars(s);
    let ghost sv = v@;
    assert(sv == s@);
    assert(sv.skip(0) =~= sv);
    let r = parse_message_inner(&v);
    proof {
        if spec_parse_fields(s@) is Some {
            lemma_fields_sound(s@);
        }
        assert forall|m: Message| s@ == #[trigger] spec_encode_message(m) implies (r matches Some(
            p,
        ) && p.id == m.id && p.room@ == m.room@ && p.user@ == m.user@ && p.user_iv@ == m.user_iv@
            && p.content@ == m.content@ && p.iv@ == m.iv@ && p.timestamp@ == m.timestamp@) by {
            lemma_fields_complete(m.id, m.room@, m.user@, m.user_iv@, m.content@, m.iv@,
                m.timestamp@);
        }
    }
    r
}

/// The record parser over characters; its result is exactly what the
/// grammar accepts.
fn parse_message_inner(v: &Vec<char>) -> (r: Option<Message>)
    ensures
        r is Some <==> spec_parse_fields(v@) is Some,
        r matches Some(p) ==> spec_parse_fields(v@) == Some(
            (p.id, p.room@, p.user@, p.user_iv@, p.content@, p.iv@, p.timestamp@),
        ),
{
    let ghost s = v@;
    assert(s.skip(0) =~= s);
    let p1 = match expect_lit(v, 0, "{\"id\":") {
        Some(p) => p,
        None => {
            assert(spec_parse_fields(s) is None);
            return None;
        },
    };
    let (id, p2) = match parse_number(v, p1) {
        Some(p) => p,
        None => {
            assert(spec_parse_fields(s) is None);
            return None;
        },
    };
    let p3 = match expect_lit(v, p2, ",\"room\":\"") {
        Some(p) => p,
        None => {
            assert(spec_parse_fields(s) is None);
            return None;
        },
    };
    let (room, p4) = match parse_body(v, p3) {
        Some(p) => p,
        None => {
            assert(spec_parse_fields(s) is None);
            return None;
        },
    };
    let p5 = match expect_lit(v, p4, "\",\"user\":\"") {
        Some(p) => p,
        None => {
            assert(spec_parse_fields(s) is None);
            return None;
        },
    };
    let (user, p6) = match parse_body(v, p5) {
        Some(p) => p,
        None => {
            assert(spec_parse_fields(s) is None);
            return None;
        },
    };
    let p7 = match expect_lit(v, p6, "\",\"user_iv\":\"") {
        Some(p) => p,
        None => {
            assert(spec_parse_fields(s) is None);
            return None;
        },
    };
    let (user_iv, p8) = match parse_body(v, p7) {
        Some(p) => p,
        None => {
            assert(spec_parse_fields(s) is None);
            return None;
        },
    };
    let p9 = match expect_lit(v, p8, "\",\"content\":\"") {
        Some(p) => p,
        None => {
            assert(spec_parse_fields(s) is None);
            return None;
        },
    };
    let (content, p10) = match parse_body(v, p9) {
        Some(p) => p,
        None => {
            assert(spec_parse_fields(s) is None);
            return None;
        },
    };
    let p11 = match expect_lit(v, p10, "\",\"iv\":\"") {
        Some(p) => p,
        None => {
            assert(spec_parse_fields(s) is None);
            return None;
        },
    };
    let (iv, p12) = match parse_body(v, p11) {
        Some(p) => p,
        None => {
            assert(spec_parse_fields(s) is None);
            return None;
        },
    };
    let p13 = match expect_lit(v, p12, "\",\"timestamp\":\"") {
        Some(p) => p,
        None => {
            assert(spec_parse_fields(s) is None);
            return None;
        },
    };
    let (timestamp, p14) = match parse_body(v, p13) {
        Some(p) => p,
        None => {
            assert(spec_parse_fields(s) is None);
            return None;
        },
    };
    let p15 = match expect_lit(v, p14, "\"}") {
        Some(p) => p,
        None => {
            assert(spec_parse_fields(s) is None);
            return None;
        },
    };
    if p15 != v.len() {
        assert(v@.skip(p15 as int).len() != 0);
        assert(spec_parse_fields(s) is None);
        return None;
    }
    assert(v@.skip(p15 as int).len() == 0);
    let m = Message {
        id,
        room: chars_to_string(room),
        user: chars_to_string(user),
        user_iv: chars_to_string(user_iv),
        content: chars_to_string(content),
        iv: chars_to_string(iv),
        timestamp: chars_to_string(timestamp),
    };
    assert(spec_parse_fields(s) == Some(
        (m.id, m.room@, m.user@, m.user_iv@, m.content@, m.iv@, m.timestamp@),
    ));
    Some(m)
}

} // verus!
