//! Pure text utilities around the logger: sanitising configuration strings,
//! interpreting escape sequences typed by the operator, and rendering
//! timestamps.

use vstd::prelude::*;
use vstd::string::StrSliceExecFns;
use vstd::utf8::{
    encode_scalar, encode_utf8, encode_utf8_decode_utf8, encode_utf8_valid_utf8,
};

use crate::record::bytes_to_string;

verus! {

/// True for the code points that `clean_str` strips: URI-reserved
/// characters, the backslash, and the double quote.
pub open spec fn reserved_code(u: u32) -> bool {
    ||| u == 33  // '!'
    ||| u == 42  // '*'
    ||| u == 39  // '\''
    ||| u == 40  // '('
    ||| u == 41  // ')'
    ||| u == 59  // ';'
    ||| u == 58  // ':'
    ||| u == 64  // '@'
    ||| u == 38  // '&'
    ||| u == 61  // '='
    ||| u == 43  // '+'
    ||| u == 36  // '$'
    ||| u == 44  // ','
    ||| u == 47  // '/'
    ||| u == 63  // '?'
    ||| u == 35  // '#'
    ||| u == 91  // '['
    ||| u == 93  // ']'
    ||| u == 92  // '\\'
    ||| u == 34  // '"'
}

/// True for the characters that `clean_str` strips.
pub open spec fn is_reserved_char(c: char) -> bool {
    reserved_code(c as u32)
}

/// The characters `clean_str` keeps.
pub open spec fn keep_char() -> spec_fn(char) -> bool {
    |c: char| !is_reserved_char(c)
}

/// The bytes kept when filtering at the UTF-8 byte level.
pub open spec fn keep_byte() -> spec_fn(u8) -> bool {
    |b: u8| !reserved_code(b as u32)
}

fn reserved_byte(b: u8) -> (r: bool)
    ensures
        r == reserved_code(b as u32),
{
    let u: u32 = b as u32;
    u == 33 || u == 42 || u == 39 || u == 40 || u == 41 || u == 59 || u == 58 || u == 64 || u == 38
        || u == 61 || u == 43 || u == 36 || u == 44 || u == 47 || u == 63 || u == 35 || u == 91
        || u == 93 || u == 92 || u == 34
}

proof fn lemma_filter_all(s: Seq<u8>, pred: spec_fn(u8) -> bool)
    requires
        forall|i: int| 0 <= i < s.len() ==> pred(s[i]),
    ensures
        s.filter(pred) == s,
    decreases s.len(),
{
    reveal(Seq::filter);
    if s.len() == 0 {
        assert(s.filter(pred) =~= s);
    } else {
        lemma_filter_all(s.drop_last(), pred);
        assert(s.drop_last().push(s.last()) =~= s);
    }
}

proof fn lemma_encode_utf8_concat(a: Seq<char>, b: Seq<char>)
    ensures
        encode_utf8(a + b) == encode_utf8(a) + encode_utf8(b),
    decreases a.len(),
{
    if a.len() == 0 {
        assert(a + b =~= b);
        assert(encode_utf8(a) + encode_utf8(b) =~= encode_utf8(b));
    } else {
        assert((a + b).drop_first() =~= a.drop_first() + b);
        lemma_encode_utf8_concat(a.drop_first(), b);
        assert((a + b)[0] == a[0]);
        assert(encode_scalar(a[0] as u32) + (encode_utf8(a.drop_first()) + encode_utf8(b)) =~= (
        encode_scalar(a[0] as u32) + encode_utf8(a.drop_first())) + encode_utf8(b));
    }
}

proof fn lemma_ascii_byte(s: u32)
    by (bit_vector)
    requires
        s < 0x80,
    ensures
        (s & 0x7F) as u8 == s as u8,
        (s as u8) as u32 == s,
{
}

proof fn lemma_or_bytes_high(y: u8)
    by (bit_vector)
    ensures
        0x80u8 | y >= 0x80,
        0xC0u8 | y >= 0x80,
        0xE0u8 | y >= 0x80,
        0xF0u8 | y >= 0x80,
{
}

// Every byte of a multi-byte UTF-8 encoding has its high bit set, so none of
// them can collide with a reserved (ASCII) byte.
proof fn lemma_encode_scalar_high(c: char)
    requires
        c as u32 >= 0x80,
    ensures
        forall|i: int|
            0 <= i < encode_scalar(c as u32).len() ==> (#[trigger] encode_scalar(c as u32)[i])
                as u32 >= 0x80,
{
    let s = c as u32;
    vstd::utf8::char_is_scalar(c);
    if vstd::utf8::has_width_2_encoding(s) {
        lemma_or_bytes_high(((s >> 6) & 0x1F) as u8);
        lemma_or_bytes_high((s & 0x3F) as u8);
    } else if vstd::utf8::has_width_3_encoding(s) {
        lemma_or_bytes_high(((s >> 12) & 0x0F) as u8);
        lemma_or_bytes_high(((s >> 6) & 0x3F) as u8);
        lemma_or_bytes_high((s & 0x3F) as u8);
    } else {
        lemma_or_bytes_high(((s >> 18) & 0x7) as u8);
        lemma_or_bytes_high(((s >> 12) & 0x3F) as u8);
        lemma_or_bytes_high(((s >> 6) & 0x3F) as u8);
        lemma_or_bytes_high((s & 0x3F) as u8);
    }
}

// Filtering reserved bytes out of a UTF-8 encoding is the same as encoding
// the text with its reserved characters filtered out: reserved characters
// are ASCII and encode to their own byte, while every byte of a multi-byte
// encoding has its high bit set.
proof fn lemma_filter_encode(cs: Seq<char>)
    ensures
        encode_utf8(cs).filter(keep_byte()) == encode_utf8(cs.filter(keep_char())),
    decreases cs.len(),
{
    reveal_with_fuel(Seq::<u8>::filter, 3);
    reveal_with_fuel(Seq::<char>::filter, 3);
    if cs.len() == 0 {
        assert(encode_utf8(cs).filter(keep_byte()) =~= encode_utf8(cs.filter(keep_char())));
    } else {
        let c0 = cs[0];
        let s0 = c0 as u32;
        let rest = cs.drop_first();
        let es = encode_scalar(s0);
        lemma_filter_encode(rest);
        Seq::<u8>::filter_distributes_over_add(es, encode_utf8(rest), keep_byte());
        // cs.filter splits into the head's contribution plus the tail's.
        assert(cs =~= seq![c0] + rest);
        Seq::<char>::filter_distributes_over_add(seq![c0], rest, keep_char());
        assert(seq![c0].drop_last() =~= Seq::<char>::empty());
        assert(seq![c0].drop_first() =~= Seq::<char>::empty());
        assert(encode_utf8(Seq::<char>::empty()) =~= Seq::<u8>::empty());
        assert(encode_utf8(seq![c0]) =~= es);
        if s0 < 0x80 {
            lemma_ascii_byte(s0);
            let b0 = (s0 & 0x7F) as u8;
            assert(es =~= seq![b0]);
            assert(b0 as u32 == s0);
            assert(seq![b0].drop_last() =~= Seq::<u8>::empty());
            if is_reserved_char(c0) {
                assert(es.filter(keep_byte()) =~= Seq::<u8>::empty());
                assert(seq![c0].filter(keep_char()) =~= Seq::<char>::empty());
                assert(Seq::<char>::empty() + rest.filter(keep_char()) =~= rest.filter(
                    keep_char(),
                ));
                assert(Seq::<u8>::empty() + encode_utf8(rest).filter(keep_byte()) =~= encode_utf8(
                    rest,
                ).filter(keep_byte()));
            } else {
                assert(es.filter(keep_byte()) =~= seq![b0]);
                assert(seq![c0].filter(keep_char()) =~= seq![c0]);
                lemma_encode_utf8_concat(seq![c0], rest.filter(keep_char()));
                assert(encode_utf8(cs).filter(keep_byte()) =~= encode_utf8(
                    seq![c0] + rest.filter(keep_char()),
                ));
            }
        } else {
            lemma_encode_scalar_high(c0);
            assert(forall|u: u32| u >= 0x80 ==> !reserved_code(u));
            lemma_filter_all(es, keep_byte());
            assert(!is_reserved_char(c0));
            assert(seq![c0].filter(keep_char()) =~= seq![c0]);
            lemma_encode_utf8_concat(seq![c0], rest.filter(keep_char()));
            assert(encode_utf8(cs).filter(keep_byte()) =~= encode_utf8(
                seq![c0] + rest.filter(keep_char()),
            ));
        }
    }
}

/// Strip URI-reserved characters, backslashes, and double quotes from a
/// string, keeping everything else in order.
pub fn clean_str(s: &str) -> (r: String)
    ensures
        r@ == s@.filter(keep_char()),
{
    let bytes: &[u8] = s.as_bytes();
    let mut kept: Vec<u8> = Vec::new();
    let mut i: usize = 0;
    proof {
        reveal(Seq::filter);
        assert(bytes@.subrange(0, 0).filter(keep_byte()) =~= Seq::<u8>::empty());
    }
    while i < bytes.len()
        invariant
            i <= bytes@.len(),
            kept@ == bytes@.subrange(0, i as int).filter(keep_byte()),
        decreases bytes@.len() - i,
    {
        let b = bytes[i];
        proof {
            reveal(Seq::filter);
            assert(bytes@.subrange(0, i as int + 1).drop_last() =~= bytes@.subrange(0, i as int));
            assert(bytes@.subrange(0, i as int + 1).last() == b);
        }
        if !reserved_byte(b) {
            kept.push(b);
        }
        i = i + 1;
    }
    proof {
        assert(bytes@.subrange(0, bytes@.len() as int) =~= bytes@);
        lemma_filter_encode(s@);
        encode_utf8_valid_utf8(s@.filter(keep_char()));
        encode_utf8_decode_utf8(s@.filter(keep_char()));
    }
    match bytes_to_string(kept.as_slice()) {
        Some(r) => r,
        None => {
            proof {
                assert(false);
            }
            String::new()
        },
    }
}

/// True when `c` is an ASCII hexadecimal digit.
pub open spec fn is_hex_digit(c: char) -> bool {
    ||| 48 <= c as u32 <= 57
    ||| 97 <= c as u32 <= 102
    ||| 65 <= c as u32 <= 70
}

/// Numeric value of an ASCII hexadecimal digit.
pub open spec fn hex_digit_val(c: char) -> int {
    if 48 <= c as u32 <= 57 {
        c as u32 - 48
    } else if 97 <= c as u32 <= 102 {
        c as u32 - 87
    } else {
        c as u32 - 55
    }
}

/// Value of a string of hexadecimal digits, most significant first.
pub open spec fn hex_digits_val(cs: Seq<char>) -> int
    decreases cs.len(),
{
    if cs.len() == 0 {
        0
    } else {
        hex_digits_val(cs.drop_last()) * 16 + hex_digit_val(cs.last())
    }
}

/// True when `cs` is one or more hexadecimal digits.
pub open spec fn all_hex(cs: Seq<char>) -> bool {
    cs.len() >= 1 && (forall|i: int| 0 <= i < cs.len() ==> is_hex_digit(#[trigger] cs[i]))
}

/// The digit part of a hexadecimal number: an optional leading plus sign is
/// dropped.
pub open spec fn hex_body(cs: Seq<char>) -> Seq<char> {
    if cs.len() >= 1 && cs[0] == '+' {
        cs.drop_first()
    } else {
        cs
    }
}

/// The byte value written in hexadecimal by `cs`, when `cs` is an optional
/// plus sign followed by hexadecimal digits whose value fits in a byte.
pub open spec fn hex_byte(cs: Seq<char>) -> Option<u8> {
    if all_hex(hex_body(cs)) && hex_digits_val(hex_body(cs)) <= 255 {
        Some(hex_digits_val(hex_body(cs)) as u8)
    } else {
        None
    }
}

/// The character that an operator-typed escape sequence stands for: a named
/// single-character escape, or `\x` followed by a hexadecimal byte value.
pub open spec fn escape_char(cs: Seq<char>) -> Option<char> {
    if cs == seq!['\''] {
        Some('\'')
    } else if cs == seq!['\\', '"'] {
        Some('"')
    } else if cs == seq!['\\', '\\'] {
        Some('\\')
    } else if cs == seq!['\\', 'n'] {
        Some('\n')
    } else if cs == seq!['\\', 'r'] {
        Some('\r')
    } else if cs == seq!['\\', 't'] {
        Some('\t')
    } else if cs == seq!['\\', 'b'] {
        Some('\u{0008}')
    } else if cs == seq!['\\', 'f'] {
        Some('\u{000C}')
    } else if cs == seq!['\\', 'v'] {
        Some('\u{000B}')
    } else if cs == seq!['\\', '0'] {
        Some('\u{0000}')
    } else if cs.len() >= 2 && cs[0] == '\\' && cs[1] == 'x' {
        match hex_byte(cs.skip(2)) {
            Some(b) => Some(b as char),
            None => None,
        }
    } else {
        None
    }
}

// Once the accumulated value exceeds a byte, more digits keep it there.
proof fn lemma_hex_val_grows(cs: Seq<char>, k: int)
    requires
        0 <= k <= cs.len(),
        forall|i: int| 0 <= i < cs.len() ==> is_hex_digit(#[trigger] cs[i]),
        hex_digits_val(cs.subrange(0, k)) > 255,
    ensures
        hex_digits_val(cs) > 255,
    decreases cs.len() - k,
{
    if k == cs.len() {
        assert(cs.subrange(0, k) =~= cs);
    } else {
        let next = cs.subrange(0, k + 1);
        assert(next.drop_last() =~= cs.subrange(0, k));
        assert(is_hex_digit(next.last()));
        assert(hex_digit_val(next.last()) >= 0);
        lemma_hex_val_grows(cs, k + 1);
    }
}

/// Interpret an operator-typed escape sequence: the named single-character
/// escapes, or `\x` followed by a byte value in hexadecimal.
#[verifier::loop_isolation(false)]
pub fn process_escape_sequence(s: &str) -> (r: Option<char>)
    ensures
        r == escape_char(s@),
{
    let n: usize = s.unicode_len();
    if n == 1 {
        let c0 = s.get_char(0);
        if c0 == '\'' {
            proof {
                assert(s@ =~= seq!['\'']);
            }
            return Some('\'');
        }
        return None;
    }
    if n == 2 {
        let c0 = s.get_char(0);
        if c0 != '\\' {
            return None;
        }
        let c1 = s.get_char(1);
        if c1 == '"' {
            proof {
                assert(s@ =~= seq!['\\', '"']);
            }
            return Some('"');
        }
        if c1 == '\\' {
            proof {
                assert(s@ =~= seq!['\\', '\\']);
            }
            return Some('\\');
        }
        if c1 == 'n' {
            proof {
                assert(s@ =~= seq!['\\', 'n']);
            }
            return Some('\n');
        }
        if c1 == 'r' {
            proof {
                assert(s@ =~= seq!['\\', 'r']);
            }
            return Some('\r');
        }
        if c1 == 't' {
            proof {
                assert(s@ =~= seq!['\\', 't']);
            }
            return Some('\t');
        }
        if c1 == 'b' {
            proof {
                assert(s@ =~= seq!['\\', 'b']);
            }
            return Some('\u{0008}');
        }
        if c1 == 'f' {
            proof {
                assert(s@ =~= seq!['\\', 'f']);
            }
            return Some('\u{000C}');
        }
        if c1 == 'v' {
            proof {
                assert(s@ =~= seq!['\\', 'v']);
            }
            return Some('\u{000B}');
        }
        if c1 == '0' {
            proof {
                assert(s@ =~= seq!['\\', '0']);
            }
            return Some('\u{0000}');
        }
        if c1 == 'x' {
            // `\x` with no digits at all.
            proof {
                assert(s@.skip(2) =~= Seq::<char>::empty());
            }
            return None;
        }
        return None;
    }
    if n < 2 {
        return None;
    }
    let c0 = s.get_char(0);
    let c1 = s.get_char(1);
    if !(c0 == '\\' && c1 == 'x') {
        return None;
    }
    // Hexadecimal escape: an optional plus sign, then digits.
    let ghost body: Seq<char> = s@.skip(2);
    let mut start: usize = 2;
    let c2 = s.get_char(2);
    if c2 == '+' {
        start = 3;
    }
    proof {
        assert(hex_body(body) =~= s@.subrange(start as int, n as int));
    }
    if start == n {
        proof {
            assert(s@.subrange(n as int, n as int) =~= Seq::<char>::empty());
        }
        return None;
    }
    let mut val: u32 = 0;
    let mut over: bool = false;
    let mut i: usize = start;
    proof {
        assert(s@.subrange(start as int, start as int) =~= Seq::<char>::empty());
    }
    while i < n
        invariant
            2 <= start <= i <= n,
            n == s@.len(),
            hex_body(s@.skip(2)) == s@.subrange(start as int, n as int),
            forall|j: int| start <= j < i ==> is_hex_digit(#[trigger] s@[j]),
            !over ==> val <= 255 && val as int == hex_digits_val(
                s@.subrange(start as int, i as int),
            ),
            over ==> hex_digits_val(s@.subrange(start as int, i as int)) > 255,
        decreases n - i,
    {
        let c = s.get_char(i);
        let u: u32 = c as u32;
        let d: u32 = if 48 <= u && u <= 57 {
            u - 48
        } else if 97 <= u && u <= 102 {
            u - 87
        } else if 65 <= u && u <= 70 {
            u - 55
        } else {
            proof {
                assert(!is_hex_digit(s@[i as int]));
                let si: char = s@[i as int];
                assert(s@.subrange(start as int, n as int)[i as int - start as int] == si);
                assert(!all_hex(hex_body(s@.skip(2))));
            }
            return None;
        };
        proof {
            let pre = s@.subrange(start as int, i as int);
            let ext = s@.subrange(start as int, i as int + 1);
            assert(ext.drop_last() =~= pre);
            assert(ext.last() == s@[i as int]);
            assert(d as int == hex_digit_val(s@[i as int]));
        }
        if !over {
            val = val * 16 + d;
            if val > 255 {
                over = true;
            }
        } else {
            proof {
                assert(hex_digit_val(s@[i as int]) >= 0);
            }
        }
        i = i + 1;
    }
    proof {
        assert(s@.subrange(start as int, n as int) == hex_body(body));
        assert(all_hex(hex_body(body)));
    }
    if over {
        return None;
    }
    let b: u8 = val as u8;
    Some(b as char)
}

/// ASCII digit byte for a decimal digit value.
pub open spec fn digit_byte(d: int) -> u8 {
    (48 + d) as u8
}

/// The low `width` decimal digits of `n`, zero padded, as ASCII bytes.
pub open spec fn dec_bytes(n: int, width: nat) -> Seq<u8>
    decreases width,
{
    if width == 0 {
        Seq::<u8>::empty()
    } else {
        dec_bytes(n / 10, (width - 1) as nat).push(digit_byte(n % 10))
    }
}

fn push_dec(out: &mut Vec<u8>, n: u32, width: u32)
    ensures
        final(out)@ == old(out)@ + dec_bytes(n as int, width as nat),
    decreases width,
{
    if width == 0 {
        proof {
            assert(old(out)@ + dec_bytes(n as int, 0) =~= old(out)@);
        }
    } else {
        push_dec(out, n / 10, width - 1);
        let d: u8 = 48 + (n % 10) as u8;
        proof {
            assert((n / 10) as int == n as int / 10);
            assert((n % 10) as int == n as int % 10);
            assert((old(out)@ + dec_bytes(n as int / 10, (width - 1) as nat)).push(
                digit_byte(n as int % 10),
            ) =~= old(out)@ + dec_bytes(n as int, width as nat));
        }
        out.push(d);
    }
}

/// The rendered timestamp `[YYYY-MM-DD HH:MM:SS.mmm] ` with its surrounding
/// terminal colour codes, as bytes.
pub open spec fn timestamp_bytes(
    year: int,
    month: int,
    day: int,
    hour: int,
    minute: int,
    second: int,
    millis: int,
) -> Seq<u8> {
    seq![0x1Bu8, 0x5Bu8, 0x30u8, 0x6Du8, 0x5Bu8, 0x1Bu8, 0x5Bu8, 0x33u8, 0x32u8, 0x6Du8]
        + dec_bytes(year, 4) + seq![0x2Du8] + dec_bytes(month, 2) + seq![0x2Du8] + dec_bytes(
        day,
        2,
    ) + seq![0x20u8] + dec_bytes(hour, 2) + seq![0x3Au8] + dec_bytes(minute, 2) + seq![0x3Au8]
        + dec_bytes(second, 2) + seq![0x2Eu8] + dec_bytes(millis, 3) + seq![
        0x1Bu8,
        0x5Bu8,
        0x30u8,
        0x6Du8,
        0x5Du8,
        0x20u8,
    ]
}

/// Render a wall-clock timestamp as the colourised `[date time] ` prefix
/// that every displayed or persisted record line starts with.
pub fn format_timestamp(
    year: u32,
    month: u32,
    day: u32,
    hour: u32,
    minute: u32,
    second: u32,
    millis: u32,
) -> (r: Vec<u8>)
    requires
        year < 10000,
        month < 100,
        day < 100,
        hour < 100,
        minute < 100,
        second < 100,
        millis < 1000,
    ensures
        r@ == timestamp_bytes(
            year as int,
            month as int,
            day as int,
            hour as int,
            minute as int,
            second as int,
            millis as int,
        ),
{
    let mut out: Vec<u8> = Vec::new();
    out.push(0x1B);
    out.push(0x5B);
    out.push(0x30);
    out.push(0x6D);
    out.push(0x5B);
    out.push(0x1B);
    out.push(0x5B);
    out.push(0x33);
    out.push(0x32);
    out.push(0x6D);
    push_dec(&mut out, year, 4);
    out.push(0x2D);
    push_dec(&mut out, month, 2);
    out.push(0x2D);
    push_dec(&mut out, day, 2);
    out.push(0x20);
    push_dec(&mut out, hour, 2);
    out.push(0x3A);
    push_dec(&mut out, minute, 2);
    out.push(0x3A);
    push_dec(&mut out, second, 2);
    out.push(0x2E);
    push_dec(&mut out, millis, 3);
    out.push(0x1B);
    out.push(0x5B);
    out.push(0x30);
    out.push(0x6D);
    out.push(0x5D);
    out.push(0x20);
    proof {
        assert(out@ =~= timestamp_bytes(
            year as int,
            month as int,
            day as int,
            hour as int,
            minute as int,
            second as int,
            millis as int,
        ));
    }
    out
}

} // verus!
