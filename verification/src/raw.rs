//! The Yacht Devices RAW text format: one CAN frame per line,
//! `hh:mm:ss.sss <R|T> <CANID> <DATA...>\r\n`, with the CAN ID as eight and each
//! data byte as two uppercase hexadecimal digits.
use vstd::prelude::*;
use vstd::utf8::*;
use crate::number::{
    all_digits, digit_value, lemma_upper_hex_roundtrip, parse_bounded, parse_unsigned_chars, pow16,
    push_upper_hex, unsigned_digits, upper_hex,
};
use crate::text::{
    all_whitespace, chars_of, is_whitespace, lemma_encode_utf8_concat, lemma_encode_utf8_push,
    lemma_split_all_whitespace, lemma_split_leading_space, lemma_split_word_then_space,
    no_whitespace, push_utf8, push_utf8_all, split_whitespace, utf8_bytes, words,
};

verus! {

/// True of `c` when it is one of the ASCII digits `0`-`9`.
pub open spec fn is_ascii_digit(c: char) -> bool {
    '0' <= c <= '9'
}

/// The number that the two decimal digits `t[i]`, `t[i + 1]` denote.
pub open spec fn two_digit_value(t: Seq<char>, i: int) -> int {
    (t[i] as int - 0x30) * 10 + (t[i + 1] as int - 0x30)
}

/// A time of day as the RAW format writes it: `hh:mm:ss.sss`, twelve characters,
/// `:` at positions 2 and 5, `.` at position 8 and ASCII digits elsewhere, with
/// the hour at most 23, the minute at most 59 and the second at most 60 (a leap
/// second).
pub open spec fn is_timestamp_text(t: Seq<char>) -> bool {
    &&& t.len() == 12
    &&& t[2] == ':'
    &&& t[5] == ':'
    &&& t[8] == '.'
    &&& forall|i: int|
        0 <= i < 12 && i != 2 && i != 5 && i != 8 ==> is_ascii_digit(#[trigger] t[i])
    &&& two_digit_value(t, 0) <= 23
    &&& two_digit_value(t, 3) <= 59
    &&& two_digit_value(t, 6) <= 60
}

/// The data bytes of a line: ` XX` for each byte, two uppercase hex digits.
pub open spec fn data_text(data: Seq<u8>) -> Seq<char>
    decreases data.len(),
{
    if data.len() == 0 {
        seq![]
    } else {
        seq![' '] + upper_hex(data[0] as nat, 2) + data_text(data.drop_first())
    }
}

/// The RAW line for a frame, as text: the timestamp, a space, the direction
/// tag, a space, the CAN ID as eight uppercase hex digits, the data bytes and
/// `\r\n`.
pub open spec fn raw_line_text(timestamp: Seq<char>, can_id: u32, data: Seq<u8>, direction: char) -> Seq<
    char,
> {
    timestamp + seq![' ', direction, ' '] + upper_hex(can_id as nat, 8) + data_text(data) + seq![
        '\r',
        '\n',
    ]
}

/// A word that the parser takes for a leading timestamp: at least eleven bytes
/// in UTF-8, with `:` as bytes 2 and 5 and `.` as byte 8.
pub open spec fn is_timestamp_word(w: Seq<char>) -> bool {
    let b = encode_utf8(w);
    &&& b.len() >= 11
    &&& b[2] == 0x3a
    &&& b[5] == 0x3a
    &&& b[8] == 0x2e
}

/// A direction tag: the word `R` or the word `T`.
pub open spec fn is_direction_word(w: Seq<char>) -> bool {
    w == seq!['R'] || w == seq!['T']
}

/// A CAN ID word: a hexadecimal number that fits in 32 bits, as
/// `u32::from_str_radix(w, 16)` reads it.
pub open spec fn parse_can_id(w: Seq<char>) -> Option<nat> {
    parse_bounded(w, 16, 0xffff_ffff)
}

/// A data byte word: a hexadecimal number that fits in 8 bits, as
/// `u8::from_str_radix(w, 16)` reads it.
pub open spec fn parse_data_byte(w: Seq<char>) -> Option<nat> {
    parse_bounded(w, 16, 0xff)
}

/// Where the CAN ID stands among the words: after an optional timestamp and
/// then an optional direction tag.
pub open spec fn can_id_position(words: Seq<Seq<char>>) -> int {
    let i0: int = if words.len() > 0 && is_timestamp_word(words[0]) {
        1
    } else {
        0
    };
    if i0 < words.len() && is_direction_word(words[i0]) {
        i0 + 1
    } else {
        i0
    }
}

/// The frame that the words of a line denote: `[timestamp] [R|T] <CANID> <DATA...>`.
/// `None` when no CAN ID is left after the optional prefix, when the CAN ID does
/// not read as a 32-bit hex number, or when some data word does not read as an
/// 8-bit hex number.
pub open spec fn parse_words(words: Seq<Seq<char>>) -> Option<(u32, Seq<u8>)> {
    let i = can_id_position(words);
    if i >= words.len() {
        None
    } else {
        let rest = words.subrange(i + 1, words.len() as int);
        match parse_can_id(words[i]) {
            None => None,
            Some(id) => if forall|j: int| 0 <= j < rest.len() ==> (#[trigger] parse_data_byte(rest[j])) is Some {
                Some((id as u32, Seq::new(rest.len(), |j: int| parse_data_byte(rest[j])->0 as u8)))
            } else {
                None
            },
        }
    }
}

/// The frame that a RAW text line denotes, if any: the line is split into its
/// whitespace-separated words and read as `parse_words` says.
pub open spec fn parse_raw_text(line: Seq<char>) -> Option<(u32, Seq<u8>)> {
    parse_words(split_whitespace(line))
}

/// Wraps chrono: the system clock (`std::time::SystemTime::now`) as a
/// `chrono::DateTime<Utc>` (its `From<SystemTime>`, which takes a reading
/// before 1970 as a negative timestamp), formatted with `"%H:%M:%S%.3f"`.
/// The value depends on the clock, so only its shape is stated: chrono writes
/// the hour (0-23), minute (0-59) and second (0-60, 60 during a leap second)
/// as two zero-padded digits each, `:` between them, then `.` and the
/// milliseconds as three digits. The conversion unwraps chrono's range check,
/// which fails only for a reading more than 262,000 years away from 1970; the
/// Linux realtime clock, kept in 64-bit nanoseconds, cannot hold such a time.
#[verifier::external_body]
fn clock_time_of_day() -> (ts: String)
    ensures
        is_timestamp_text(ts@),
{
    chrono::DateTime::<chrono::Utc>::from(std::time::SystemTime::now()).format("%H:%M:%S%.3f").to_string()
}

/// The current UTC time of day as `hh:mm:ss.sss`.
pub fn utc_timestamp() -> (ts: String)
    ensures
        is_timestamp_text(ts@),
{
    clock_time_of_day()
}

proof fn lemma_data_text_push(data: Seq<u8>, b: u8)
    ensures
        data_text(data.push(b)) == data_text(data) + seq![' '] + upper_hex(b as nat, 2),
    decreases data.len(),
{
    if data.len() == 0 {
        assert(data.push(b).drop_first() == Seq::<u8>::empty());
        assert(data.push(b)[0] == b);
        assert(data_text(Seq::<u8>::empty()) == Seq::<char>::empty());
        assert(data_text(data.push(b)) == seq![' '] + upper_hex(b as nat, 2) + Seq::<char>::empty());
        assert(seq![' '] + upper_hex(b as nat, 2) + Seq::<char>::empty() == Seq::<char>::empty()
            + seq![' '] + upper_hex(b as nat, 2));
    } else {
        assert(data.push(b).drop_first() == data.drop_first().push(b));
        lemma_data_text_push(data.drop_first(), b);
        assert(data.push(b)[0] == data[0]);
    }
}

/// The RAW line for a frame with the given timestamp text, as UTF-8 bytes:
/// `"{timestamp} {direction} {can_id:08X}"`, then `" {byte:02X}"` for each data
/// byte, then `"\r\n"`.
pub fn encode_raw_line_with_timestamp(
    timestamp: &str,
    can_id: u32,
    data: &[u8],
    direction: char,
) -> (line: Vec<u8>)
    ensures
        line@ == encode_utf8(raw_line_text(timestamp@, can_id, data@, direction)),
{
    let ts_chars = chars_of(timestamp);
    let mut out: Vec<u8> = Vec::new();
    push_utf8_all(&mut out, &ts_chars);
    assert(out@ == encode_utf8(timestamp@));
    let ghost mut text = timestamp@;
    proof {
        lemma_encode_utf8_push(text, ' ');
    }
    push_utf8(&mut out, ' ');
    proof {
        text = text.push(' ');
        lemma_encode_utf8_push(text, direction);
    }
    push_utf8(&mut out, direction);
    proof {
        text = text.push(direction);
        lemma_encode_utf8_push(text, ' ');
    }
    push_utf8(&mut out, ' ');
    proof {
        text = text.push(' ');
        assert(text == timestamp@ + seq![' ', direction, ' ']);
    }
    let ghost before = out@;
    push_upper_hex(&mut out, can_id, 8);
    proof {
        lemma_encode_utf8_concat(text, upper_hex(can_id as nat, 8));
        text = text + upper_hex(can_id as nat, 8);
    }
    let ghost head = text;
    let n = data.len();
    let mut i: usize = 0;
    assert(data@.take(0) == Seq::<u8>::empty());
    assert(head + data_text(Seq::<u8>::empty()) == head);
    while i < n
        invariant
            n == data@.len(),
            i <= n,
            out@ == encode_utf8(head + data_text(data@.take(i as int))),
        decreases n - i,
    {
        let ghost t0 = head + data_text(data@.take(i as int));
        proof {
            lemma_encode_utf8_push(t0, ' ');
        }
        push_utf8(&mut out, ' ');
        push_upper_hex(&mut out, data[i] as u32, 2);
        proof {
            let h = upper_hex(data@[i as int] as nat, 2);
            lemma_encode_utf8_concat(t0.push(' '), h);
            lemma_data_text_push(data@.take(i as int), data@[i as int]);
            assert(data@.take(i as int).push(data@[i as int]) == data@.take(i + 1));
            assert(t0.push(' ') + h == head + data_text(data@.take(i + 1)));
        }
        i = i + 1;
    }
    assert(data@.take(n as int) == data@);
    let ghost body = head + data_text(data@);
    proof {
        lemma_encode_utf8_push(body, '\r');
    }
    push_utf8(&mut out, '\r');
    proof {
        lemma_encode_utf8_push(body.push('\r'), '\n');
    }
    push_utf8(&mut out, '\n');
    assert(body.push('\r').push('\n') == raw_line_text(timestamp@, can_id, data@, direction));
    out
}

/// Formats a CAN frame as a RAW line, stamped with the current UTC time of day,
/// with the given direction tag (`R` for received, `T` for transmitted).
pub fn encode_raw_line(can_id: u32, data: &[u8], direction: char) -> (line: Vec<u8>)
    ensures
        exists|ts: Seq<char>|
            is_timestamp_text(ts) && line@ == encode_utf8(
                #[trigger] raw_line_text(ts, can_id, data@, direction),
            ),
{
    let ts = utc_timestamp();
    let line = encode_raw_line_with_timestamp(ts.as_str(), can_id, data, direction);
    assert(is_timestamp_text(ts@) && line@ == encode_utf8(
        raw_line_text(ts@, can_id, data@, direction),
    ));
    line
}

proof fn lemma_deep_view_chars(v: Vec<char>)
    ensures
        v.deep_view() == v@,
{
    assert(v.deep_view() =~= v@);
}

/// Reads a RAW text line into its CAN ID and data bytes. Accepts
/// `[timestamp] [R|T] <CANID> <DATA...>`; see `parse_raw_text`.
pub fn parse_raw_line(line: &str) -> (r: Option<(u32, Vec<u8>)>)
    ensures
        match r {
            Some((id, data)) => parse_raw_text(line@) == Some((id, data@)),
            None => parse_raw_text(line@) is None,
        },
{
    let chars = chars_of(line);
    let words = words(&chars);
    let ghost ws = words.deep_view();
    assert(ws == split_whitespace(line@));
    let n = words.len();
    assert(ws.len() == n);
    if n == 0 {
        return None;
    }
    let mut idx: usize = 0;
    let first = utf8_bytes(&words[0]);
    proof {
        lemma_deep_view_chars(words@[0]);
    }
    if first.len() >= 11 && first[2] == 0x3a && first[5] == 0x3a && first[8] == 0x2e {
        idx = 1;
    }
    assert(idx == 1 <==> is_timestamp_word(ws[0]));
    if idx >= n {
        return None;
    }
    proof {
        lemma_deep_view_chars(words@[idx as int]);
    }
    let w = &words[idx];
    if w.len() == 1 && (w[0] == 'R' || w[0] == 'T') {
        assert(w@ == seq![w@[0]]);
        idx = idx + 1;
    } else {
        assert(w@ != seq!['R'] && w@ != seq!['T']) by {
            if w@ == seq!['R'] || w@ == seq!['T'] {
                assert(w@.len() == 1);
            }
        }
    }
    assert(idx == can_id_position(ws));
    if idx >= n {
        return None;
    }
    proof {
        lemma_deep_view_chars(words@[idx as int]);
    }
    let can_id = match parse_unsigned_chars(&words[idx], 16, 0xffff_ffff) {
        Some(v) => v,
        None => {
            return None;
        },
    };
    let ghost rest = ws.subrange(idx + 1, n as int);
    let mut data: Vec<u8> = Vec::new();
    let mut k: usize = idx + 1;
    while k < n
        invariant
            n == words@.len(),
            ws == words.deep_view(),
            ws == split_whitespace(line@),
            ws.len() == n,
            idx == can_id_position(ws),
            parse_can_id(ws[idx as int]) == Some(can_id as nat),
            idx < n,
            idx + 1 <= k <= n,
            rest == ws.subrange(idx + 1, n as int),
            data@.len() == k - (idx + 1),
            forall|j: int|
                0 <= j < k - (idx + 1) ==> (#[trigger] parse_data_byte(rest[j])) is Some && data@[j]
                    == parse_data_byte(rest[j])->0 as u8,
        decreases n - k,
    {
        proof {
            lemma_deep_view_chars(words@[k as int]);
            assert(ws[k as int] == words@[k as int].deep_view());
            assert(rest[k - (idx + 1)] == ws[k as int]);
        }
        match parse_unsigned_chars(&words[k], 16, 0xff) {
            Some(b) => {
                data.push(b as u8);
            },
            None => {
                assert(parse_data_byte(rest[k - (idx + 1)]) is None);
                assert(!(forall|j: int|
                    0 <= j < rest.len() ==> (#[trigger] parse_data_byte(rest[j])) is Some));
                return None;
            },
        }
        k = k + 1;
    }
    assert(data@ == Seq::new(rest.len(), |j: int| parse_data_byte(rest[j])->0 as u8));
    Some((can_id, data))
}

/// The data bytes of a line as words: each byte as two uppercase hex digits.
pub open spec fn data_words(data: Seq<u8>) -> Seq<Seq<char>> {
    Seq::new(data.len(), |i: int| upper_hex(data[i] as nat, 2))
}

/// A run of hex digits written for a number that fits holds no whitespace,
/// does not start with `+`, and reads back as that number.
proof fn lemma_hex_word(v: nat, width: nat, max: nat)
    requires
        width > 0,
        v < pow16(width),
        v <= max,
    ensures
        upper_hex(v, width).len() == width,
        no_whitespace(upper_hex(v, width)),
        parse_bounded(upper_hex(v, width), 16, max) == Some(v),
{
    let h = upper_hex(v, width);
    lemma_upper_hex_roundtrip(v, width);
    assert forall|i: int| 0 <= i < h.len() implies !is_whitespace(#[trigger] h[i]) by {
        assert(digit_value(h[i], 16) is Some);
    }
    assert(digit_value(h[0], 16) is Some);
    assert(unsigned_digits(h) == h);
}

proof fn lemma_pow16_facts()
    ensures
        pow16(2) == 256,
        pow16(8) == 0x1_0000_0000,
{
    reveal_with_fuel(pow16, 9);
}

/// `w`, then the data bytes, then `\r\n` split into `w` and the data words.
proof fn lemma_split_data_tail(w: Seq<char>, data: Seq<u8>)
    requires
        w.len() > 0,
        no_whitespace(w),
    ensures
        split_whitespace(w + data_text(data) + seq!['\r', '\n']) == seq![w] + data_words(data),
    decreases data.len(),
{
    let crlf = seq!['\r', '\n'];
    if data.len() == 0 {
        assert(data_text(data) == Seq::<char>::empty());
        assert(w + data_text(data) + crlf == w + seq!['\r'] + seq!['\n']);
        lemma_split_word_then_space(w, '\r', seq!['\n']);
        assert(all_whitespace(seq!['\n']));
        lemma_split_all_whitespace(seq!['\n']);
        assert(data_words(data) == Seq::<Seq<char>>::empty());
        assert(seq![w] + Seq::<Seq<char>>::empty() == seq![w]);
    } else {
        lemma_pow16_facts();
        let h = upper_hex(data[0] as nat, 2);
        lemma_hex_word(data[0] as nat, 2, 0xff);
        let tail = h + data_text(data.drop_first()) + crlf;
        assert(w + data_text(data) + crlf == w + seq![' '] + tail);
        lemma_split_word_then_space(w, ' ', tail);
        lemma_split_data_tail(h, data.drop_first());
        assert(data_words(data) == seq![h] + data_words(data.drop_first()));
        assert(seq![w] + (seq![h] + data_words(data.drop_first())) == seq![w] + data_words(data));
    }
}

proof fn lemma_timestamp_word(ts: Seq<char>)
    requires
        is_timestamp_text(ts),
    ensures
        ts.len() > 0,
        no_whitespace(ts),
        is_timestamp_word(ts),
        !is_direction_word(ts),
{
    assert forall|i: int| 0 <= i < ts.len() implies !is_whitespace(#[trigger] ts[i]) by {
        if i != 2 && i != 5 && i != 8 {
            assert(is_ascii_digit(ts[i]));
        }
    }
    assert(vstd::utf8::is_ascii_chars(ts)) by {
        assert forall|i: int| 0 <= i < ts.len() implies '\0' <= #[trigger] ts[i] <= '\u{7f}' by {
            if i != 2 && i != 5 && i != 8 {
                assert(is_ascii_digit(ts[i]));
            } else {
                assert(ts[i] == ':' || ts[i] == '.');
            }
        }
    }
    vstd::utf8::is_ascii_chars_encode_utf8(ts);
    assert(ts[2] as u8 == 0x3a);
    assert(ts[8] as u8 == 0x2e);
    if is_direction_word(ts) {
        assert(ts.len() == 1);
    }
}

/// The words of a RAW line whose direction tag is not whitespace: the
/// timestamp, the tag, the CAN ID and one word per data byte.
pub proof fn lemma_raw_line_words(ts: Seq<char>, can_id: u32, data: Seq<u8>, direction: char)
    requires
        is_timestamp_text(ts),
        !is_whitespace(direction),
    ensures
        split_whitespace(raw_line_text(ts, can_id, data, direction)) == seq![
            ts,
            seq![direction],
            upper_hex(can_id as nat, 8),
        ] + data_words(data),
{
    lemma_timestamp_word(ts);
    lemma_pow16_facts();
    let hx = upper_hex(can_id as nat, 8);
    lemma_hex_word(can_id as nat, 8, 0xffff_ffff);
    let crlf = seq!['\r', '\n'];
    let rest2 = hx + data_text(data) + crlf;
    let rest1 = seq![direction] + seq![' '] + rest2;
    assert(raw_line_text(ts, can_id, data, direction) == ts + seq![' '] + rest1);
    lemma_split_word_then_space(ts, ' ', rest1);
    lemma_split_word_then_space(seq![direction], ' ', rest2);
    lemma_split_data_tail(hx, data);
}

/// The words of a RAW line whose direction tag is whitespace: the timestamp,
/// the CAN ID and one word per data byte.
proof fn lemma_raw_line_words_blank_tag(ts: Seq<char>, can_id: u32, data: Seq<u8>, direction: char)
    requires
        is_timestamp_text(ts),
        is_whitespace(direction),
    ensures
        split_whitespace(raw_line_text(ts, can_id, data, direction)) == seq![
            ts,
            upper_hex(can_id as nat, 8),
        ] + data_words(data),
{
    lemma_timestamp_word(ts);
    lemma_pow16_facts();
    let hx = upper_hex(can_id as nat, 8);
    lemma_hex_word(can_id as nat, 8, 0xffff_ffff);
    let crlf = seq!['\r', '\n'];
    let rest2 = hx + data_text(data) + crlf;
    let rest1 = seq![direction] + (seq![' '] + rest2);
    assert(raw_line_text(ts, can_id, data, direction) == ts + seq![' '] + rest1);
    lemma_split_word_then_space(ts, ' ', rest1);
    lemma_split_leading_space(direction, seq![' '] + rest2);
    lemma_split_leading_space(' ', rest2);
    lemma_split_data_tail(hx, data);
    assert(seq![ts] + (seq![hx] + data_words(data)) == seq![ts, hx] + data_words(data));
}

/// The words after the CAN ID read back as the data bytes.
proof fn lemma_parse_data_words(prefix: Seq<Seq<char>>, data: Seq<u8>)
    ensures
        ({
            let ws = prefix + data_words(data);
            let rest = ws.subrange(prefix.len() as int, ws.len() as int);
            &&& rest == data_words(data)
            &&& forall|j: int| 0 <= j < rest.len() ==> (#[trigger] parse_data_byte(rest[j])) is Some
            &&& Seq::new(rest.len(), |j: int| parse_data_byte(rest[j])->0 as u8) == data
        }),
{
    let ws = prefix + data_words(data);
    let rest = ws.subrange(prefix.len() as int, ws.len() as int);
    assert(rest == data_words(data));
    lemma_pow16_facts();
    assert forall|j: int| 0 <= j < rest.len() implies (#[trigger] parse_data_byte(rest[j])) == Some(
        data[j] as nat,
    ) by {
        lemma_hex_word(data[j] as nat, 2, 0xff);
    }
    assert(Seq::new(rest.len(), |j: int| parse_data_byte(rest[j])->0 as u8) == data);
}

/// Round trip of the RAW format: the line written for a frame reads back as
/// that frame, CAN ID and data bytes, whenever the direction tag is `R`, `T`
/// or a whitespace character (any other tag stands where the parser looks for
/// the CAN ID).
pub proof fn lemma_raw_line_roundtrip(ts: Seq<char>, can_id: u32, data: Seq<u8>, direction: char)
    requires
        is_timestamp_text(ts),
        direction == 'R' || direction == 'T' || is_whitespace(direction),
    ensures
        parse_raw_text(raw_line_text(ts, can_id, data, direction)) == Some((can_id, data)),
{
    lemma_timestamp_word(ts);
    lemma_pow16_facts();
    let hx = upper_hex(can_id as nat, 8);
    lemma_hex_word(can_id as nat, 8, 0xffff_ffff);
    if is_whitespace(direction) {
        lemma_raw_line_words_blank_tag(ts, can_id, data, direction);
        let ws = seq![ts, hx] + data_words(data);
        assert(ws[0] == ts && ws[1] == hx);
        if is_direction_word(hx) {
            assert(hx.len() == 1);
        }
        assert(can_id_position(ws) == 1);
        lemma_parse_data_words(seq![ts, hx], data);
    } else {
        lemma_raw_line_words(ts, can_id, data, direction);
        let ws = seq![ts, seq![direction], hx] + data_words(data);
        assert(ws[0] == ts && ws[1] == seq![direction] && ws[2] == hx);
        assert(can_id_position(ws) == 2);
        lemma_parse_data_words(seq![ts, seq![direction], hx], data);
    }
}

/// Any text whose UTF-8 encoding is the encoded RAW line for a frame reads back
/// as that frame, under the conditions of `lemma_raw_line_roundtrip`: what
/// `encode_raw_line` writes, `parse_raw_line` reads back.
pub proof fn lemma_encoded_line_reads_back(
    line: Seq<char>,
    ts: Seq<char>,
    can_id: u32,
    data: Seq<u8>,
    direction: char,
)
    requires
        is_timestamp_text(ts),
        direction == 'R' || direction == 'T' || is_whitespace(direction),
        encode_utf8(line) == encode_utf8(raw_line_text(ts, can_id, data, direction)),
    ensures
        parse_raw_text(line) == Some((can_id, data)),
{
    vstd::utf8::encode_utf8_decode_utf8(line);
    vstd::utf8::encode_utf8_decode_utf8(raw_line_text(ts, can_id, data, direction));
    lemma_raw_line_roundtrip(ts, can_id, data, direction);
}

/// The timestamp and the direction tag in front of a frame are optional: when
/// the first word of `words` is neither a timestamp nor a tag, putting a
/// timestamp, a tag, or both in that order in front of it does not change the
/// frame that the words denote.
pub proof fn lemma_optional_prefix(words: Seq<Seq<char>>, ts: Seq<char>, tag: Seq<char>)
    requires
        words.len() > 0 ==> !is_timestamp_word(words[0]) && !is_direction_word(words[0]),
        is_timestamp_word(ts),
        is_direction_word(tag),
    ensures
        parse_words(seq![ts] + words) == parse_words(words),
        parse_words(seq![tag] + words) == parse_words(words),
        parse_words(seq![ts, tag] + words) == parse_words(words),
{
    assert(!is_timestamp_word(tag)) by {
        assert(tag.len() == 1);
        vstd::utf8::is_ascii_chars_encode_utf8(tag);
        assert(vstd::utf8::is_ascii_chars(tag)) by {
            assert(tag[0] == 'R' || tag[0] == 'T');
        }
    }
    assert(can_id_position(words) == 0);
    let a = seq![ts] + words;
    let b = seq![tag] + words;
    let c = seq![ts, tag] + words;
    assert(a[0] == ts);
    assert(b[0] == tag);
    assert(c[0] == ts && c[1] == tag);
    if words.len() > 0 {
        assert(a[1] == words[0]);
    }
    assert(can_id_position(a) == 1);
    assert(can_id_position(b) == 1);
    assert(can_id_position(c) == 2);
    if words.len() > 0 {
        assert(a[1] == words[0] && b[1] == words[0] && c[2] == words[0]);
        assert(a.subrange(2, a.len() as int) == words.subrange(1, words.len() as int));
        assert(b.subrange(2, b.len() as int) == words.subrange(1, words.len() as int));
        assert(c.subrange(3, c.len() as int) == words.subrange(1, words.len() as int));
    }
}

} // verus!
