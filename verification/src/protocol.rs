use vstd::prelude::*;
use vstd::slice::slice_subrange;
use vstd::utf8::{decode_utf8, valid_utf8, encode_utf8};
use crate::header::push_bytes;

verus! {

broadcast use vstd::std_specs::vec::axiom_vec_index_decreases;

/// A value of the text-framed wire protocol: five kinds, each introduced by a
/// one-byte type marker.
#[derive(Debug, PartialEq)]
pub enum RespValue {
    /// `+text\r\n`: a short success message.
    SimpleString(String),
    /// `-text\r\n`: a failure message.
    Error(String),
    /// `:n\r\n`: a signed 64-bit integer.
    Integer(i64),
    /// `$len\r\n<len bytes>\r\n`: binary-safe data with a length prefix.
    BulkString(Vec<u8>),
    /// `*count\r\n<count values>`: a sequence of values, recursively encoded.
    Array(Vec<RespValue>),
}

/// How the protocol parser rejects input it cannot read.
#[derive(Debug, Clone, Copy, PartialEq, Eq, Structural)]
pub enum ProtocolError {
    /// The first byte of the value is not one of the five type markers.
    UnknownType,
    /// The input ends before the value does.
    UnexpectedEof,
    /// A simple-string or error line is not valid text.
    InvalidText,
}

/// The two bytes that end every protocol line.
pub open spec fn crlf() -> Seq<u8> {
    seq![13u8, 10u8]
}

/// The decimal digits of a non-negative number, most significant first.
pub open spec fn spec_dec_nat(n: int) -> Seq<u8>
    recommends
        n >= 0,
    decreases n,
{
    if n < 10 {
        seq![(48 + if n >= 0 { n } else { 0 }) as u8]
    } else {
        spec_dec_nat(n / 10) + seq![(48 + n % 10) as u8]
    }
}

/// The decimal encoding of a signed number: a minus sign for negatives, then
/// the digits of its magnitude.
pub open spec fn spec_dec_int(i: int) -> Seq<u8> {
    if i < 0 {
        seq![45u8] + spec_dec_nat(-i)
    } else {
        spec_dec_nat(i)
    }
}

/// The exact bytes that encode a protocol value: its one-byte marker, its
/// text or length line, and its payload.
pub open spec fn spec_encode_resp(v: RespValue) -> Seq<u8>
    decreases v, 0int,
{
    match v {
        RespValue::SimpleString(s) => seq![43u8] + encode_utf8(s@) + crlf(),
        RespValue::Error(s) => seq![45u8] + encode_utf8(s@) + crlf(),
        RespValue::Integer(i) => seq![58u8] + spec_dec_int(i as int) + crlf(),
        RespValue::BulkString(d) => seq![36u8] + spec_dec_nat(d@.len() as int) + crlf() + d@
            + crlf(),
        RespValue::Array(vs) => seq![42u8] + spec_dec_nat(vs@.len() as int) + crlf()
            + spec_encode_items(vs@, vs@.len() as int),
    }
}

/// The concatenated encodings of the first `i` values of a sequence.
pub open spec fn spec_encode_items(s: Seq<RespValue>, i: int) -> Seq<u8>
    decreases s, i,
{
    if i <= 0 {
        Seq::empty()
    } else if i > s.len() {
        Seq::empty()
    } else {
        spec_encode_items(s, i - 1) + spec_encode_resp(s[i - 1])
    }
}

/// Whitespace as the parser trims it from the end of a line: the four ASCII
/// whitespace bytes. Trimming is done on the raw bytes, before any text
/// decoding, so non-ASCII whitespace characters are kept.
pub open spec fn is_ws(b: u8) -> bool {
    b == 32 || b == 9 || b == 13 || b == 10
}

/// A line with its trailing whitespace removed.
pub open spec fn trim_end_ws(line: Seq<u8>) -> Seq<u8>
    decreases line.len(),
{
    if line.len() > 0 && is_ws(line[line.len() - 1]) {
        trim_end_ws(line.drop_last())
    } else {
        line
    }
}

/// The position just after the first newline at or after `pos`, or the end of
/// the input if there is none: where the current line ends.
pub open spec fn line_end(input: Seq<u8>, pos: int) -> int
    decreases input.len() - pos,
{
    if pos < 0 || pos >= input.len() {
        input.len() as int
    } else if input[pos] == 10 {
        pos + 1
    } else {
        line_end(input, pos + 1)
    }
}

/// All bytes are decimal digits.
pub open spec fn all_digits(s: Seq<u8>) -> bool {
    forall|i: int| 0 <= i < s.len() ==> 48 <= #[trigger] s[i] <= 57
}

/// The number named by a digit string, most significant digit first.
pub open spec fn digits_val(s: Seq<u8>) -> int
    decreases s.len(),
{
    if s.len() == 0 {
        0
    } else {
        digits_val(s.drop_last()) * 10 + (s[s.len() - 1] - 48)
    }
}

/// What parsing a (trimmed) line as a signed 64-bit integer yields: an
/// optional sign, then at least one digit, with the value in range; anything
/// else is `None`.
pub open spec fn spec_parse_i64(s: Seq<u8>) -> Option<int> {
    let ds = if s.len() > 0 && (s[0] == 45 || s[0] == 43) {
        s.subrange(1, s.len() as int)
    } else {
        s
    };
    let neg = s.len() > 0 && s[0] == 45;
    if ds.len() == 0 || !all_digits(ds) {
        None
    } else {
        let v = if neg {
            -digits_val(ds)
        } else {
            digits_val(ds)
        };
        if i64::MIN <= v <= i64::MAX {
            Some(v)
        } else {
            None
        }
    }
}

/// The integer named by a line, or the default the parser falls back to when
/// the line is not a number.
pub open spec fn int_or_default(line: Seq<u8>, default: int) -> int {
    match spec_parse_i64(line) {
        Some(v) => v,
        None => default,
    }
}

/// Where the value starting at `pos` ends, assuming it is well-formed: just
/// past its line for the line kinds, past the payload and its closing line
/// break for bulk strings, and past the last element for arrays.
pub open spec fn parsed_end(input: Seq<u8>, pos: int, v: RespValue) -> int
    decreases v, 0int,
{
    let le = line_end(input, pos + 1);
    let line = trim_end_ws(input.subrange(pos + 1, le));
    match v {
        RespValue::SimpleString(s) => le,
        RespValue::Error(s) => le,
        RespValue::Integer(i) => le,
        RespValue::BulkString(d) => {
            let len = int_or_default(line, -1);
            if len < 0 {
                le
            } else {
                le + len + 2
            }
        },
        RespValue::Array(vs) => items_end(input, le, vs@, 0),
    }
}

/// Where a run of array elements from index `i` on ends, each element
/// starting where the previous one ended.
pub open spec fn items_end(input: Seq<u8>, pos: int, items: Seq<RespValue>, i: int) -> int
    decreases items, items.len() - i,
{
    if i < 0 || i >= items.len() {
        pos
    } else {
        items_end(input, parsed_end(input, pos, items[i]), items, i + 1)
    }
}

/// The grammar of one value read at `pos`: its marker byte, then its line —
/// running to just past the first newline and trimmed of trailing whitespace
/// before interpretation — and its payload. Malformed integer and length
/// lines fall back to a default instead of failing.
pub open spec fn resp_ok(input: Seq<u8>, pos: int, v: RespValue) -> bool
    decreases v, 1int,
{
    0 <= pos < input.len() && {
        let t = input[pos];
        let le = line_end(input, pos + 1);
        let line = trim_end_ws(input.subrange(pos + 1, le));
        match v {
            RespValue::SimpleString(s) => t == 43 && valid_utf8(line) && s@ == decode_utf8(line),
            RespValue::Error(s) => t == 45 && valid_utf8(line) && s@ == decode_utf8(line),
            RespValue::Integer(i) => t == 58 && i as int == int_or_default(line, 0),
            RespValue::BulkString(d) => t == 36 && {
                let len = int_or_default(line, -1);
                if len < 0 {
                    d@.len() == 0
                } else {
                    &&& le + len + 2 <= input.len()
                    &&& d@ == input.subrange(le, le + len)
                }
            },
            RespValue::Array(vs) => t == 42 && {
                let count = int_or_default(line, 0);
                &&& vs@.len() == (if count >= 0 {
                    count
                } else {
                    0
                })
                &&& items_ok(input, le, vs@, 0)
            },
        }
    }
}

/// The elements of an array from index `i` on are each well-formed, read one
/// after another from `pos`.
pub open spec fn items_ok(input: Seq<u8>, pos: int, items: Seq<RespValue>, i: int) -> bool
    decreases items, items.len() - i,
{
    if i < 0 || i >= items.len() {
        true
    } else {
        resp_ok(input, pos, items[i]) && items_ok(
            input,
            parsed_end(input, pos, items[i]),
            items,
            i + 1,
        )
    }
}

/// The grammar relation of the parser: value `v` is read from `input` at
/// `pos`, ending exactly at `end`.
pub open spec fn resp_parsed(input: Seq<u8>, pos: int, v: RespValue, end: int) -> bool {
    resp_ok(input, pos, v) && end == parsed_end(input, pos, v)
}

/// The grammar determines where a value ends: any two well-formed readings at
/// the same position end at the same place (the markers fix the kind, the
/// length line fixes a bulk string's extent, and array elements chain).
proof fn lemma_end_unique(input: Seq<u8>, pos: int, v1: RespValue, v2: RespValue)
    requires
        resp_ok(input, pos, v1),
        resp_ok(input, pos, v2),
    ensures
        parsed_end(input, pos, v1) == parsed_end(input, pos, v2),
    decreases v1, 2int,
{
    let le = line_end(input, pos + 1);
    match v1 {
        RespValue::Array(vs1) => {
            match v2 {
                RespValue::Array(vs2) => {
                    lemma_items_end_unique(input, le, vs1@, 0, vs2@, 0);
                },
                _ => {},
            }
        },
        _ => {},
    }
}

/// Two well-formed element runs of equal remaining length from one position
/// end at the same place.
proof fn lemma_items_end_unique(
    input: Seq<u8>,
    p: int,
    vs1: Seq<RespValue>,
    i: int,
    vs2: Seq<RespValue>,
    j: int,
)
    requires
        0 <= i <= vs1.len(),
        0 <= j <= vs2.len(),
        vs1.len() - i == vs2.len() - j,
        items_ok(input, p, vs1, i),
        items_ok(input, p, vs2, j),
    ensures
        items_end(input, p, vs1, i) == items_end(input, p, vs2, j),
    decreases vs1, vs1.len() - i,
{
    if i < vs1.len() {
        assert(resp_ok(input, p, vs1[i]));
        assert(resp_ok(input, p, vs2[j]));
        lemma_end_unique(input, p, vs1[i], vs2[j]);
        let p2 = parsed_end(input, p, vs1[i]);
        assert(items_ok(input, p2, vs1, i + 1));
        assert(items_ok(input, p2, vs2, j + 1));
        lemma_items_end_unique(input, p2, vs1, i + 1, vs2, j + 1);
    }
}

/// If a candidate element run is longer than a run the parser has already
/// read from the same position, the candidate's next element is well-formed
/// exactly where the shorter run ended: well-formed runs cannot diverge.
proof fn lemma_candidate_next(
    input: Seq<u8>,
    p: int,
    ws: Seq<RespValue>,
    i: int,
    items: Seq<RespValue>,
    j: int,
)
    requires
        0 <= i <= ws.len(),
        0 <= j <= items.len(),
        items.len() - j < ws.len() - i,
        items_ok(input, p, ws, i),
        items_ok(input, p, items, j),
    ensures
        resp_ok(input, items_end(input, p, items, j), ws[i + items.len() - j]),
    decreases items.len() - j,
{
    if j == items.len() {
        assert(items_end(input, p, items, j) == p);
        assert(resp_ok(input, p, ws[i]));
    } else {
        assert(resp_ok(input, p, items[j]));
        assert(resp_ok(input, p, ws[i]));
        lemma_end_unique(input, p, items[j], ws[i]);
        let p2 = parsed_end(input, p, items[j]);
        assert(items_ok(input, p2, items, j + 1));
        assert(items_ok(input, p2, ws, i + 1));
        lemma_candidate_next(input, p2, ws, i + 1, items, j + 1);
        assert(items_end(input, p, items, j) == items_end(input, p2, items, j + 1));
    }
}

/// Appending one more well-formed element extends a well-formed run by one,
/// moving its end to the new element's end.
proof fn lemma_items_push(input: Seq<u8>, pos: int, items: Seq<RespValue>, v: RespValue, i: int)
    requires
        0 <= i <= items.len(),
        items_ok(input, pos, items, i),
        resp_ok(input, items_end(input, pos, items, i), v),
    ensures
        items_ok(input, pos, items.push(v), i),
        items_end(input, pos, items.push(v), i) == parsed_end(
            input,
            items_end(input, pos, items, i),
            v,
        ),
    decreases items.len() - i,
{
    let pushed = items.push(v);
    if i == items.len() {
        assert(items_end(input, pos, items, i) == pos);
        assert(pushed[i] == v);
        assert(items_ok(input, parsed_end(input, pos, v), pushed, i + 1));
        assert(items_ok(input, pos, pushed, i));
        assert(items_end(input, pos, pushed, i) == items_end(
            input,
            parsed_end(input, pos, v),
            pushed,
            i + 1,
        ));
    } else {
        assert(pushed[i] == items[i]);
        assert(resp_ok(input, pos, items[i]));
        assert(items_end(input, pos, items, i) == items_end(
            input,
            parsed_end(input, pos, items[i]),
            items,
            i + 1,
        ));
        lemma_items_push(input, parsed_end(input, pos, items[i]), items, v, i + 1);
        assert(items_ok(input, parsed_end(input, pos, pushed[i]), pushed, i + 1));
        assert(items_ok(input, pos, pushed, i));
        assert(items_end(input, pos, pushed, i) == items_end(
            input,
            parsed_end(input, pos, pushed[i]),
            pushed,
            i + 1,
        ));
    }
}

/// Append the decimal digits of `n`.
fn push_dec_u64(out: &mut Vec<u8>, n: u64)
    ensures
        final(out)@ == old(out)@ + spec_dec_nat(n as int),
    decreases n,
{
    if n < 10 {
        out.push((48 + n as u8) as u8);
        proof {
            assert(final(out)@ =~= old(out)@ + spec_dec_nat(n as int));
        }
    } else {
        push_dec_u64(out, n / 10);
        out.push(48 + (n % 10) as u8);
        proof {
            assert(final(out)@ =~= old(out)@ + spec_dec_nat(n as int));
        }
    }
}

/// Append the decimal encoding of `i`, sign included.
fn push_dec_i64(out: &mut Vec<u8>, i: i64)
    ensures
        final(out)@ == old(out)@ + spec_dec_int(i as int),
{
    if i < 0 {
        out.push(45u8);
        let mag = (-(i as i128)) as u64;
        push_dec_u64(out, mag);
        proof {
            assert(final(out)@ =~= old(out)@ + spec_dec_int(i as int));
        }
    } else {
        push_dec_u64(out, i as u64);
    }
}

/// Encode a protocol value, appending its exact wire bytes to `out`.
#[verifier::loop_isolation(false)]
pub fn write_resp(out: &mut Vec<u8>, value: &RespValue)
    ensures
        final(out)@ == old(out)@ + spec_encode_resp(*value),
    decreases *value,
{
    match value {
        RespValue::SimpleString(s) => {
            out.push(43u8);
            push_bytes(out, s.as_str().as_bytes());
            out.push(13u8);
            out.push(10u8);
            proof {
                assert(final(out)@ =~= old(out)@ + spec_encode_resp(*value));
            }
        },
        RespValue::Error(s) => {
            out.push(45u8);
            push_bytes(out, s.as_str().as_bytes());
            out.push(13u8);
            out.push(10u8);
            proof {
                assert(final(out)@ =~= old(out)@ + spec_encode_resp(*value));
            }
        },
        RespValue::Integer(i) => {
            out.push(58u8);
            push_dec_i64(out, *i);
            out.push(13u8);
            out.push(10u8);
            proof {
                assert(final(out)@ =~= old(out)@ + spec_encode_resp(*value));
            }
        },
        RespValue::BulkString(d) => {
            out.push(36u8);
            push_dec_u64(out, d.len() as u64);
            out.push(13u8);
            out.push(10u8);
            push_bytes(out, d.as_slice());
            out.push(13u8);
            out.push(10u8);
            proof {
                assert(final(out)@ =~= old(out)@ + spec_encode_resp(*value));
            }
        },
        RespValue::Array(vs) => {
            out.push(42u8);
            push_dec_u64(out, vs.len() as u64);
            out.push(13u8);
            out.push(10u8);
            let ghost base = out@;
            let mut i: usize = 0;
            while i < vs.len()
                invariant
                    0 <= i <= vs@.len(),
                    out@ == base + spec_encode_items(vs@, i as int),
                decreases vs@.len() - i,
            {
                write_resp(out, &vs[i]);
                i += 1;
            }
            proof {
                assert(spec_encode_items(vs@, vs@.len() as int) == spec_encode_items(
                    vs@,
                    vs@.len() as int,
                ));
                assert(final(out)@ =~= old(out)@ + spec_encode_resp(*value));
            }
        },
    }
}


/// Whether a byte is whitespace, as the parser trims it.
fn ws_byte(b: u8) -> (r: bool)
    ensures
        r == is_ws(b),
{
    b == 32 || b == 9 || b == 13 || b == 10
}

/// Find where the line starting at `pos` ends: just past its newline, or at
/// the end of the input.
#[verifier::loop_isolation(false)]
fn find_line_end(input: &[u8], pos: usize) -> (r: usize)
    requires
        pos <= input@.len(),
    ensures
        r == line_end(input@, pos as int),
        pos <= r <= input@.len(),
{
    let mut k = pos;
    while k < input.len()
        invariant
            pos <= k <= input@.len(),
            line_end(input@, pos as int) == line_end(input@, k as int),
        decreases input@.len() - k,
    {
        if input[k] == 10 {
            return k + 1;
        }
        k += 1;
    }
    k
}

/// Scan back over trailing whitespace: the bytes up to the returned position
/// are the trimmed line.
#[verifier::loop_isolation(false)]
fn trim_upto(input: &[u8], start: usize, le: usize) -> (e: usize)
    requires
        start <= le <= input@.len(),
    ensures
        start <= e <= le,
        input@.subrange(start as int, e as int) == trim_end_ws(
            input@.subrange(start as int, le as int),
        ),
{
    let mut e = le;
    while e > start && ws_byte(input[e - 1])
        invariant
            start <= e <= le,
            trim_end_ws(input@.subrange(start as int, le as int)) == trim_end_ws(
                input@.subrange(start as int, e as int),
            ),
        decreases e,
    {
        proof {
            assert(input@.subrange(start as int, e as int).drop_last() =~= input@.subrange(
                start as int,
                e as int - 1,
            ));
        }
        e -= 1;
    }
    proof {
        assert(trim_end_ws(input@.subrange(start as int, e as int)) == input@.subrange(
            start as int,
            e as int,
        ));
    }
    e
}

/// Relies on core::str::from_utf8 and str::to_owned: the bytes decode to text
/// exactly when they are valid UTF-8, and decode per the UTF-8 specification.
#[verifier::external_body]
fn bytes_to_string(b: &[u8]) -> (r: Option<String>)
    ensures
        r is Some <==> valid_utf8(b@),
        r matches Some(s) ==> s@ == decode_utf8(b@),
{
    match core::str::from_utf8(b) {
        Ok(s) => Some(s.to_owned()),
        Err(_) => None,
    }
}

/// Parse a trimmed line as a signed 64-bit integer: an optional sign, then
/// digits, rejecting empty digit runs, other bytes, and out-of-range values.
#[verifier::loop_isolation(false)]
fn parse_i64(s: &[u8]) -> (r: Option<i64>)
    ensures
        match r {
            Some(x) => spec_parse_i64(s@) == Some(x as int),
            None => spec_parse_i64(s@) is None,
        },
{
    let n = s.len();
    let neg = n > 0 && s[0] == 45;
    let j: usize = if n > 0 && (s[0] == 45 || s[0] == 43) {
        1
    } else {
        0
    };
    let ghost ds = s@.subrange(j as int, n as int);
    proof {
        if j == 0 {
            assert(ds =~= s@);
        }
    }
    if j >= n {
        proof {
            assert(ds.len() == 0);
        }
        return None;
    }
    let mut acc: u128 = 0;
    let mut overflow = false;
    let mut k = j;
    while k < n
        invariant
            j <= k <= n,
            forall|p: int| j <= p < k ==> 48 <= #[trigger] s@[p] <= 57,
            !overflow ==> acc == digits_val(s@.subrange(j as int, k as int)) && acc
                <= u64::MAX as u128,
            overflow ==> digits_val(s@.subrange(j as int, k as int)) > u64::MAX,
        decreases n - k,
    {
        let c = s[k];
        if c < 48 || c > 57 {
            proof {
                assert(ds[k - j] == s@[k as int]);
                assert(!all_digits(ds));
            }
            return None;
        }
        let ghost pre = s@.subrange(j as int, k as int);
        let ghost cur = s@.subrange(j as int, k as int + 1);
        proof {
            assert(cur.drop_last() =~= pre);
            assert(cur[cur.len() - 1] == s@[k as int]);
            assert(digits_val(cur) == digits_val(pre) * 10 + (s@[k as int] - 48));
        }
        if !overflow {
            acc = acc * 10 + ((c - 48) as u128);
            if acc > u64::MAX as u128 {
                overflow = true;
            }
        } else {
            proof {
                assert(digits_val(pre) * 10 >= digits_val(pre)) by (nonlinear_arith)
                    requires
                        digits_val(pre) > u64::MAX,
                ;
            }
        }
        k += 1;
    }
    proof {
        assert(ds =~= s@.subrange(j as int, n as int));
        assert(all_digits(ds));
        assert(ds.len() > 0);
    }
    if overflow {
        return None;
    }
    if neg {
        if acc > 0x8000_0000_0000_0000u128 {
            return None;
        }
        Some((-(acc as i128)) as i64)
    } else {
        if acc > 0x7FFF_FFFF_FFFF_FFFFu128 {
            return None;
        }
        Some(acc as i64)
    }
}

/// When a bulk string's length line names more payload bytes than the input
/// holds, nothing parses at this position: the bulk reading runs past the
/// end, and every other kind demands a different marker.
proof fn lemma_no_parse_bulk_eof(input: Seq<u8>, pos: int, line: Seq<u8>, len: i64)
    requires
        0 <= pos < input.len(),
        input[pos] == 36,
        line == trim_end_ws(input.subrange(pos + 1, line_end(input, pos + 1))),
        int_or_default(line, -1) == len as int,
        len >= 0,
        line_end(input, pos + 1) + len + 2 > input.len(),
    ensures
        forall|v: RespValue, end: int| !resp_parsed(input, pos, v, end),
{
    assert forall|v: RespValue, end: int| !resp_parsed(input, pos, v, end) by {
        if resp_ok(input, pos, v) {
            match v {
                RespValue::BulkString(_) => {
                    assert(line_end(input, pos + 1) + len + 2 <= input.len());
                },
                RespValue::SimpleString(_) => {
                    assert(input[pos] == 43);
                },
                RespValue::Error(_) => {
                    assert(input[pos] == 45);
                },
                RespValue::Integer(_) => {
                    assert(input[pos] == 58);
                },
                RespValue::Array(_) => {
                    assert(input[pos] == 42);
                },
            }
        }
    }
}

/// Parse one protocol value from `input` at `pos`. Any value returned is a
/// correct reading of the grammar, together with the position just past it,
/// and every input on which the grammar has a reading is parsed: an error
/// comes back only when no value can be read at `pos`. Input that starts
/// beyond the end or with an unknown marker is rejected exactly as stated,
/// and input that ends mid-value is rejected with `UnexpectedEof`.
#[verifier::loop_isolation(false)]
#[verifier::rlimit(100)]
pub fn parse_resp(input: &[u8], pos: usize) -> (r: Result<(RespValue, usize), ProtocolError>)
    ensures
        r matches Ok(pr) ==> resp_parsed(input@, pos as int, pr.0, pr.1 as int) && pos < pr.1
            && pr.1 <= input@.len(),
        (pos as int) >= input@.len() ==> (r matches Err(er) && er == ProtocolError::UnexpectedEof),
        ((pos as int) < input@.len() && !(input@[pos as int] == 43 || input@[pos as int] == 45
            || input@[pos as int] == 58 || input@[pos as int] == 36 || input@[pos as int] == 42))
            ==> (r matches Err(er) && er == ProtocolError::UnknownType),
        ((pos as int) < input@.len() && (input@[pos as int] == 43 || input@[pos as int] == 45)
            && !valid_utf8(
            trim_end_ws(input@.subrange(pos as int + 1, line_end(input@, pos as int + 1))),
        )) ==> (r matches Err(er) && er == ProtocolError::InvalidText),
        (exists|v: RespValue, end: int| resp_parsed(input@, pos as int, v, end)) ==> r is Ok,
    decreases input@.len() - pos,
{
    if pos >= input.len() {
        proof {
            assert forall|v: RespValue, end: int| !resp_parsed(input@, pos as int, v, end) by {
                assert(!resp_ok(input@, pos as int, v));
            }
        }
        return Err(ProtocolError::UnexpectedEof);
    }
    let t = input[pos];
    let le = find_line_end(input, pos + 1);
    let e = trim_upto(input, pos + 1, le);
    let ghost line = trim_end_ws(input@.subrange(pos as int + 1, le as int));
    if t == 43 || t == 45 {
        let lb = slice_subrange(input, pos + 1, e);
        match bytes_to_string(lb) {
            Some(s) => {
                if t == 43 {
                    Ok((RespValue::SimpleString(s), le))
                } else {
                    Ok((RespValue::Error(s), le))
                }
            },
            None => {
                proof {
                    assert(!valid_utf8(line));
                    assert forall|v: RespValue, end: int| !resp_parsed(
                        input@,
                        pos as int,
                        v,
                        end,
                    ) by {
                        if resp_ok(input@, pos as int, v) {
                            match v {
                                RespValue::SimpleString(_) => {
                                    assert(valid_utf8(line));
                                },
                                RespValue::Error(_) => {
                                    assert(valid_utf8(line));
                                },
                                RespValue::Integer(_) => {
                                    assert(input@[pos as int] == 58);
                                },
                                RespValue::BulkString(_) => {
                                    assert(input@[pos as int] == 36);
                                },
                                RespValue::Array(_) => {
                                    assert(input@[pos as int] == 42);
                                },
                            }
                        }
                    }
                }
                Err(ProtocolError::InvalidText)
            },
        }
    } else if t == 58 {
        let v: i64 = match parse_i64(slice_subrange(input, pos + 1, e)) {
            Some(v) => v,
            None => 0,
        };
        Ok((RespValue::Integer(v), le))
    } else if t == 36 {
        let len: i64 = match parse_i64(slice_subrange(input, pos + 1, e)) {
            Some(v) => v,
            None => -1,
        };
        if len < 0 {
            Ok((RespValue::BulkString(Vec::new()), le))
        } else {
            if (len as u64) > (input.len() - le) as u64 {
                proof {
                    lemma_no_parse_bulk_eof(input@, pos as int, line, len);
                }
                return Err(ProtocolError::UnexpectedEof);
            }
            let lenu = len as usize;
            if input.len() - le - lenu < 2 {
                proof {
                    lemma_no_parse_bulk_eof(input@, pos as int, line, len);
                }
                return Err(ProtocolError::UnexpectedEof);
            }
            let d = vstd::slice::slice_to_vec(slice_subrange(input, le, le + lenu));
            Ok((RespValue::BulkString(d), le + lenu + 2))
        }
    } else if t == 42 {
        let count: i64 = match parse_i64(slice_subrange(input, pos + 1, e)) {
            Some(v) => v,
            None => 0,
        };
        if count <= 0 {
            proof {
                let ghost ev = Seq::<RespValue>::empty();
                assert(items_ok(input@, le as int, ev, 0));
                assert(items_end(input@, le as int, ev, 0) == le as int);
            }
            Ok((RespValue::Array(Vec::new()), le))
        } else {
            let mut items: Vec<RespValue> = Vec::new();
            let mut cur = le;
            let mut k: u64 = 0;
            while k < count as u64
                invariant
                    0 <= k <= count as u64,
                    le <= cur <= input@.len(),
                    pos < cur,
                    items@.len() == k,
                    items_ok(input@, le as int, items@, 0),
                    items_end(input@, le as int, items@, 0) == cur as int,
                decreases count as u64 - k,
            {
                let (v, next) = match parse_resp(input, cur) {
                    Ok(pr) => pr,
                    Err(er) => {
                        proof {
                            assert forall|w: RespValue, end: int| !resp_parsed(
                                input@,
                                pos as int,
                                w,
                                end,
                            ) by {
                                if resp_ok(input@, pos as int, w) {
                                    match w {
                                        RespValue::Array(ws) => {
                                            assert(int_or_default(line, 0) == count as int);
                                            assert(ws@.len() == count as int);
                                            assert(items_ok(input@, le as int, ws@, 0));
                                            lemma_candidate_next(
                                                input@,
                                                le as int,
                                                ws@,
                                                0,
                                                items@,
                                                0,
                                            );
                                            let q = ws@[items@.len() as int];
                                            assert(resp_ok(input@, cur as int, q));
                                            assert(resp_parsed(
                                                input@,
                                                cur as int,
                                                q,
                                                parsed_end(input@, cur as int, q),
                                            ));
                                        },
                                        RespValue::SimpleString(_) => {
                                            assert(input@[pos as int] == 43);
                                        },
                                        RespValue::Error(_) => {
                                            assert(input@[pos as int] == 45);
                                        },
                                        RespValue::Integer(_) => {
                                            assert(input@[pos as int] == 58);
                                        },
                                        RespValue::BulkString(_) => {
                                            assert(input@[pos as int] == 36);
                                        },
                                    }
                                }
                            }
                        }
                        return Err(er);
                    },
                };
                proof {
                    lemma_items_push(input@, le as int, items@, v, 0);
                }
                items.push(v);
                cur = next;
                k += 1;
            }
            Ok((RespValue::Array(items), cur))
        }
    } else {
        proof {
            assert forall|v: RespValue, end: int| !resp_parsed(input@, pos as int, v, end) by {
                if resp_ok(input@, pos as int, v) {
                    match v {
                        RespValue::SimpleString(_) => {
                            assert(input@[pos as int] == 43);
                        },
                        RespValue::Error(_) => {
                            assert(input@[pos as int] == 45);
                        },
                        RespValue::Integer(_) => {
                            assert(input@[pos as int] == 58);
                        },
                        RespValue::BulkString(_) => {
                            assert(input@[pos as int] == 36);
                        },
                        RespValue::Array(_) => {
                            assert(input@[pos as int] == 42);
                        },
                    }
                }
            }
        }
        Err(ProtocolError::UnknownType)
    }
}

} // verus!
