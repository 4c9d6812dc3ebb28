//! The bencoding value model and the recursive-descent decoder.

use vstd::prelude::*;

verus! {

/// One decoded bencoded value: the four grammar productions.
#[derive(Debug, PartialEq, Eq)]
pub enum Value {
    Integer(i64),
    ByteString(Vec<u8>),
    List(Vec<Value>),
    Dictionary(Vec<(String, Value)>),
}

/// The mathematical model of a decoded value: integers are unbounded,
/// byte strings and lists are sequences, dictionaries are ordered
/// sequences of key/value pairs with text keys.
pub enum SpecValue {
    Integer(int),
    Bytes(Seq<u8>),
    List(Seq<SpecValue>),
    Dict(Seq<(Seq<char>, SpecValue)>),
}

/// The model of an executable value.
pub open spec fn abs_value(v: Value) -> SpecValue
    decreases v,
{
    match v {
        Value::Integer(n) => SpecValue::Integer(n as int),
        Value::ByteString(b) => SpecValue::Bytes(b@),
        Value::List(items) => SpecValue::List(abs_list(items@)),
        Value::Dictionary(entries) => SpecValue::Dict(abs_entries(entries@)),
    }
}

/// The models of the elements of a list, in order.
pub open spec fn abs_list(items: Seq<Value>) -> Seq<SpecValue>
    decreases items,
{
    if items.len() == 0 {
        Seq::empty()
    } else {
        seq![abs_value(items[0])] + abs_list(items.drop_first())
    }
}

/// The models of the entries of a dictionary, in order.
pub open spec fn abs_entries(entries: Seq<(String, Value)>) -> Seq<(Seq<char>, SpecValue)>
    decreases entries,
{
    if entries.len() == 0 {
        Seq::empty()
    } else {
        seq![(entries[0].0@, abs_value(entries[0].1))] + abs_entries(entries.drop_first())
    }
}

/// What decoding a byte sequence yields: the textual form of the bytes
/// under UTF-8, or nothing where the bytes are not valid UTF-8.
pub uninterp spec fn utf8_decode(bytes: Seq<u8>) -> Option<Seq<char>>;

/// Relies on String::from_utf8: it returns Ok exactly when the bytes are
/// valid UTF-8, and the returned string spells those bytes out as text.
#[verifier::external_body]
pub(crate) fn bytes_to_string(bytes: Vec<u8>) -> (r: Option<String>)
    ensures
        r matches Some(s) ==> utf8_decode(bytes@) == Some(s@),
        r is None ==> utf8_decode(bytes@) is None,
{
    match String::from_utf8(bytes) {
        Ok(s) => Some(s),
        Err(_) => None,
    }
}

/// The byte that opens an integer.
pub const TOKEN_NUMBER: u8 = 105;

/// The byte that opens a list.
pub const TOKEN_LIST: u8 = 108;

/// The byte that opens a dictionary.
pub const TOKEN_START: u8 = 100;

/// The byte that closes an integer, a list or a dictionary.
pub const TOKEN_END: u8 = 101;

/// The byte that separates a byte string's length from its contents.
pub const TOKEN_DELIMITER: u8 = 58;

/// The byte for a minus sign.
pub const TOKEN_MINUS: u8 = 45;

/// Whether a byte is an ASCII decimal digit.
pub open spec fn is_digit(b: u8) -> bool {
    48 <= b <= 57
}

/// The value of a sequence of ASCII decimal digits.
pub open spec fn dec_val(digits: Seq<u8>) -> int
    decreases digits.len(),
{
    if digits.len() == 0 {
        0
    } else {
        dec_val(digits.drop_last()) * 10 + (digits.last() - 48)
    }
}

/// The first position at or after `i` that does not hold a digit,
/// or the end of the input.
pub open spec fn digit_run_end(s: Seq<u8>, i: int) -> int
    decreases s.len() - i,
{
    if i < 0 || i >= s.len() {
        i
    } else if is_digit(s[i]) {
        digit_run_end(s, i + 1)
    } else {
        i
    }
}

/// Parses a byte string at position `i`: a non-empty digit run, the
/// delimiter, then exactly as many raw bytes as the digits denote.
/// Yields the contents and the position after them.
pub open spec fn parse_bytes(s: Seq<u8>, i: int) -> Option<(Seq<u8>, int)> {
    let e = digit_run_end(s, i);
    if e == i {
        None
    } else if e >= s.len() || s[e] != TOKEN_DELIMITER {
        None
    } else {
        let len = dec_val(s.subrange(i, e));
        if e + 1 + len <= s.len() {
            Some((s.subrange(e + 1, e + 1 + len), e + 1 + len))
        } else {
            None
        }
    }
}

/// Parses an integer at position `i`, which holds the opening token:
/// an optional minus sign, a non-empty digit run, then the closing
/// token. The value must fit a 64-bit signed integer.
pub open spec fn parse_integer(s: Seq<u8>, i: int) -> Option<(int, int)> {
    let neg = i + 1 < s.len() && s[i + 1] == TOKEN_MINUS;
    let start = if neg {
        i + 2
    } else {
        i + 1
    };
    let e = digit_run_end(s, start);
    if e == start {
        None
    } else if e >= s.len() || s[e] != TOKEN_END {
        None
    } else {
        let m = dec_val(s.subrange(start, e));
        let n = if neg {
            -m
        } else {
            m
        };
        if i64::MIN <= n <= i64::MAX {
            Some((n, e + 1))
        } else {
            None
        }
    }
}

/// Parses one value at position `i`, dispatching on the byte there.
/// Yields the value and the position just after its encoding.
pub open spec fn parse_value(s: Seq<u8>, i: int) -> Option<(SpecValue, int)>
    decreases s.len() - i, 0int,
{
    if i < 0 || i >= s.len() {
        None
    } else if s[i] == TOKEN_NUMBER {
        match parse_integer(s, i) {
            Some((n, j)) => Some((SpecValue::Integer(n), j)),
            None => None,
        }
    } else if s[i] == TOKEN_LIST {
        match parse_list_items(s, i + 1) {
            Some((items, j)) => Some((SpecValue::List(items), j)),
            None => None,
        }
    } else if s[i] == TOKEN_START {
        match parse_dict_items(s, i + 1) {
            Some((entries, j)) => Some((SpecValue::Dict(entries), j)),
            None => None,
        }
    } else if is_digit(s[i]) {
        match parse_bytes(s, i) {
            Some((b, j)) => Some((SpecValue::Bytes(b), j)),
            None => None,
        }
    } else {
        None
    }
}

/// Parses list elements from position `i` up to and including the
/// closing token.
pub open spec fn parse_list_items(s: Seq<u8>, i: int) -> Option<(Seq<SpecValue>, int)>
    decreases s.len() - i, 1int,
{
    if i < 0 || i >= s.len() {
        None
    } else if s[i] == TOKEN_END {
        Some((Seq::empty(), i + 1))
    } else {
        match parse_value(s, i) {
            Some((v, j)) => if i < j <= s.len() {
                match parse_list_items(s, j) {
                    Some((rest, k)) => Some((seq![v] + rest, k)),
                    None => None,
                }
            } else {
                None
            },
            None => None,
        }
    }
}

/// Parses dictionary entries from position `i` up to and including the
/// closing token. Each key is a byte string whose bytes must be valid
/// UTF-8 text.
pub open spec fn parse_dict_items(s: Seq<u8>, i: int) -> Option<
    (Seq<(Seq<char>, SpecValue)>, int),
>
    decreases s.len() - i, 1int,
{
    if i < 0 || i >= s.len() {
        None
    } else if s[i] == TOKEN_END {
        Some((Seq::empty(), i + 1))
    } else {
        match parse_bytes(s, i) {
            Some((kb, j)) => match utf8_decode(kb) {
                Some(key) => if i < j <= s.len() {
                    match parse_value(s, j) {
                        Some((v, k)) => if j < k <= s.len() {
                            match parse_dict_items(s, k) {
                                Some((rest, m)) => Some((seq![(key, v)] + rest, m)),
                                None => None,
                            }
                        } else {
                            None
                        },
                        None => None,
                    }
                } else {
                    None
                },
                None => None,
            },
            None => None,
        }
    }
}

/// What decoding a whole buffer yields: the one top-level dictionary,
/// with any trailing bytes after its encoding ignored.
pub open spec fn spec_decode(s: Seq<u8>) -> Option<SpecValue> {
    match parse_value(s, 0) {
        Some((v, j)) => if v is Dict {
            Some(v)
        } else {
            None
        },
        None => None,
    }
}

/// A digit run's value is non-negative.
pub proof fn lemma_dec_val_nonneg(digits: Seq<u8>)
    requires
        forall|k: int| 0 <= k < digits.len() ==> is_digit(digits[k]),
    ensures
        dec_val(digits) >= 0,
    decreases digits.len(),
{
    if digits.len() > 0 {
        lemma_dec_val_nonneg(digits.drop_last());
    }
}

/// Reading one more digit multiplies the value by ten and adds the digit.
pub proof fn lemma_dec_val_step(s: Seq<u8>, i: int, cur: int)
    requires
        0 <= i <= cur < s.len(),
    ensures
        dec_val(s.subrange(i, cur + 1)) == dec_val(s.subrange(i, cur)) * 10 + (s[cur] - 48),
{
    let w = s.subrange(i, cur + 1);
    assert(w.drop_last() =~= s.subrange(i, cur));
    assert(w.last() == s[cur]);
}

/// Extending a digit run never lowers its value.
pub proof fn lemma_dec_val_monotone(s: Seq<u8>, i: int, a: int, b: int)
    requires
        0 <= i <= a <= b <= s.len(),
        forall|k: int| i <= k < b ==> is_digit(s[k]),
    ensures
        dec_val(s.subrange(i, a)) <= dec_val(s.subrange(i, b)),
    decreases b - a,
{
    if a < b {
        lemma_dec_val_monotone(s, i, a, b - 1);
        lemma_dec_val_step(s, i, b - 1);
        let prev = s.subrange(i, b - 1);
        assert(forall|k: int| 0 <= k < prev.len() ==> is_digit(prev[k]));
        lemma_dec_val_nonneg(prev);
    }
}

/// Scanning one digit moves the end of the run past it.
pub proof fn lemma_digit_run_end_step(s: Seq<u8>, i: int)
    requires
        0 <= i < s.len(),
        is_digit(s[i]),
    ensures
        digit_run_end(s, i) == digit_run_end(s, i + 1),
{
}

/// The end of a digit run lies between its start and the end of the
/// input, and everything before it is a digit.
pub proof fn lemma_digit_run_end_bounds(s: Seq<u8>, i: int)
    requires
        0 <= i <= s.len(),
    ensures
        i <= digit_run_end(s, i) <= s.len(),
        forall|k: int| i <= k < digit_run_end(s, i) ==> is_digit(s[k]),
    decreases s.len() - i,
{
    if i < s.len() && is_digit(s[i]) {
        lemma_digit_run_end_bounds(s, i + 1);
    }
}

/// The error a malformed buffer decodes to.
#[derive(Debug, Clone, PartialEq, Eq)]
pub struct DecodeError;

/// Scans the digit run that starts at `i` and returns its value,
/// or an error where there is no digit or the value does not fit.
fn scan_digits(data: &Vec<u8>, i: usize) -> (r: Result<(u64, usize), DecodeError>)
    requires
        i <= data@.len(),
    ensures
        r matches Ok((n, e)) ==> {
            &&& i < e <= data@.len()
            &&& e == digit_run_end(data@, i as int)
            &&& n == dec_val(data@.subrange(i as int, e as int))
        },
        r is Err ==> digit_run_end(data@, i as int) == i as int || dec_val(
            data@.subrange(i as int, digit_run_end(data@, i as int)),
        ) > u64::MAX,
{
    let ghost s = data@;
    let mut cur: usize = i;
    let mut acc: u64 = 0;
    proof {
        assert(s.subrange(i as int, i as int) =~= Seq::<u8>::empty());
    }
    while cur < data.len() && 48 <= data[cur] && data[cur] <= 57
        invariant
            i <= cur <= s.len(),
            data@ == s,
            digit_run_end(s, i as int) == digit_run_end(s, cur as int),
            forall|k: int| i <= k < cur ==> is_digit(s[k]),
            acc == dec_val(s.subrange(i as int, cur as int)),
        decreases s.len() - cur,
    {
        let d = (data[cur] - 48) as u64;
        proof {
            lemma_digit_run_end_step(s, cur as int);
            lemma_dec_val_step(s, i as int, cur as int);
        }
        if acc > u64::MAX / 10 || acc * 10 > u64::MAX - d {
            // The run's value already exceeds what any buffer can hold.
            proof {
                assert(acc * 10 + d > u64::MAX);
                lemma_digit_run_end_bounds(s, cur as int + 1);
                lemma_dec_val_monotone(s, i as int, cur as int + 1, digit_run_end(s, i as int));
            }
            return Err(DecodeError);
        }
        acc = acc * 10 + d;
        cur = cur + 1;
    }
    if cur == i {
        return Err(DecodeError);
    }
    Ok((acc, cur))
}

/// Decodes a byte string at position `i`: digits, the delimiter, then
/// the declared number of raw bytes.
fn decode_bytes(data: &Vec<u8>, i: usize) -> (r: Result<(Vec<u8>, usize), DecodeError>)
    requires
        i <= data@.len(),
    ensures
        r matches Ok((b, j)) ==> {
            &&& parse_bytes(data@, i as int) == Some((b@, j as int))
            &&& i < j <= data@.len()
        },
        r is Err ==> parse_bytes(data@, i as int) is None,
{
    let ghost s = data@;
    let total = data.len();
    let (len64, e) = match scan_digits(data, i) {
        Ok(p) => p,
        Err(err) => {
            proof {
                if digit_run_end(s, i as int) != i as int {
                    // The run's value exceeds u64::MAX, so the declared
                    // contents cannot lie within the buffer.
                    lemma_digit_run_end_bounds(s, i as int);
                }
            }
            return Err(err);
        },
    };
    if e >= data.len() || data[e] != TOKEN_DELIMITER {
        return Err(DecodeError);
    }
    let start = e + 1;
    if len64 > (data.len() - start) as u64 {
        return Err(DecodeError);
    }
    let len = len64 as usize;
    let mut out: Vec<u8> = Vec::new();
    let mut k: usize = 0;
    proof {
        assert(s.subrange(start as int, start as int) =~= Seq::<u8>::empty());
    }
    while k < len
        invariant
            data@ == s,
            k <= len,
            start + len <= total,
            total == s.len(),
            out@ == s.subrange(start as int, start as int + k as int),
        decreases len - k,
    {
        out.push(data[start + k]);
        proof {
            assert(s.subrange(start as int, start as int + k as int + 1) =~= s.subrange(
                start as int,
                start as int + k as int,
            ).push(s[start as int + k as int]));
        }
        k = k + 1;
    }
    Ok((out, start + len))
}

/// Decodes an integer whose opening token stands at position `i`.
fn decode_integer(data: &Vec<u8>, i: usize) -> (r: Result<(i64, usize), DecodeError>)
    requires
        i < data@.len(),
    ensures
        r matches Ok((n, j)) ==> {
            &&& parse_integer(data@, i as int) == Some((n as int, j as int))
            &&& i < j <= data@.len()
        },
        r is Err ==> parse_integer(data@, i as int) is None,
{
    let ghost s = data@;
    let total = data.len();
    let neg = i + 1 < total && data[i + 1] == TOKEN_MINUS;
    let start = if neg {
        i + 2
    } else {
        i + 1
    };
    let (m, e) = match scan_digits(data, start) {
        Ok(p) => p,
        Err(err) => {
            proof {
                if digit_run_end(s, start as int) != start as int {
                    lemma_digit_run_end_bounds(s, start as int);
                }
            }
            return Err(err);
        },
    };
    if e >= data.len() || data[e] != TOKEN_END {
        return Err(DecodeError);
    }
    if neg {
        if m > 9223372036854775808u64 {
            return Err(DecodeError);
        }
        let n: i64 = if m == 9223372036854775808u64 {
            i64::MIN
        } else {
            -(m as i64)
        };
        Ok((n, e + 1))
    } else {
        if m > i64::MAX as u64 {
            return Err(DecodeError);
        }
        Ok((m as i64, e + 1))
    }
}

/// List elements parse successfully only up to and including a closing
/// token that lies within the input.
pub proof fn lemma_parse_list_items_bounds(s: Seq<u8>, i: int)
    ensures
        parse_list_items(s, i) matches Some((items, j)) ==> i < j <= s.len() && s[j - 1]
            == TOKEN_END,
    decreases s.len() - i,
{
    if 0 <= i < s.len() && s[i] != TOKEN_END {
        match parse_value(s, i) {
            Some((v, j)) => {
                if i < j <= s.len() {
                    lemma_parse_list_items_bounds(s, j);
                }
            },
            None => {},
        }
    }
}

/// Dictionary entries parse successfully only up to and including a
/// closing token that lies within the input.
pub proof fn lemma_parse_dict_items_bounds(s: Seq<u8>, i: int)
    ensures
        parse_dict_items(s, i) matches Some((entries, j)) ==> i < j <= s.len() && s[j - 1]
            == TOKEN_END,
    decreases s.len() - i,
{
    if 0 <= i < s.len() && s[i] != TOKEN_END {
        match parse_bytes(s, i) {
            Some((kb, j)) => {
                if i < j <= s.len() {
                    match parse_value(s, j) {
                        Some((v, k)) => {
                            if j < k <= s.len() {
                                lemma_parse_dict_items_bounds(s, k);
                            }
                        },
                        None => {},
                    }
                }
            },
            None => {},
        }
    }
}

/// A successful parse starts inside the input, advances, and ends
/// within it: the decoder never reads past the buffer.
pub proof fn lemma_parse_value_bounds(s: Seq<u8>, i: int)
    ensures
        parse_value(s, i) matches Some((v, j)) ==> 0 <= i < j <= s.len(),
{
    if 0 <= i < s.len() {
        if s[i] == TOKEN_NUMBER {
            let neg = i + 1 < s.len() && s[i + 1] == TOKEN_MINUS;
            let start = if neg {
                i + 2
            } else {
                i + 1
            };
            lemma_digit_run_end_bounds(s, start);
        } else if s[i] == TOKEN_LIST {
            lemma_parse_list_items_bounds(s, i + 1);
        } else if s[i] == TOKEN_START {
            lemma_parse_dict_items_bounds(s, i + 1);
        } else if is_digit(s[i]) {
            lemma_digit_run_end_bounds(s, i);
            if parse_bytes(s, i) is Some {
                lemma_dec_val_nonneg(s.subrange(i, digit_run_end(s, i)));
            }
        }
    }
}

/// A list or dictionary decodes only where its closing token is
/// present: input that ends before the terminator does not decode.
pub proof fn lemma_collection_terminated(s: Seq<u8>, i: int)
    ensures
        parse_value(s, i) matches Some((v, j)) ==> ((v is List || v is Dict) ==> s[j - 1]
            == TOKEN_END),
{
    if 0 <= i < s.len() {
        if s[i] == TOKEN_LIST {
            lemma_parse_list_items_bounds(s, i + 1);
        } else if s[i] == TOKEN_START {
            lemma_parse_dict_items_bounds(s, i + 1);
        }
    }
}

/// A byte string whose declared length exceeds the bytes that remain
/// does not decode: the decoder rejects it rather than read past the
/// end of the input.
pub proof fn lemma_truncated_byte_string(s: Seq<u8>, i: int)
    requires
        0 <= i <= s.len(),
        digit_run_end(s, i) > i,
        digit_run_end(s, i) < s.len(),
        s[digit_run_end(s, i)] == TOKEN_DELIMITER,
        dec_val(s.subrange(i, digit_run_end(s, i))) > s.len() - digit_run_end(s, i) - 1,
    ensures
        parse_bytes(s, i) is None,
        parse_value(s, i) is None,
{
    lemma_digit_run_end_bounds(s, i);
    assert(is_digit(s[i]));
}

/// Prepending an element to a list prepends its model.
proof fn lemma_abs_list_cons(v: Value, rest: Seq<Value>)
    ensures
        abs_list(seq![v] + rest) == seq![abs_value(v)] + abs_list(rest),
{
    let w = seq![v] + rest;
    assert(w.drop_first() =~= rest);
}

/// Prepending an entry to a dictionary prepends its model.
proof fn lemma_abs_entries_cons(e: (String, Value), rest: Seq<(String, Value)>)
    ensures
        abs_entries(seq![e] + rest) == seq![(e.0@, abs_value(e.1))] + abs_entries(rest),
{
    let w = seq![e] + rest;
    assert(w.drop_first() =~= rest);
}

/// Decodes one value whose encoding starts at position `i`.
pub fn decode_value(data: &Vec<u8>, i: usize) -> (r: Result<(Value, usize), DecodeError>)
    requires
        i <= data@.len(),
    ensures
        r matches Ok((v, j)) ==> {
            &&& parse_value(data@, i as int) == Some((abs_value(v), j as int))
            &&& i < j <= data@.len()
        },
        r is Err ==> parse_value(data@, i as int) is None,
    decreases data@.len() - i, 0int,
{
    if i >= data.len() {
        return Err(DecodeError);
    }
    let tag = data[i];
    if tag == TOKEN_NUMBER {
        let (n, j) = decode_integer(data, i)?;
        Ok((Value::Integer(n), j))
    } else if tag == TOKEN_LIST {
        let (items, j) = decode_list_items(data, i + 1)?;
        Ok((Value::List(items), j))
    } else if tag == TOKEN_START {
        let (entries, j) = decode_dict_items(data, i + 1)?;
        Ok((Value::Dictionary(entries), j))
    } else if 48 <= tag && tag <= 57 {
        let (b, j) = decode_bytes(data, i)?;
        Ok((Value::ByteString(b), j))
    } else {
        Err(DecodeError)
    }
}

/// Decodes list elements from position `i` up to and including the
/// closing token.
fn decode_list_items(data: &Vec<u8>, i: usize) -> (r: Result<(Vec<Value>, usize), DecodeError>)
    requires
        i <= data@.len(),
    ensures
        r matches Ok((items, j)) ==> {
            &&& parse_list_items(data@, i as int) == Some((abs_list(items@), j as int))
            &&& i < j <= data@.len()
        },
        r is Err ==> parse_list_items(data@, i as int) is None,
    decreases data@.len() - i, 1int,
{
    if i >= data.len() {
        return Err(DecodeError);
    }
    if data[i] == TOKEN_END {
        let items: Vec<Value> = Vec::new();
        proof {
            assert(abs_list(items@) =~= Seq::<SpecValue>::empty());
        }
        return Ok((items, i + 1));
    }
    let (v, j) = decode_value(data, i)?;
    let (mut items, k) = decode_list_items(data, j)?;
    proof {
        lemma_abs_list_cons(v, items@);
        assert(items@.insert(0, v) =~= seq![v] + items@);
    }
    items.insert(0, v);
    Ok((items, k))
}

/// Decodes dictionary entries from position `i` up to and including the
/// closing token.
fn decode_dict_items(data: &Vec<u8>, i: usize) -> (r: Result<
    (Vec<(String, Value)>, usize),
    DecodeError,
>)
    requires
        i <= data@.len(),
    ensures
        r matches Ok((entries, j)) ==> {
            &&& parse_dict_items(data@, i as int) == Some((abs_entries(entries@), j as int))
            &&& i < j <= data@.len()
        },
        r is Err ==> parse_dict_items(data@, i as int) is None,
    decreases data@.len() - i, 1int,
{
    if i >= data.len() {
        return Err(DecodeError);
    }
    if data[i] == TOKEN_END {
        let entries: Vec<(String, Value)> = Vec::new();
        proof {
            assert(abs_entries(entries@) =~= Seq::<(Seq<char>, SpecValue)>::empty());
        }
        return Ok((entries, i + 1));
    }
    let (kb, j) = decode_bytes(data, i)?;
    let key = match bytes_to_string(kb) {
        Some(key) => key,
        None => {
            return Err(DecodeError);
        },
    };
    let (v, k) = decode_value(data, j)?;
    let (mut entries, m) = decode_dict_items(data, k)?;
    proof {
        lemma_abs_entries_cons((key, v), entries@);
        assert(entries@.insert(0, (key, v)) =~= seq![(key, v)] + entries@);
    }
    entries.insert(0, (key, v));
    Ok((entries, m))
}

/// The recursive-descent decoder over an owned byte buffer.
pub struct Decoder {
    encoded_data: Vec<u8>,
}

impl View for Decoder {
    type V = Seq<u8>;

    /// A decoder is modelled by the bytes it was given.
    closed spec fn view(&self) -> Seq<u8> {
        self.encoded_data@
    }
}

impl Decoder {
    /// Wraps a raw buffer for decoding.
    pub fn new(encoded_data: Vec<u8>) -> (d: Decoder)
        ensures
            d@ == encoded_data@,
    {
        Decoder { encoded_data }
    }

    /// Decodes the buffer's one top-level dictionary. Trailing bytes
    /// after its encoding are ignored.
    pub fn decode(self) -> (r: Result<Value, DecodeError>)
        ensures
            r matches Ok(v) ==> spec_decode(self@) == Some(abs_value(v)),
            r is Err ==> spec_decode(self@) is None,
    {
        match decode_value(&self.encoded_data, 0) {
            Ok((v, _)) => match v {
                Value::Dictionary(entries) => Ok(Value::Dictionary(entries)),
                _ => Err(DecodeError),
            },
            Err(e) => Err(e),
        }
    }
}

} // verus!
