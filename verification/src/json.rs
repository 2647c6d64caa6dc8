use vstd::prelude::*;

verus! {

/// The library's own shape for one parsed JSON document.  Numbers keep
/// only what the input grammar needs: unsigned integers (times, state
/// values) are held exactly, negative integers are kept for error
/// reporting, and anything else (a fraction, an exponent, an integer
/// beyond both ranges) keeps its printed form.
#[derive(Debug)]
pub enum JsonValue {
    Null,
    Bool(bool),
    UInt(u64),
    NegInt(i64),
    OtherNum(String),
    Str(String),
    Arr(Vec<JsonValue>),
    Obj(Vec<(String, JsonValue)>),
}

/// One step of reading concatenated JSON documents from a byte stream:
/// nothing left but whitespace, one document (with the bytes consumed),
/// or a syntax error with its report.
#[derive(Debug)]
pub enum ParseStep {
    End,
    Value { v: JsonValue, consumed: usize },
    Fail { msg: String },
}

#[verifier::external_type_specification]
#[verifier::external_body]
pub struct ExSerdeValue(serde_json::Value);

enum RawStep {
    End,
    Object(serde_json::Value, usize),
    Fail(String),
}

/// The library's view of a `serde_json` tree.
pub uninterp spec fn value_model(v: serde_json::Value) -> JsonValue;

/// What reading the next JSON document from the given bytes yields; JSON
/// parsing is a function of the bytes alone.
pub uninterp spec fn json_next(s: Seq<u8>) -> ParseStep;

/// Relies on serde_json's `StreamDeserializer` over a byte slice: `next`
/// yields the next concatenated document (or nothing, or a syntax
/// error), and `byte_offset` is the offset just past it, which is at
/// least one byte in and never beyond the input.
#[verifier::external_body]
fn parse_next_raw(s: &[u8]) -> (r: RawStep)
    ensures
        (match r {
            RawStep::End => json_next(s@) == ParseStep::End,
            RawStep::Object(v, c) => json_next(s@) == (ParseStep::Value {
                v: value_model(v),
                consumed: c,
            }) && 1 <= c <= s@.len(),
            RawStep::Fail(m) => json_next(s@) == (ParseStep::Fail { msg: m }),
        }),
{
    let mut it = serde_json::Deserializer::from_slice(s).into_iter::<serde_json::Value>();
    match it.next() {
        None => RawStep::End,
        Some(Ok(v)) => RawStep::Object(v, it.byte_offset()),
        Some(Err(e)) => RawStep::Fail(e.to_string()),
    }
}

/// Relies on serde_json's `Value`: rebuilds the parsed tree in the
/// library's own shape, arm by arm; `Number` is split by `as_u64` /
/// `as_i64`, with `to_string` keeping the printed form of the rest.
#[verifier::external_body]
fn value_to_json(v: serde_json::Value) -> (r: JsonValue)
    ensures
        r == value_model(v),
{
    match v {
        serde_json::Value::Null => JsonValue::Null,
        serde_json::Value::Bool(b) => JsonValue::Bool(b),
        serde_json::Value::Number(n) => match (n.as_u64(), n.as_i64()) {
            (Some(u), _) => JsonValue::UInt(u),
            (None, Some(i)) => JsonValue::NegInt(i),
            (None, None) => JsonValue::OtherNum(n.to_string()),
        },
        serde_json::Value::String(t) => JsonValue::Str(t),
        serde_json::Value::Array(a) => JsonValue::Arr(a.into_iter().map(value_to_json).collect()),
        serde_json::Value::Object(m) => JsonValue::Obj(
            m.into_iter().map(|(k, x)| (k, value_to_json(x))).collect(),
        ),
    }
}

/// Reads the next JSON document off the front of `s`.
pub fn next_object(s: &[u8]) -> (r: ParseStep)
    ensures
        r == json_next(s@),
        (match r {
            ParseStep::Value { consumed, .. } => 1 <= consumed <= s@.len(),
            _ => true,
        }),
{
    match parse_next_raw(s) {
        RawStep::End => ParseStep::End,
        RawStep::Fail(m) => ParseStep::Fail { msg: m },
        RawStep::Object(v, c) => ParseStep::Value { v: value_to_json(v), consumed: c },
    }
}

/// Character-for-character string equality.
pub fn str_eq(a: &str, b: &str) -> (r: bool)
    ensures
        r == (a@ == b@),
{
    let la = a.unicode_len();
    let lb = b.unicode_len();
    if la != lb {
        return false;
    }
    let mut i: usize = 0;
    while i < la
        invariant
            i <= la,
            la == a@.len(),
            la == b@.len(),
            forall|j: int| 0 <= j < i ==> a@[j] == b@[j],
        decreases la - i,
    {
        if a.get_char(i) != b.get_char(i) {
            return false;
        }
        i = i + 1;
    }
    proof {
        assert(a@ =~= b@);
    }
    true
}

/// First binding of `name` in an object's field list.
pub open spec fn obj_lookup(fs: Seq<(String, JsonValue)>, name: Seq<char>) -> Option<JsonValue>
    decreases fs.len(),
{
    if fs.len() == 0 {
        Option::None
    } else if fs[0].0@ == name {
        Option::Some(fs[0].1)
    } else {
        obj_lookup(fs.drop_first(), name)
    }
}

/// Looks a field up in an object's field list.
pub fn obj_get<'a>(fs: &'a Vec<(String, JsonValue)>, name: &str) -> (r: Option<&'a JsonValue>)
    ensures
        (match r {
            Some(v) => obj_lookup(fs@, name@) == Option::Some(*v),
            None => obj_lookup(fs@, name@) is None,
        }),
{
    let mut i: usize = 0;
    proof {
        assert(fs@.skip(0) =~= fs@);
    }
    while i < fs.len()
        invariant
            i <= fs@.len(),
            obj_lookup(fs@, name@) == obj_lookup(fs@.skip(i as int), name@),
        decreases fs@.len() - i,
    {
        proof {
            assert(fs@.skip(i as int).drop_first() =~= fs@.skip(i as int + 1));
            assert(fs@.skip(i as int)[0] == fs@[i as int]);
        }
        if str_eq(fs[i].0.as_str(), name) {
            return Some(&fs[i].1);
        }
        i = i + 1;
    }
    proof {
        assert(fs@.skip(i as int).len() == 0);
    }
    None
}

pub open spec fn is_digit(c: char) -> bool {
    48 <= c as int && c as int <= 57
}

pub open spec fn all_digits(s: Seq<char>) -> bool {
    s.len() > 0 && forall|i: int| 0 <= i < s.len() ==> is_digit(#[trigger] s[i])
}

/// Value of a decimal digit string.
pub open spec fn digits_val(s: Seq<char>) -> int
    decreases s.len(),
{
    if s.len() == 0 {
        0
    } else {
        digits_val(s.drop_last()) * 10 + (s.last() as int - 48)
    }
}

/// What `u64` parsing of a decimal string accepts: an optional leading
/// `+`, then one or more digits whose value fits.
pub open spec fn parse_u64_spec(s: Seq<char>) -> Option<u64> {
    let body = if s.len() > 0 && s[0] == '+' {
        s.drop_first()
    } else {
        s
    };
    if all_digits(body) && digits_val(body) <= u64::MAX {
        Option::Some(digits_val(body) as u64)
    } else {
        Option::<u64>::None
    }
}

proof fn lemma_digits_val_nonneg(s: Seq<char>)
    requires
        forall|i: int| 0 <= i < s.len() ==> is_digit(#[trigger] s[i]),
    ensures
        digits_val(s) >= 0,
    decreases s.len(),
{
    if s.len() > 0 {
        lemma_digits_val_nonneg(s.drop_last());
    }
}

proof fn lemma_digits_val_take_step(s: Seq<char>, i: int)
    requires
        0 <= i < s.len(),
    ensures
        digits_val(s.take(i + 1)) == digits_val(s.take(i)) * 10 + (s[i] as int - 48),
{
    assert(s.take(i + 1).drop_last() =~= s.take(i));
    assert(s.take(i + 1).last() == s[i]);
}

/// A digit string's value only grows as it extends.
proof fn lemma_digits_val_prefix(s: Seq<char>, i: int)
    requires
        0 <= i <= s.len(),
        forall|k: int| 0 <= k < s.len() ==> is_digit(#[trigger] s[k]),
    ensures
        digits_val(s.take(i)) <= digits_val(s),
    decreases s.len() - i,
{
    if i < s.len() {
        lemma_digits_val_take_step(s, i);
        lemma_digits_val_nonneg(s.take(i));
        lemma_digits_val_prefix(s, i + 1);
    } else {
        assert(s.take(i) =~= s);
    }
}

/// Parses a decimal `u64` from a string, as strict `u64` parsing does:
/// an optional leading plus sign, then digits only, and no overflow.
pub fn parse_u64_str(s: &str) -> (r: Option<u64>)
    ensures
        r == parse_u64_spec(s@),
{
    let len = s.unicode_len();
    if len == 0 {
        return None;
    }
    let first = s.get_char(0);
    let start: usize = if first == '+' {
        1
    } else {
        0
    };
    let ghost body = if first == '+' {
        s@.drop_first()
    } else {
        s@
    };
    proof {
        assert(forall|k: int| 0 <= k < body.len() ==> body[k] == s@[k + (if first == '+' { 1int } else { 0 })]);
    }
    if len == start {
        return None;
    }
    let mut acc: u64 = 0;
    let mut i: usize = start;
    while i < len
        invariant
            start <= i <= len,
            start == (if s@.len() > 0 && s@[0] == '+' { 1int } else { 0 }),
            len == s@.len(),
            body == (if s@.len() > 0 && s@[0] == '+' { s@.drop_first() } else { s@ }),
            body.len() == len - start,
            forall|k: int| 0 <= k < body.len() ==> body[k] == s@[k + start],
            forall|k: int| 0 <= k < i - start ==> is_digit(#[trigger] body[k]),
            acc == digits_val(body.take(i - start)),
        decreases len - i,
    {
        let c = s.get_char(i);
        let cv = c as u32;
        if cv < 48 || cv > 57 {
            proof {
                assert(!is_digit(body[i - start]));
                assert(!all_digits(body));
            }
            return None;
        }
        let d: u64 = (cv - 48) as u64;
        proof {
            lemma_digits_val_take_step(body, i - start);
            lemma_digits_val_nonneg(body.take(i - start));
        }
        if acc > (u64::MAX - d) / 10 {
            proof {
                assert(acc * 10 + d > u64::MAX) by (nonlinear_arith)
                    requires
                        acc > (u64::MAX - d) / 10,
                        d <= 9,
                        acc >= 0,
                ;
                if all_digits(body) {
                    lemma_digits_val_prefix(body, i - start + 1);
                    assert(digits_val(body) > u64::MAX);
                }
            }
            return None;
        }
        proof {
            assert(acc * 10 + d <= u64::MAX) by (nonlinear_arith)
                requires
                    acc <= (u64::MAX - d) / 10,
                    d <= 9,
                    acc >= 0,
            ;
        }
        acc = acc * 10 + d;
        i = i + 1;
    }
    proof {
        assert(body.take(len - start) =~= body);
        assert(all_digits(body));
    }
    Some(acc)
}

pub open spec fn digit_char(d: int) -> char {
    if d == 0 {
        '0'
    } else if d == 1 {
        '1'
    } else if d == 2 {
        '2'
    } else if d == 3 {
        '3'
    } else if d == 4 {
        '4'
    } else if d == 5 {
        '5'
    } else if d == 6 {
        '6'
    } else if d == 7 {
        '7'
    } else if d == 8 {
        '8'
    } else {
        '9'
    }
}

/// The decimal rendering of a number, most significant digit first.
pub open spec fn dec_str(v: int) -> Seq<char>
    decreases v,
{
    if v < 10 {
        seq![digit_char(v)]
    } else {
        dec_str(v / 10) + seq![digit_char(v % 10)]
    }
}

fn digit_str(d: u64) -> (r: &'static str)
    requires
        d < 10,
    ensures
        r@ == seq![digit_char(d as int)],
{
    proof {
        reveal_strlit("0");
        reveal_strlit("1");
        reveal_strlit("2");
        reveal_strlit("3");
        reveal_strlit("4");
        reveal_strlit("5");
        reveal_strlit("6");
        reveal_strlit("7");
        reveal_strlit("8");
        reveal_strlit("9");
    }
    let r = match d {
        0 => "0",
        1 => "1",
        2 => "2",
        3 => "3",
        4 => "4",
        5 => "5",
        6 => "6",
        7 => "7",
        8 => "8",
        _ => "9",
    };
    proof {
        assert(r@ =~= seq![digit_char(d as int)]);
    }
    r
}

/// Renders a number in decimal.
pub fn u64_to_string(v: u64) -> (s: String)
    ensures
        s@ == dec_str(v as int),
    decreases v,
{
    if v < 10 {
        String::from_str(digit_str(v))
    } else {
        let mut s = u64_to_string(v / 10);
        s.append(digit_str(v % 10));
        proof {
            assert(s@ =~= dec_str(v as int));
        }
        s
    }
}

/// Bytes the original reader treats as whitespace when attributing an
/// error to a line: the ASCII whitespace bytes plus the two Latin-1
/// whitespace code points.
pub open spec fn is_ws_byte(b: u8) -> bool {
    b == 9 || b == 10 || b == 11 || b == 12 || b == 13 || b == 32 || b == 0x85 || b == 0xa0
}

pub open spec fn count_nl(s: Seq<u8>) -> int
    decreases s.len(),
{
    if s.len() == 0 {
        0
    } else {
        count_nl(s.drop_last()) + (if s.last() == 10 {
            1int
        } else {
            0
        })
    }
}

/// Newlines inside the whitespace run that begins at `i`.
pub open spec fn leading_ws_nls(s: Seq<u8>, i: int) -> int
    decreases s.len() - i,
{
    if i < 0 || i >= s.len() || !is_ws_byte(s[i]) {
        0
    } else {
        (if s[i] == 10 {
            1int
        } else {
            0
        }) + leading_ws_nls(s, i + 1)
    }
}

/// The 1-based line number reported for a payload that begins at
/// `byte_offset`: newlines before the offset, plus those of the
/// whitespace run that follows it (so the report points at the first
/// non-blank character of the payload).
pub open spec fn line_number_spec(data: Seq<u8>, byte_offset: int) -> int {
    1 + count_nl(data.take(byte_offset)) + leading_ws_nls(data, byte_offset)
}

proof fn lemma_count_nl_take_step(s: Seq<u8>, i: int)
    requires
        0 <= i < s.len(),
    ensures
        count_nl(s.take(i + 1)) == count_nl(s.take(i)) + (if s[i] == 10 {
            1int
        } else {
            0
        }),
{
    assert(s.take(i + 1).drop_last() =~= s.take(i));
    assert(s.take(i + 1).last() == s[i]);
}

proof fn lemma_count_nl_bound(s: Seq<u8>)
    ensures
        0 <= count_nl(s) <= s.len(),
    decreases s.len(),
{
    if s.len() > 0 {
        lemma_count_nl_bound(s.drop_last());
    }
}

proof fn lemma_leading_ws_bound(s: Seq<u8>, i: int)
    requires
        0 <= i <= s.len(),
    ensures
        0 <= leading_ws_nls(s, i) <= s.len() - i,
    decreases s.len() - i,
{
    if i < s.len() && is_ws_byte(s[i]) {
        lemma_leading_ws_bound(s, i + 1);
    }
}

/// The 1-based input line a payload at `byte_offset` stands on, counting
/// the line of its first non-blank character.
pub fn line_number(data: &[u8], byte_offset: usize) -> (r: usize)
    requires
        byte_offset <= data@.len(),
        data@.len() < usize::MAX,
    ensures
        r == line_number_spec(data@, byte_offset as int),
{
    let n = data.len();
    let mut nls: usize = 0;
    let mut i: usize = 0;
    while i < byte_offset
        invariant
            i <= byte_offset <= n,
            n == data@.len(),
            n < usize::MAX,
            nls == count_nl(data@.take(i as int)),
            nls <= i,
        decreases byte_offset - i,
    {
        proof {
            lemma_count_nl_take_step(data@, i as int);
        }
        if *vstd::slice::slice_index_get(data, i) == 10 {
            nls = nls + 1;
        }
        i = i + 1;
    }
    let mut j: usize = byte_offset;
    let ghost base = nls as int;
    while j < n
        invariant
            byte_offset <= j <= n,
            n == data@.len(),
            n < usize::MAX,
            base == count_nl(data@.take(byte_offset as int)),
            forall|k: int| byte_offset <= k < j ==> is_ws_byte(#[trigger] data@[k]),
            nls == base + count_ws_nls_between(data@, byte_offset as int, j as int),
            nls <= j,
        decreases n - j,
    {
        let b = *vstd::slice::slice_index_get(data, j);
        if b == 10 {
            nls = nls + 1;
        }
        if !(b == 9 || b == 10 || b == 11 || b == 12 || b == 13 || b == 32 || b == 0x85 || b
            == 0xa0) {
            proof {
                lemma_ws_nls_decompose(data@, byte_offset as int, j as int);
            }
            return nls + 1;
        }
        proof {
            lemma_ws_between_step(data@, byte_offset as int, j as int);
        }
        j = j + 1;
    }
    proof {
        lemma_ws_nls_decompose(data@, byte_offset as int, n as int);
    }
    nls + 1
}

/// Newlines among `s[from..to)` (used while walking a whitespace run).
spec fn count_ws_nls_between(s: Seq<u8>, from: int, to: int) -> int
    decreases to - from,
{
    if from >= to {
        0
    } else {
        (if s[from] == 10 {
            1int
        } else {
            0
        }) + count_ws_nls_between(s, from + 1, to)
    }
}

proof fn lemma_ws_between_step(s: Seq<u8>, from: int, to: int)
    requires
        0 <= from <= to < s.len(),
    ensures
        count_ws_nls_between(s, from, to + 1) == count_ws_nls_between(s, from, to) + (if s[to]
            == 10 {
            1int
        } else {
            0
        }),
    decreases to - from,
{
    if from < to {
        lemma_ws_between_step(s, from + 1, to);
    } else {
        assert(count_ws_nls_between(s, to + 1, to + 1) == 0);
    }
}

/// While every byte of `s[from..to)` is whitespace, the newline count of
/// the run from `from` is the count up to `to` plus the remainder; when
/// `to` stops the run (a non-blank byte or the end), the remainder is
/// what `leading_ws_nls` says past `to`.
proof fn lemma_ws_nls_decompose(s: Seq<u8>, from: int, to: int)
    requires
        0 <= from <= to <= s.len(),
        forall|k: int| from <= k < to ==> is_ws_byte(#[trigger] s[k]),
    ensures
        leading_ws_nls(s, from) == count_ws_nls_between(s, from, to) + leading_ws_nls(s, to),
    decreases to - from,
{
    if from < to {
        lemma_ws_nls_decompose(s, from + 1, to);
    }
}


} // verus!
