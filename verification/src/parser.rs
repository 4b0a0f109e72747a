//! The wire codec's decoding side: an incremental parser that turns a
//! character buffer into one protocol value and reports how many
//! characters it consumed, so the caller can slice off exactly the
//! parsed prefix and keep any trailing characters for the next decode.
//!
//! The parser distinguishes a buffer that is a prefix of some valid
//! encoding (`Incomplete`: read more and retry) from one that can never
//! be completed (`Malformed`: fatal to the connection).

use vstd::prelude::*;
use vstd::slice::slice_subrange;

use crate::decimal::parse_int;
use crate::decimal::parse_int_spec;
use crate::errors::ProtocolError;
use crate::value::SpecValue;
use crate::value::Value;
use crate::value::views_of;

verus! {

/// A line terminator starts at position `i`.
pub open spec fn crlf_at(s: Seq<char>, i: int) -> bool {
    0 <= i && i + 1 < s.len() && s[i] == '\r' && s[i + 1] == '\n'
}

/// The first position at or after `i` where a line terminator starts.
pub open spec fn find_crlf_from(s: Seq<char>, i: int) -> Option<int>
    decreases s.len() - i,
{
    if i + 1 >= s.len() {
        None
    } else if crlf_at(s, i) {
        Some(i)
    } else {
        find_crlf_from(s, i + 1)
    }
}

/// What the search returns: the first terminator position, or nothing
/// where none exists.
pub proof fn lemma_find_crlf_from(s: Seq<char>, i: int)
    ensures
        match find_crlf_from(s, i) {
            Some(k) => i <= k && crlf_at(s, k) && (forall|j: int| i <= j < k ==> !crlf_at(s, j)),
            None => forall|j: int| i <= j ==> !crlf_at(s, j),
        },
    decreases s.len() - i,
{
    if i + 1 >= s.len() {
    } else if crlf_at(s, i) {
    } else {
        lemma_find_crlf_from(s, i + 1);
    }
}

/// A terminator at `k` with none before it is what the search finds.
pub proof fn lemma_find_crlf_first(s: Seq<char>, i: int, k: int)
    requires
        i <= k,
        crlf_at(s, k),
        forall|j: int| i <= j < k ==> !crlf_at(s, j),
    ensures
        find_crlf_from(s, i) == Some(k),
    decreases k - i,
{
    if i < k {
        lemma_find_crlf_first(s, i + 1, k);
    }
}

/// With no terminator at or after `i`, the search finds nothing.
pub proof fn lemma_find_crlf_none(s: Seq<char>, i: int)
    requires
        forall|j: int| i <= j ==> !crlf_at(s, j),
    ensures
        find_crlf_from(s, i) is None,
    decreases s.len() - i,
{
    if i + 1 < s.len() {
        lemma_find_crlf_none(s, i + 1);
    }
}

/// Searching a suffix is searching the whole at shifted positions.
pub proof fn lemma_find_crlf_shift(s: Seq<char>, a: int, i: int)
    requires
        0 <= a <= s.len(),
        0 <= i,
    ensures
        find_crlf_from(s.skip(a), i) == match find_crlf_from(s, i + a) {
            Some(k) => Some(k - a),
            None => None::<int>,
        },
{
    let t = s.skip(a);
    assert forall|j: int| 0 <= j implies crlf_at(t, j) == crlf_at(s, j + a) by {
        if j + 1 < t.len() {
            assert(t[j] == s[j + a]);
            assert(t[j + 1] == s[j + a + 1]);
        }
    }
    lemma_find_crlf_from(s, i + a);
    match find_crlf_from(s, i + a) {
        Some(k) => {
            assert(crlf_at(t, k - a));
            assert forall|j: int| i <= j < k - a implies !crlf_at(t, j) by {
                assert(!crlf_at(s, j + a));
            }
            lemma_find_crlf_first(t, i, k - a);
        },
        None => {
            assert forall|j: int| i <= j implies !crlf_at(t, j) by {
                assert(!crlf_at(s, j + a));
            }
            lemma_find_crlf_none(t, i);
        },
    }
}

/// Decoding a line-tagged value: content up to the first terminator.
/// The tag character at position zero is skipped, the terminator is
/// consumed.
pub open spec fn spec_decode_line(buf: Seq<char>) -> Result<(Seq<char>, int), ProtocolError> {
    match find_crlf_from(buf, 1) {
        Some(k) => Ok((buf.subrange(1, k), k + 2)),
        None => Err(ProtocolError::Incomplete),
    }
}

/// Decoding a bulk payload: a decimal length header line, exactly that
/// many characters of payload, and a trailing terminator.
pub open spec fn spec_decode_bulk(buf: Seq<char>) -> Result<(Seq<char>, int), ProtocolError> {
    match find_crlf_from(buf, 1) {
        Some(k) => match parse_int_spec(buf.subrange(1, k)) {
            Some(n) => if n < 0 {
                Err(ProtocolError::Malformed)
            } else if k + 2 + n + 2 > buf.len() {
                Err(ProtocolError::Incomplete)
            } else if buf[k + 2 + n] == '\r' && buf[k + 2 + n + 1] == '\n' {
                Ok((buf.subrange(k + 2, k + 2 + n), k + 2 + n + 2))
            } else {
                Err(ProtocolError::Malformed)
            },
            None => Err(ProtocolError::Malformed),
        },
        None => Err(ProtocolError::Incomplete),
    }
}

/// Decoding one value from the front of the buffer, dispatching on the
/// tag character. The fuel bounds array nesting; any fuel above the
/// buffer length gives the same answer.
pub open spec fn spec_decode(buf: Seq<char>, fuel: nat) -> Result<(SpecValue, int), ProtocolError>
    decreases fuel, 1int,
{
    if buf.len() == 0 {
        Err(ProtocolError::Incomplete)
    } else if buf[0] == '+' {
        match spec_decode_line(buf) {
            Ok((s, n)) => Ok((SpecValue::SimpleString(s), n)),
            Err(e) => Err(e),
        }
    } else if buf[0] == '-' {
        match spec_decode_line(buf) {
            Ok((s, n)) => Ok((SpecValue::SimpleError(s), n)),
            Err(e) => Err(e),
        }
    } else if buf[0] == '$' {
        match spec_decode_bulk(buf) {
            Ok((s, n)) => Ok((SpecValue::BulkString(s), n)),
            Err(e) => Err(e),
        }
    } else if buf[0] == '*' {
        spec_decode_array(buf, fuel)
    } else {
        Err(ProtocolError::Malformed)
    }
}

/// Decoding an array: a decimal count header line, then exactly that
/// many values back to back.
pub open spec fn spec_decode_array(buf: Seq<char>, fuel: nat) -> Result<
    (SpecValue, int),
    ProtocolError,
>
    decreases fuel, 0int,
{
    match find_crlf_from(buf, 1) {
        Some(k) => match parse_int_spec(buf.subrange(1, k)) {
            Some(n) => if n < 0 {
                Err(ProtocolError::Malformed)
            } else if fuel == 0 {
                Err(ProtocolError::Incomplete)
            } else {
                match spec_decode_elems(buf.skip(k + 2), n as nat, (fuel - 1) as nat) {
                    Ok((elems, m)) => Ok((SpecValue::Array(elems), k + 2 + m)),
                    Err(e) => Err(e),
                }
            },
            None => Err(ProtocolError::Malformed),
        },
        None => Err(ProtocolError::Incomplete),
    }
}

/// Decoding `count` values back to back from the front of the buffer.
pub open spec fn spec_decode_elems(buf: Seq<char>, count: nat, fuel: nat) -> Result<
    (Seq<SpecValue>, int),
    ProtocolError,
>
    decreases fuel, count + 2,
{
    if count == 0 {
        Ok((Seq::empty(), 0))
    } else {
        match spec_decode(buf, fuel) {
            Ok((v, m)) => match spec_decode_elems(buf.skip(m), (count - 1) as nat, fuel) {
                Ok((vs, m2)) => Ok((seq![v] + vs, m + m2)),
                Err(e) => Err(e),
            },
            Err(e) => Err(e),
        }
    }
}

/// What decoding the buffer yields, with fuel that can never run out.
pub open spec fn value_decode(buf: Seq<char>) -> Result<(SpecValue, int), ProtocolError> {
    spec_decode(buf, buf.len() + 1)
}

/// What decoding an array (tag included) yields.
pub open spec fn array_decode(buf: Seq<char>) -> Result<(SpecValue, int), ProtocolError> {
    spec_decode_array(buf, buf.len() + 1)
}

/// What decoding `count` consecutive values yields.
pub open spec fn elems_decode(buf: Seq<char>, count: nat) -> Result<
    (Seq<SpecValue>, int),
    ProtocolError,
> {
    spec_decode_elems(buf, count, buf.len() + 1)
}

/// A successful decode consumes at least one tagged line and never more
/// than the buffer holds.
pub proof fn lemma_decode_bounds(buf: Seq<char>, fuel: nat)
    ensures
        match spec_decode(buf, fuel) {
            Ok((v, n)) => 3 <= n <= buf.len(),
            Err(e) => true,
        },
    decreases fuel, 1int,
{
    if buf.len() == 0 {
    } else if buf[0] == '+' || buf[0] == '-' {
        lemma_find_crlf_from(buf, 1);
    } else if buf[0] == '$' {
        lemma_find_crlf_from(buf, 1);
    } else if buf[0] == '*' {
        lemma_decode_array_bounds(buf, fuel);
    }
}

/// Bounds of a successful array decode.
pub proof fn lemma_decode_array_bounds(buf: Seq<char>, fuel: nat)
    ensures
        match spec_decode_array(buf, fuel) {
            Ok((v, n)) => 3 <= n <= buf.len(),
            Err(e) => true,
        },
    decreases fuel, 0int,
{
    lemma_find_crlf_from(buf, 1);
    match find_crlf_from(buf, 1) {
        Some(k) => match parse_int_spec(buf.subrange(1, k)) {
            Some(n) => {
                if n >= 0 && fuel > 0 {
                    lemma_decode_elems_bounds(buf.skip(k + 2), n as nat, (fuel - 1) as nat);
                }
            },
            None => {},
        },
        None => {},
    }
}

/// Bounds and count of a successful element-sequence decode.
pub proof fn lemma_decode_elems_bounds(buf: Seq<char>, count: nat, fuel: nat)
    ensures
        match spec_decode_elems(buf, count, fuel) {
            Ok((vs, m)) => 0 <= m <= buf.len() && vs.len() == count,
            Err(e) => true,
        },
    decreases fuel, count + 2,
{
    if count > 0 {
        lemma_decode_bounds(buf, fuel);
        match spec_decode(buf, fuel) {
            Ok((v, m)) => {
                lemma_decode_elems_bounds(buf.skip(m), (count - 1) as nat, fuel);
            },
            Err(e) => {},
        }
    }
}

/// Any two fuels above the buffer length decode alike.
pub proof fn lemma_decode_fuel(buf: Seq<char>, f1: nat, f2: nat)
    requires
        f1 > buf.len(),
        f2 > buf.len(),
    ensures
        spec_decode(buf, f1) == spec_decode(buf, f2),
    decreases f1 + f2, 1int,
{
    if buf.len() > 0 && buf[0] == '*' {
        lemma_decode_array_fuel(buf, f1, f2);
    }
}

/// Fuel-independence for array decoding.
pub proof fn lemma_decode_array_fuel(buf: Seq<char>, f1: nat, f2: nat)
    requires
        f1 > buf.len(),
        f2 > buf.len(),
    ensures
        spec_decode_array(buf, f1) == spec_decode_array(buf, f2),
    decreases f1 + f2, 0int,
{
    lemma_find_crlf_from(buf, 1);
    match find_crlf_from(buf, 1) {
        Some(k) => match parse_int_spec(buf.subrange(1, k)) {
            Some(n) => {
                if n >= 0 {
                    // a parsable header line is non-empty, so at least
                    // four characters precede the elements
                    assert(buf.subrange(1, k).len() > 0);
                    assert(k >= 2);
                    let tail = buf.skip(k + 2);
                    assert(tail.len() <= buf.len() - 4);
                    lemma_decode_elems_fuel(tail, n as nat, (f1 - 1) as nat, (f2 - 1) as nat);
                }
            },
            None => {},
        },
        None => {},
    }
}

/// Fuel-independence for element-sequence decoding.
pub proof fn lemma_decode_elems_fuel(buf: Seq<char>, count: nat, f1: nat, f2: nat)
    requires
        f1 > buf.len(),
        f2 > buf.len(),
    ensures
        spec_decode_elems(buf, count, f1) == spec_decode_elems(buf, count, f2),
    decreases f1 + f2, count + 2,
{
    if count > 0 {
        lemma_decode_fuel(buf, f1, f2);
        lemma_decode_bounds(buf, f1);
        match spec_decode(buf, f1) {
            Ok((v, m)) => {
                lemma_decode_elems_fuel(buf.skip(m), (count - 1) as nat, f1, f2);
            },
            Err(e) => {},
        }
    }
}

/// The parse result `r` is what decoding the buffer yields: the same
/// error, or a value with the decoded reading and the consumed length.
pub open spec fn decode_matches(buf: Seq<char>, r: Result<(Value, usize), ProtocolError>) -> bool {
    match (r, value_decode(buf)) {
        (Ok((v, n)), Ok((sv, m))) => v@ == sv && n as int == m && 3 <= n <= buf.len(),
        (Err(e1), Err(e2)) => e1 == e2,
        _ => false,
    }
}

/// Relies on `String::push`: appends the given character to the end of
/// the string.
#[verifier::external_body]
fn push_char(s: &mut String, c: char)
    ensures
        final(s)@ == old(s)@.push(c),
{
    s.push(c);
}

/// Builds an owned string out of a character slice.
fn string_of_chars(chars: &[char]) -> (s: String)
    ensures
        s@ == chars@,
{
    let mut s = String::new();
    let mut i: usize = 0;
    while i < chars.len()
        invariant
            0 <= i <= chars@.len(),
            s@ == chars@.take(i as int),
        decreases chars@.len() - i,
    {
        let c = *vstd::slice::slice_index_get(chars, i);
        push_char(&mut s, c);
        proof {
            assert(s@ =~= chars@.take(i + 1));
        }
        i += 1;
    }
    proof {
        assert(chars@.take(chars@.len() as int) =~= chars@);
    }
    s
}

/// Finds the first line terminator and splits the buffer there: the
/// content before it, and how many characters up to and including it
/// were consumed.
pub fn read_until_crlf(buffer: &[char]) -> (r: Option<(&[char], usize)>)
    ensures
        match r {
            Some((line, n)) => {
                &&& find_crlf_from(buffer@, 0) == Some(n - 2)
                &&& 2 <= n <= buffer@.len()
                &&& line@ == buffer@.subrange(0, n - 2)
            },
            None => find_crlf_from(buffer@, 0) is None,
        },
{
    let len = buffer.len();
    if len == 0 {
        proof {
            lemma_find_crlf_none(buffer@, 0);
        }
        return None;
    }
    let mut i: usize = 1;
    while i < len
        invariant
            1 <= i <= len,
            len == buffer@.len(),
            forall|j: int| 0 <= j < i - 1 ==> !crlf_at(buffer@, j),
        decreases len - i,
    {
        if *vstd::slice::slice_index_get(buffer, i - 1) == '\r' && *vstd::slice::slice_index_get(
            buffer,
            i,
        ) == '\n' {
            proof {
                lemma_find_crlf_first(buffer@, 0, i - 1);
            }
            return Some((slice_subrange(buffer, 0, i - 1), i + 1));
        }
        i += 1;
    }
    proof {
        assert forall|j: int| 0 <= j implies !crlf_at(buffer@, j) by {
            if j + 1 < buffer@.len() {
                assert(j < i - 1);
            }
        }
        lemma_find_crlf_none(buffer@, 0);
    }
    None
}

/// Parses a simple string: the tag is skipped, the content runs to the
/// first line terminator.
pub fn parse_simple_string(buffer: &[char]) -> (r: Result<(Value, usize), ProtocolError>)
    requires
        buffer@.len() >= 1,
    ensures
        match (r, spec_decode_line(buffer@)) {
            (Ok((v, n)), Ok((s, m))) => v@ == SpecValue::SimpleString(s) && n as int == m && n
                <= buffer@.len(),
            (Err(e1), Err(e2)) => e1 == e2,
            _ => false,
        },
{
    let rest = slice_subrange(buffer, 1, buffer.len());
    proof {
        assert(rest@ =~= buffer@.skip(1));
        lemma_find_crlf_shift(buffer@, 1, 0);
    }
    match read_until_crlf(rest) {
        Some((line, len)) => {
            let s = string_of_chars(line);
            proof {
                assert(line@ =~= buffer@.subrange(1, len - 1));
            }
            Ok((Value::SimpleString(s), len + 1))
        },
        None => Err(ProtocolError::Incomplete),
    }
}

/// Parses a simple error: as a simple string, under the error tag.
pub fn parse_simple_error(buffer: &[char]) -> (r: Result<(Value, usize), ProtocolError>)
    requires
        buffer@.len() >= 1,
    ensures
        match (r, spec_decode_line(buffer@)) {
            (Ok((v, n)), Ok((s, m))) => v@ == SpecValue::SimpleError(s) && n as int == m && n
                <= buffer@.len(),
            (Err(e1), Err(e2)) => e1 == e2,
            _ => false,
        },
{
    let rest = slice_subrange(buffer, 1, buffer.len());
    proof {
        assert(rest@ =~= buffer@.skip(1));
        lemma_find_crlf_shift(buffer@, 1, 0);
    }
    match read_until_crlf(rest) {
        Some((line, len)) => {
            let s = string_of_chars(line);
            proof {
                assert(line@ =~= buffer@.subrange(1, len - 1));
            }
            Ok((Value::SimpleError(s), len + 1))
        },
        None => Err(ProtocolError::Incomplete),
    }
}

/// Parses a bulk string: a decimal length header line, exactly that many
/// characters of payload, and a trailing terminator.
pub fn parse_bulk_string(buffer: &[char]) -> (r: Result<(Value, usize), ProtocolError>)
    requires
        buffer@.len() >= 1,
    ensures
        match (r, spec_decode_bulk(buffer@)) {
            (Ok((v, n)), Ok((s, m))) => v@ == SpecValue::BulkString(s) && n as int == m && n
                <= buffer@.len(),
            (Err(e1), Err(e2)) => e1 == e2,
            _ => false,
        },
{
    let rest = slice_subrange(buffer, 1, buffer.len());
    proof {
        assert(rest@ =~= buffer@.skip(1));
        lemma_find_crlf_shift(buffer@, 1, 0);
    }
    let (line, len) = match read_until_crlf(rest) {
        Some(found) => found,
        None => {
            return Err(ProtocolError::Incomplete);
        },
    };
    proof {
        assert(line@ =~= buffer@.subrange(1, len - 1));
    }
    let n = match parse_int(line) {
        Ok(n) => n,
        Err(_) => {
            return Err(ProtocolError::Malformed);
        },
    };
    if n < 0 {
        return Err(ProtocolError::Malformed);
    }
    let hdr = len + 1;
    let remaining = buffer.len() - hdr;
    if (n as u64) + 2 > (remaining as u64) {
        return Err(ProtocolError::Incomplete);
    }
    let end = hdr + (n as usize);
    if !(*vstd::slice::slice_index_get(buffer, end) == '\r' && *vstd::slice::slice_index_get(
        buffer,
        end + 1,
    ) == '\n') {
        return Err(ProtocolError::Malformed);
    }
    let payload = slice_subrange(buffer, hdr, end);
    let s = string_of_chars(payload);
    proof {
        assert(payload@ =~= buffer@.subrange(hdr as int, end as int));
    }
    Ok((Value::BulkString(s), end + 2))
}

/// Parses an array: a decimal count header line, then exactly that many
/// values back to back, summing the consumed lengths.
pub fn parse_array(buffer: &[char]) -> (r: Result<(Value, usize), ProtocolError>)
    requires
        buffer@.len() >= 1,
    ensures
        match (r, array_decode(buffer@)) {
            (Ok((v, n)), Ok((sv, m))) => v@ == sv && n as int == m && n <= buffer@.len(),
            (Err(e1), Err(e2)) => e1 == e2,
            _ => false,
        },
    decreases buffer@.len(), 1int,
{
    let rest = slice_subrange(buffer, 1, buffer.len());
    proof {
        assert(rest@ =~= buffer@.skip(1));
        lemma_find_crlf_shift(buffer@, 1, 0);
    }
    let (line, len) = match read_until_crlf(rest) {
        Some(found) => found,
        None => {
            return Err(ProtocolError::Incomplete);
        },
    };
    proof {
        assert(line@ =~= buffer@.subrange(1, len - 1));
    }
    let n = match parse_int(line) {
        Ok(n) => n,
        Err(_) => {
            return Err(ProtocolError::Malformed);
        },
    };
    if n < 0 {
        return Err(ProtocolError::Malformed);
    }
    let hdr = len + 1;
    let tail = slice_subrange(buffer, hdr, buffer.len());
    proof {
        assert(tail@ =~= buffer@.skip(hdr as int));
        assert(line@.len() > 0);
        lemma_decode_elems_fuel(tail@, n as nat, buffer@.len() as nat, tail@.len() + 1);
    }
    match parse_elems(tail, n as u64) {
        Ok((items, m)) => {
            proof {
                crate::value::lemma_view_of_array(items);
            }
            Ok((Value::Array(items), hdr + m))
        },
        Err(e) => Err(e),
    }
}

/// Parses `count` consecutive values from the front of the buffer.
fn parse_elems(buffer: &[char], count: u64) -> (r: Result<(Vec<Value>, usize), ProtocolError>)
    ensures
        match (r, elems_decode(buffer@, count as nat)) {
            (Ok((items, m)), Ok((vs, m2))) => views_of(items@) == vs && m as int == m2 && m
                <= buffer@.len() && items@.len() == count,
            (Err(e1), Err(e2)) => e1 == e2,
            _ => false,
        },
    decreases buffer@.len(), count + 2int,
{
    if count == 0 {
        return Ok((Vec::new(), 0));
    }
    let (v, n) = match parse_message(buffer) {
        Ok(decoded) => decoded,
        Err(e) => {
            return Err(e);
        },
    };
    let tail = slice_subrange(buffer, n, buffer.len());
    proof {
        assert(tail@ =~= buffer@.skip(n as int));
        lemma_decode_elems_fuel(
            tail@,
            (count - 1) as nat,
            buffer@.len() + 1,
            tail@.len() + 1,
        );
    }
    match parse_elems(tail, count - 1) {
        Ok((mut items, m)) => {
            let ghost old_items = items@;
            items.insert(0, v);
            proof {
                assert(views_of(items@) =~= seq![v@] + views_of(old_items));
            }
            Ok((items, n + m))
        },
        Err(e) => Err(e),
    }
}

/// Parses one value from the front of the buffer, dispatching on the
/// tag character. Never consumes past one complete top-level value:
/// the returned length lets the caller slice off exactly the parsed
/// prefix and keep trailing characters for the next decode.
pub fn parse_message(buffer: &[char]) -> (r: Result<(Value, usize), ProtocolError>)
    ensures
        decode_matches(buffer@, r),
    decreases buffer@.len(), 2int,
{
    proof {
        lemma_decode_bounds(buffer@, buffer@.len() + 1);
    }
    if buffer.len() == 0 {
        return Err(ProtocolError::Incomplete);
    }
    let c = *vstd::slice::slice_index_get(buffer, 0);
    if c == '+' {
        parse_simple_string(buffer)
    } else if c == '-' {
        parse_simple_error(buffer)
    } else if c == '$' {
        parse_bulk_string(buffer)
    } else if c == '*' {
        parse_array(buffer)
    } else {
        Err(ProtocolError::Malformed)
    }
}

} // verus!
