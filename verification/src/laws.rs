//! The codec's central guarantees, proved once and for all values: the
//! encoding of a well-formed value decodes back to exactly that value
//! consuming exactly its length, trailing pipelined input left alone;
//! and every proper prefix of a valid encoding is reported incomplete,
//! never malformed and never some other value.

use vstd::prelude::*;

use crate::decimal::dec_rep;
use crate::decimal::lemma_dec_rep;
use crate::decimal::lemma_digits_line_wf;
use crate::decimal::lemma_parse_dec_rep;
use crate::errors::ProtocolError;
use crate::parser::find_crlf_from;
use crate::parser::lemma_find_crlf_from;
use crate::parser::crlf_at;
use crate::parser::lemma_find_crlf_first;
use crate::parser::lemma_find_crlf_none;
use crate::parser::spec_decode;
use crate::parser::spec_decode_elems;
use crate::parser::value_decode;
use crate::value::SpecValue;
use crate::value::encode_elems;
use crate::value::encode_elems_from;
use crate::value::encode_value;
use crate::value::line_wf;
use crate::value::spec_wf;

verus! {

broadcast use {
    vstd::seq::axiom_seq_index_decreases,
    vstd::seq::axiom_seq_subrange_decreases,
};

/// In a buffer of a tag, line-safe content, and a terminator, the first
/// terminator after the tag is the one written after the content.
proof fn lemma_find_header_crlf(buf: Seq<char>, content: Seq<char>)
    requires
        line_wf(content),
        buf.len() >= 1 + content.len() + 2,
        forall|j: int| 0 <= j < content.len() ==> buf[1 + j] == content[j],
        buf[1 + content.len() as int] == '\r',
        buf[1 + content.len() as int + 1] == '\n',
    ensures
        find_crlf_from(buf, 1) == Some(1 + content.len() as int),
{
    let k = 1 + content.len() as int;
    assert(crlf_at(buf, k));
    assert forall|j: int| 1 <= j < k implies !crlf_at(buf, j) by {
        assert(buf[j] == content[j - 1]);
        if j + 1 < k {
            assert(buf[j + 1] == content[j]);
            assert(!(content[j - 1] == '\r' && content[j] == '\n'));
        } else {
            assert(buf[j + 1] == '\r');
        }
    }
    lemma_find_crlf_first(buf, 1, k);
}

/// A buffer cut off inside the tag, the content or the first terminator
/// character holds no terminator yet.
proof fn lemma_cut_header_no_crlf(buf: Seq<char>, content: Seq<char>)
    requires
        line_wf(content),
        buf.len() <= 1 + content.len() + 1,
        forall|j: int| 0 <= j < content.len() && 1 + j < buf.len() ==> buf[1 + j] == content[j],
        buf.len() == 1 + content.len() + 1 ==> buf[1 + content.len() as int] == '\r',
    ensures
        find_crlf_from(buf, 1) is None,
{
    assert forall|j: int| 1 <= j implies !crlf_at(buf, j) by {
        if j + 1 < buf.len() {
            assert(buf[j] == content[j - 1]);
            if j + 1 < 1 + content.len() {
                assert(buf[j + 1] == content[j]);
                assert(!(content[j - 1] == '\r' && content[j] == '\n'));
            } else {
                assert(j + 1 == 1 + content.len() && buf.len() == 1 + content.len() + 1);
                assert(buf[j + 1] == '\r');
            }
        }
    }
    lemma_find_crlf_none(buf, 1);
}

/// Encoding the elements after the first is encoding the tail's
/// elements.
proof fn lemma_encode_elems_drop(items: Seq<SpecValue>, j: int)
    requires
        1 <= j,
        items.len() >= 1,
    ensures
        encode_elems_from(items, j) == encode_elems_from(items.drop_first(), j - 1),
    decreases items.len() - j,
{
    if j < items.len() {
        lemma_encode_elems_drop(items, j + 1);
        assert(items.drop_first()[j - 1] == items[j]);
    }
}

/// The encoding of a well-formed value, followed by anything, decodes
/// to exactly that value, consuming exactly the encoding.
pub proof fn lemma_decode_encode(v: SpecValue, ext: Seq<char>, fuel: nat)
    requires
        spec_wf(v),
        fuel > encode_value(v).len() + ext.len(),
    ensures
        spec_decode(encode_value(v) + ext, fuel) == Ok::<(SpecValue, int), ProtocolError>(
            (v, encode_value(v).len() as int),
        ),
    decreases v, 0int,
{
    let enc = encode_value(v);
    let buf = enc + ext;
    match v {
        SpecValue::SimpleString(s) => {
            assert(buf[0] == '+');
            assert forall|j: int| 0 <= j < s.len() implies buf[1 + j] == s[j] by {}
            assert(buf[1 + s.len() as int] == '\r');
            assert(buf[1 + s.len() as int + 1] == '\n');
            lemma_find_header_crlf(buf, s);
            assert(buf.subrange(1, 1 + s.len() as int) =~= s);
        },
        SpecValue::SimpleError(s) => {
            assert(buf[0] == '-');
            assert forall|j: int| 0 <= j < s.len() implies buf[1 + j] == s[j] by {}
            assert(buf[1 + s.len() as int] == '\r');
            assert(buf[1 + s.len() as int + 1] == '\n');
            lemma_find_header_crlf(buf, s);
            assert(buf.subrange(1, 1 + s.len() as int) =~= s);
        },
        SpecValue::BulkString(s) => {
            let len = s.len() as int;
            lemma_dec_rep(len);
            lemma_parse_dec_rep(len);
            lemma_digits_line_wf(dec_rep(len));
            let dd = dec_rep(len);
            let d = dd.len() as int;
            assert(buf[0] == '$');
            assert forall|j: int| 0 <= j < d implies buf[1 + j] == dd[j] by {}
            assert(buf[1 + d] == '\r');
            assert(buf[1 + d + 1] == '\n');
            lemma_find_header_crlf(buf, dd);
            let k = 1 + d;
            assert(buf.subrange(1, k) =~= dd);
            assert(k + 2 + len + 2 == enc.len());
            assert(buf[k + 2 + len] == '\r');
            assert(buf[k + 2 + len + 1] == '\n');
            assert(buf.subrange(k + 2, k + 2 + len) =~= s);
        },
        SpecValue::Array(items) => {
            let count = items.len() as int;
            lemma_dec_rep(count);
            lemma_parse_dec_rep(count);
            lemma_digits_line_wf(dec_rep(count));
            let dd = dec_rep(count);
            let d = dd.len() as int;
            assert(buf[0] == '*');
            assert forall|j: int| 0 <= j < d implies buf[1 + j] == dd[j] by {}
            assert(buf[1 + d] == '\r');
            assert(buf[1 + d + 1] == '\n');
            lemma_find_header_crlf(buf, dd);
            let k = 1 + d;
            assert(buf.subrange(1, k) =~= dd);
            let tail = buf.skip(k + 2);
            assert(tail =~= encode_elems(items) + ext);
            lemma_decode_encode_elems(items, ext, (fuel - 1) as nat);
            assert(enc.len() == k + 2 + encode_elems(items).len());
        },
        SpecValue::Invalid => {
            assert(false);
        },
    }
}

/// The concatenated encodings of well-formed elements, followed by
/// anything, decode back to exactly those elements.
pub proof fn lemma_decode_encode_elems(items: Seq<SpecValue>, ext: Seq<char>, fuel: nat)
    requires
        forall|i: int| 0 <= i < items.len() ==> spec_wf(#[trigger] items[i]),
        fuel > encode_elems(items).len() + ext.len(),
    ensures
        spec_decode_elems(encode_elems(items) + ext, items.len(), fuel) == Ok::<
            (Seq<SpecValue>, int),
            ProtocolError,
        >((items, encode_elems(items).len() as int)),
    decreases items, 0int,
{
    if items.len() == 0 {
        assert(encode_elems(items) =~= Seq::<char>::empty());
        assert(items =~= Seq::<SpecValue>::empty());
    } else {
        let head = items[0];
        let rest = items.drop_first();
        let e0 = encode_value(head);
        lemma_encode_elems_drop(items, 1);
        assert(encode_elems(items) == e0 + encode_elems(rest));
        let buf = encode_elems(items) + ext;
        assert(buf =~= e0 + (encode_elems(rest) + ext));
        lemma_decode_encode(head, encode_elems(rest) + ext, fuel);
        assert(spec_decode(buf, fuel) == Ok::<(SpecValue, int), ProtocolError>(
            (head, e0.len() as int),
        ));
        assert(buf.skip(e0.len() as int) =~= encode_elems(rest) + ext);
        assert(forall|i: int| 0 <= i < rest.len() ==> rest[i] == #[trigger] items[i + 1]);
        lemma_decode_encode_elems(rest, ext, fuel);
        assert(seq![head] + rest =~= items);
    }
}

/// Any proper prefix of the encoding of a well-formed value decodes to
/// "incomplete": more input may still complete it.
pub proof fn lemma_decode_prefix(v: SpecValue, j: int, fuel: nat)
    requires
        spec_wf(v),
        0 <= j < encode_value(v).len(),
        fuel > j,
    ensures
        spec_decode(encode_value(v).take(j), fuel) == Err::<(SpecValue, int), ProtocolError>(
            ProtocolError::Incomplete,
        ),
    decreases v, 0int,
{
    let enc = encode_value(v);
    let buf = enc.take(j);
    if j == 0 {
        return ;
    }
    match v {
        SpecValue::SimpleString(s) => {
            assert(buf[0] == '+');
            lemma_cut_header_no_crlf(buf, s);
        },
        SpecValue::SimpleError(s) => {
            assert(buf[0] == '-');
            lemma_cut_header_no_crlf(buf, s);
        },
        SpecValue::BulkString(s) => {
            let len = s.len() as int;
            lemma_dec_rep(len);
            lemma_parse_dec_rep(len);
            lemma_digits_line_wf(dec_rep(len));
            let dd = dec_rep(len);
            let d = dd.len() as int;
            assert(buf[0] == '$');
            if j <= 2 + d {
                lemma_cut_header_no_crlf(buf, dd);
            } else {
                assert forall|jj: int| 0 <= jj < d implies buf[1 + jj] == dd[jj] by {}
                assert(buf[1 + d] == '\r');
                assert(buf[1 + d + 1] == '\n');
                lemma_find_header_crlf(buf, dd);
                let k = 1 + d;
                assert(buf.subrange(1, k) =~= dd);
                assert(k + 2 + len + 2 == enc.len());
                assert(k + 2 + len + 2 > buf.len());
            }
        },
        SpecValue::Array(items) => {
            let count = items.len() as int;
            lemma_dec_rep(count);
            lemma_parse_dec_rep(count);
            lemma_digits_line_wf(dec_rep(count));
            let dd = dec_rep(count);
            let d = dd.len() as int;
            assert(buf[0] == '*');
            if j <= 2 + d {
                lemma_cut_header_no_crlf(buf, dd);
            } else {
                assert forall|jj: int| 0 <= jj < d implies buf[1 + jj] == dd[jj] by {}
                assert(buf[1 + d] == '\r');
                assert(buf[1 + d + 1] == '\n');
                lemma_find_header_crlf(buf, dd);
                let k = 1 + d;
                assert(buf.subrange(1, k) =~= dd);
                let jj = j - (k + 2);
                assert(buf.skip(k + 2) =~= encode_elems(items).take(jj));
                assert(jj < encode_elems(items).len());
                lemma_decode_elems_prefix(items, jj, (fuel - 1) as nat);
            }
        },
        SpecValue::Invalid => {
            assert(false);
        },
    }
}

/// Any proper prefix of the concatenated encodings of well-formed
/// elements decodes to "incomplete".
pub proof fn lemma_decode_elems_prefix(items: Seq<SpecValue>, j: int, fuel: nat)
    requires
        forall|i: int| 0 <= i < items.len() ==> spec_wf(#[trigger] items[i]),
        0 <= j < encode_elems(items).len(),
        fuel > j,
    ensures
        spec_decode_elems(encode_elems(items).take(j), items.len(), fuel) == Err::<
            (Seq<SpecValue>, int),
            ProtocolError,
        >(ProtocolError::Incomplete),
    decreases items, 1int,
{
    assert(items.len() >= 1);
    let head = items[0];
    let rest = items.drop_first();
    let e0 = encode_value(head);
    lemma_encode_elems_drop(items, 1);
    assert(encode_elems(items) == e0 + encode_elems(rest));
    let buf = encode_elems(items).take(j);
    assert(forall|i: int| 0 <= i < rest.len() ==> rest[i] == #[trigger] items[i + 1]);
    if j < e0.len() {
        assert(buf =~= e0.take(j));
        lemma_decode_prefix(head, j, fuel);
    } else {
        let jj = j - e0.len();
        assert(buf =~= e0 + encode_elems(rest).take(jj));
        lemma_decode_encode(head, encode_elems(rest).take(jj), fuel);
        assert(spec_decode(buf, fuel) == Ok::<(SpecValue, int), ProtocolError>(
            (head, e0.len() as int),
        ));
        assert(buf.skip(e0.len() as int) =~= encode_elems(rest).take(jj));
        assert(jj < encode_elems(rest).len());
        lemma_decode_elems_prefix(rest, jj, fuel);
    }
}

/// The first terminator found does not move when input is appended.
proof fn lemma_find_crlf_extend(s: Seq<char>, ext: Seq<char>, i: int, k: int)
    requires
        0 <= i,
        find_crlf_from(s, i) == Some(k),
    ensures
        find_crlf_from(s + ext, i) == Some(k),
{
    lemma_find_crlf_from(s, i);
    let t = s + ext;
    assert(t[k] == s[k]);
    assert(t[k + 1] == s[k + 1]);
    assert forall|j: int| i <= j < k implies !crlf_at(t, j) by {
        assert(t[j] == s[j]);
        assert(t[j + 1] == s[j + 1]);
        assert(!crlf_at(s, j));
    }
    lemma_find_crlf_first(t, i, k);
}

/// A buffer that already decodes to a value keeps decoding to it when
/// more input arrives: the value and the consumed length stay.
pub proof fn lemma_decode_extend(buf: Seq<char>, ext: Seq<char>, fuel: nat)
    ensures
        match spec_decode(buf, fuel) {
            Ok((v, n)) => spec_decode(buf + ext, fuel) == Ok::<(SpecValue, int), ProtocolError>(
                (v, n),
            ),
            Err(e) => true,
        },
    decreases fuel, 1int,
{
    let t = buf + ext;
    if buf.len() == 0 {
    } else {
        assert(t[0] == buf[0]);
        if buf[0] == '+' || buf[0] == '-' {
            match find_crlf_from(buf, 1) {
                Some(k) => {
                    lemma_find_crlf_from(buf, 1);
                    lemma_find_crlf_extend(buf, ext, 1, k);
                    assert(t.subrange(1, k) =~= buf.subrange(1, k));
                },
                None => {},
            }
        } else if buf[0] == '$' {
            match find_crlf_from(buf, 1) {
                Some(k) => {
                    lemma_find_crlf_from(buf, 1);
                    lemma_find_crlf_extend(buf, ext, 1, k);
                    assert(t.subrange(1, k) =~= buf.subrange(1, k));
                    match crate::decimal::parse_int_spec(buf.subrange(1, k)) {
                        Some(n) => {
                            if n >= 0 && k + 2 + n + 2 <= buf.len() {
                                assert(t[k + 2 + n] == buf[k + 2 + n]);
                                assert(t[k + 2 + n + 1] == buf[k + 2 + n + 1]);
                                if buf[k + 2 + n] == '\r' && buf[k + 2 + n + 1] == '\n' {
                                    assert(t.subrange(k + 2, k + 2 + n) =~= buf.subrange(
                                        k + 2,
                                        k + 2 + n,
                                    ));
                                }
                            }
                        },
                        None => {},
                    }
                },
                None => {},
            }
        } else if buf[0] == '*' {
            lemma_decode_array_extend(buf, ext, fuel);
        }
    }
}

/// Extension-stability for array decoding.
proof fn lemma_decode_array_extend(buf: Seq<char>, ext: Seq<char>, fuel: nat)
    ensures
        match crate::parser::spec_decode_array(buf, fuel) {
            Ok((v, n)) => crate::parser::spec_decode_array(buf + ext, fuel) == Ok::<
                (SpecValue, int),
                ProtocolError,
            >((v, n)),
            Err(e) => true,
        },
    decreases fuel, 0int,
{
    let t = buf + ext;
    match find_crlf_from(buf, 1) {
        Some(k) => {
            lemma_find_crlf_from(buf, 1);
            lemma_find_crlf_extend(buf, ext, 1, k);
            assert(t.subrange(1, k) =~= buf.subrange(1, k));
            match crate::decimal::parse_int_spec(buf.subrange(1, k)) {
                Some(n) => {
                    if n >= 0 && fuel > 0 {
                        lemma_decode_elems_extend(buf.skip(k + 2), ext, n as nat, (fuel - 1) as nat);
                        assert(t.skip(k + 2) =~= buf.skip(k + 2) + ext);
                    }
                },
                None => {},
            }
        },
        None => {},
    }
}

/// Extension-stability for element-sequence decoding.
proof fn lemma_decode_elems_extend(buf: Seq<char>, ext: Seq<char>, count: nat, fuel: nat)
    ensures
        match spec_decode_elems(buf, count, fuel) {
            Ok((vs, m)) => spec_decode_elems(buf + ext, count, fuel) == Ok::<
                (Seq<SpecValue>, int),
                ProtocolError,
            >((vs, m)),
            Err(e) => true,
        },
    decreases fuel, count + 2,
{
    if count > 0 {
        lemma_decode_extend(buf, ext, fuel);
        crate::parser::lemma_decode_bounds(buf, fuel);
        match spec_decode(buf, fuel) {
            Ok((v, m)) => {
                lemma_decode_elems_extend(buf.skip(m), ext, (count - 1) as nat, fuel);
                assert((buf + ext).skip(m) =~= buf.skip(m) + ext);
            },
            Err(e) => {},
        }
    }
}

/// Pipelining for any input: once the buffer's front decodes to a
/// value, whatever arrives after it leaves that decode unchanged; the
/// trailing characters wait for the next decode.
pub proof fn lemma_pipelined_decode(buf: Seq<char>, ext: Seq<char>)
    requires
        value_decode(buf) is Ok,
    ensures
        value_decode(buf + ext) == value_decode(buf),
{
    crate::parser::lemma_decode_fuel(buf, buf.len() + 1, (buf + ext).len() + 1);
    lemma_decode_extend(buf, ext, (buf + ext).len() + 1);
}

/// Every decoded value is well-formed, so it can be encoded again: line
/// content holds no terminator, every length fits its header.
pub proof fn lemma_decode_wf(buf: Seq<char>, fuel: nat)
    ensures
        match spec_decode(buf, fuel) {
            Ok((v, n)) => spec_wf(v),
            Err(e) => true,
        },
    decreases fuel, 1int,
{
    if buf.len() == 0 {
    } else if buf[0] == '+' || buf[0] == '-' {
        lemma_find_crlf_from(buf, 1);
        match find_crlf_from(buf, 1) {
            Some(k) => {
                let content = buf.subrange(1, k);
                assert forall|i: int| #![trigger content[i]] 0 <= i && i + 1 < content.len()
                    implies !(content[i] == '\r' && content[i + 1] == '\n') by {
                    assert(content[i] == buf[1 + i]);
                    assert(content[i + 1] == buf[1 + i + 1]);
                    assert(!crlf_at(buf, 1 + i));
                }
            },
            None => {},
        }
    } else if buf[0] == '$' {
        lemma_find_crlf_from(buf, 1);
    } else if buf[0] == '*' {
        lemma_decode_array_wf(buf, fuel);
    }
}

/// Well-formedness of a decoded array.
pub proof fn lemma_decode_array_wf(buf: Seq<char>, fuel: nat)
    ensures
        match crate::parser::spec_decode_array(buf, fuel) {
            Ok((v, n)) => spec_wf(v),
            Err(e) => true,
        },
    decreases fuel, 0int,
{
    lemma_find_crlf_from(buf, 1);
    match find_crlf_from(buf, 1) {
        Some(k) => match crate::decimal::parse_int_spec(buf.subrange(1, k)) {
            Some(n) => {
                if n >= 0 && fuel > 0 {
                    lemma_decode_elems_wf(buf.skip(k + 2), n as nat, (fuel - 1) as nat);
                    crate::parser::lemma_decode_elems_bounds(
                        buf.skip(k + 2),
                        n as nat,
                        (fuel - 1) as nat,
                    );
                }
            },
            None => {},
        },
        None => {},
    }
}

/// Well-formedness of decoded element sequences.
pub proof fn lemma_decode_elems_wf(buf: Seq<char>, count: nat, fuel: nat)
    ensures
        match spec_decode_elems(buf, count, fuel) {
            Ok((vs, m)) => forall|i: int| 0 <= i < vs.len() ==> spec_wf(#[trigger] vs[i]),
            Err(e) => true,
        },
    decreases fuel, count + 2,
{
    if count > 0 {
        lemma_decode_wf(buf, fuel);
        crate::parser::lemma_decode_bounds(buf, fuel);
        match spec_decode(buf, fuel) {
            Ok((v, m)) => {
                lemma_decode_elems_wf(buf.skip(m), (count - 1) as nat, fuel);
            },
            Err(e) => {},
        }
    }
}

/// Storing a value under a key and then looking that key up answers
/// exactly the stored value; the store maps the key to the latest value
/// whether the key was fresh or overwritten.
pub proof fn lemma_set_then_get(m: Map<Seq<char>, Seq<char>>, k: Seq<char>, v: Seq<char>)
    ensures
        ({
            let set_args = seq![SpecValue::BulkString(k), SpecValue::BulkString(v)];
            let get_args = seq![SpecValue::BulkString(k)];
            let (status, m2) = crate::dispatch::set_spec(set_args, m);
            &&& m2 == m.insert(k, v)
            &&& m2.contains_key(k) && m2[k] == v
            &&& crate::dispatch::get_spec(get_args, m2) == SpecValue::BulkString(v)
            &&& status == SpecValue::BulkString(
                if m.contains_key(k) {
                    "Scucessfully updated value in database"@
                } else {
                    "Scucessfully inserted value in database"@
                },
            )
        }),
{
}

/// Deleting a key leaves the store without it: the deletion is
/// confirmed or reported absent, and a subsequent lookup of that key
/// answers the per-lookup error value.
pub proof fn lemma_del_then_get(m: Map<Seq<char>, Seq<char>>, k: Seq<char>)
    ensures
        ({
            let args = seq![SpecValue::BulkString(k)];
            let (resp, m2) = crate::dispatch::del_spec(args, m);
            &&& m2 == m.remove(k)
            &&& !m2.contains_key(k)
            &&& resp == (if m.contains_key(k) {
                SpecValue::BulkString("Removed the key from database"@)
            } else {
                SpecValue::SimpleError("Value doesnt exist in database"@)
            })
            &&& crate::dispatch::get_spec(args, m2) == SpecValue::SimpleError(
                "key has no associated value"@,
            )
        }),
{
}

/// A scheduled expiry that fires removes the key: the expiry command is
/// acknowledged with the key and delay to schedule, and once the
/// deferred deletion has run, a lookup of that key answers the
/// per-lookup error value.
pub proof fn lemma_expire_then_get(m: Map<Seq<char>, Seq<char>>, k: Seq<char>, secs: Seq<char>)
    requires
        crate::decimal::parse_u64_spec(secs) is Some,
    ensures
        ({
            let args = seq![SpecValue::BulkString(k), SpecValue::BulkString(secs)];
            let n = crate::decimal::parse_u64_spec(secs)->0;
            &&& crate::dispatch::expire_spec(args) == (
                SpecValue::SimpleString("OK"@),
                Some((k, n)),
            )
            &&& !m.remove(k).contains_key(k)
            &&& crate::dispatch::get_spec(seq![SpecValue::BulkString(k)], m.remove(k))
                == SpecValue::SimpleError("key has no associated value"@)
        }),
{
}

/// Round trip: decoding the encoding of any well-formed value yields
/// exactly that value, consuming the full encoding.
pub proof fn lemma_round_trip(v: SpecValue)
    requires
        spec_wf(v),
    ensures
        value_decode(encode_value(v)) == Ok::<(SpecValue, int), ProtocolError>(
            (v, encode_value(v).len() as int),
        ),
{
    let enc = encode_value(v);
    lemma_decode_encode(v, Seq::empty(), enc.len() + 1);
    assert(enc + Seq::<char>::empty() =~= enc);
}

/// Pipelining: input trailing one complete encoding leaves its decode
/// unchanged; only the encoding itself is consumed.
pub proof fn lemma_decode_with_trailing(v: SpecValue, ext: Seq<char>)
    requires
        spec_wf(v),
    ensures
        value_decode(encode_value(v) + ext) == Ok::<(SpecValue, int), ProtocolError>(
            (v, encode_value(v).len() as int),
        ),
{
    lemma_decode_encode(v, ext, (encode_value(v) + ext).len() + 1);
}

/// Incremental decode: splitting a valid encoding at any boundary, the
/// first part alone is incomplete (the session keeps it and reads on),
/// and the two parts together decode exactly as the whole.
pub proof fn lemma_incremental_split(v: SpecValue, j: int)
    requires
        spec_wf(v),
        0 <= j <= encode_value(v).len(),
    ensures
        j < encode_value(v).len() ==> value_decode(encode_value(v).take(j)) == Err::<
            (SpecValue, int),
            ProtocolError,
        >(ProtocolError::Incomplete),
        value_decode(encode_value(v).take(j) + encode_value(v).skip(j)) == Ok::<
            (SpecValue, int),
            ProtocolError,
        >((v, encode_value(v).len() as int)),
{
    let enc = encode_value(v);
    if j < enc.len() {
        lemma_decode_prefix(v, j, (j + 1) as nat);
    }
    assert(enc.take(j) + enc.skip(j) =~= enc);
    lemma_round_trip(v);
}

} // verus!
