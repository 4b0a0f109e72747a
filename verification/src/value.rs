//! The protocol's universal datum: a tagged union of status text, error
//! text, length-prefixed payload text, and nested fixed-length arrays,
//! together with its mathematical mirror, well-formedness, and the
//! encoding into wire characters.

use vstd::prelude::*;

use crate::decimal::dec_rep;

verus! {

broadcast use {
    vstd::std_specs::vec::axiom_vec_index_decreases,
    vstd::seq::axiom_seq_index_decreases,
};

/// A protocol value. `InvalidValue` is the sentinel for "no value
/// decoded yet"; it never appears on the wire.
#[derive(Debug, PartialEq)]
pub enum Value {
    SimpleString(String),
    SimpleError(String),
    BulkString(String),
    Array(Vec<Value>),
    InvalidValue,
}

/// The mathematical reading of a protocol value: text as character
/// sequences, arrays as sequences of readings.
pub enum SpecValue {
    SimpleString(Seq<char>),
    SimpleError(Seq<char>),
    BulkString(Seq<char>),
    Array(Seq<SpecValue>),
    Invalid,
}

impl View for Value {
    type V = SpecValue;

    open spec fn view(&self) -> SpecValue
        decreases self,
    {
        match self {
            Value::SimpleString(s) => SpecValue::SimpleString(s@),
            Value::SimpleError(s) => SpecValue::SimpleError(s@),
            Value::BulkString(s) => SpecValue::BulkString(s@),
            Value::Array(items) => SpecValue::Array(
                Seq::new(
                    items@.len(),
                    |i: int|
                        if 0 <= i < items.len() {
                            items[i]@
                        } else {
                            SpecValue::Invalid
                        },
                ),
            ),
            Value::InvalidValue => SpecValue::Invalid,
        }
    }
}

/// The readings of a sequence of values, elementwise.
pub open spec fn views_of(items: Seq<Value>) -> Seq<SpecValue> {
    Seq::new(items.len(), |i: int| items[i]@)
}

/// The reading of an array value is the elementwise reading of its
/// items.
pub proof fn lemma_view_of_array(items: Vec<Value>)
    ensures
        Value::Array(items)@ == SpecValue::Array(views_of(items@)),
{
    let v = Value::Array(items);
    let vs = v@->Array_0;
    assert(vs =~= views_of(items@));
}

/// Line text never contains a carriage return immediately followed by a
/// line feed, so the first such pair after it is its terminator.
pub open spec fn line_wf(s: Seq<char>) -> bool {
    forall|i: int| #![trigger s[i]] 0 <= i && i + 1 < s.len() ==> !(s[i] == '\r' && s[i + 1] == '\n')
}

/// A value that can be put on the wire and read back: simple strings and
/// errors are single lines, every length fits a signed 64-bit header,
/// and the sentinel is excluded.
pub open spec fn spec_wf(v: SpecValue) -> bool
    decreases v,
{
    match v {
        SpecValue::SimpleString(s) => line_wf(s),
        SpecValue::SimpleError(s) => line_wf(s),
        SpecValue::BulkString(s) => s.len() <= i64::MAX,
        SpecValue::Array(items) => items.len() <= i64::MAX && (forall|i: int|
            0 <= i < items.len() ==> spec_wf(#[trigger] items[i])),
        SpecValue::Invalid => false,
    }
}

/// The two-character line terminator.
pub open spec fn crlf() -> Seq<char> {
    seq!['\r', '\n']
}

/// The wire encoding of a value: a tag character, then for lines the
/// text and a terminator; for bulk strings a length header line and the
/// payload with its own terminator; for arrays a count header line and
/// the concatenated encodings of the elements.
pub open spec fn encode_value(v: SpecValue) -> Seq<char>
    decreases v, 0int,
{
    match v {
        SpecValue::SimpleString(s) => seq!['+'] + s + crlf(),
        SpecValue::SimpleError(s) => seq!['-'] + s + crlf(),
        SpecValue::BulkString(s) => seq!['$'] + dec_rep(s.len() as int) + crlf() + s + crlf(),
        SpecValue::Array(items) => seq!['*'] + dec_rep(items.len() as int) + crlf()
            + encode_elems(items),
        SpecValue::Invalid => Seq::empty(),
    }
}

/// The concatenated encodings of the elements from position `i` on.
pub open spec fn encode_elems_from(items: Seq<SpecValue>, i: int) -> Seq<char>
    decreases items, items.len() - i,
{
    if 0 <= i < items.len() {
        encode_value(items[i]) + encode_elems_from(items, i + 1)
    } else {
        Seq::empty()
    }
}

/// The concatenated encodings of all elements in order.
pub open spec fn encode_elems(items: Seq<SpecValue>) -> Seq<char>
    decreases items, items.len() + 1,
{
    encode_elems_from(items, 0)
}

impl Value {
    /// A deep copy whose reading is the same.
    #[verifier::loop_isolation(false)]
    pub fn dup(&self) -> (r: Value)
        ensures
            r@ == self@,
        decreases self,
    {
        match self {
            Value::SimpleString(s) => Value::SimpleString(s.clone()),
            Value::SimpleError(s) => Value::SimpleError(s.clone()),
            Value::BulkString(s) => Value::BulkString(s.clone()),
            Value::Array(items) => {
                let mut out: Vec<Value> = Vec::new();
                let mut i: usize = 0;
                while i < items.len()
                    invariant
                        i == out@.len() <= items@.len(),
                        forall|j: int| 0 <= j < i ==> #[trigger] out@[j]@ == items@[j]@,
                    decreases items@.len() - i,
                {
                    proof {
                        assert(decreases_to!(items => items[i as int]));
                    }
                    out.push(items[i].dup());
                    i += 1;
                }
                proof {
                    lemma_view_of_array(out);
                    lemma_view_of_array(*items);
                    assert(views_of(out@) =~= views_of(items@));
                }
                Value::Array(out)
            },
            Value::InvalidValue => Value::InvalidValue,
        }
    }

    /// Whether the value can be put on the wire and read back.
    #[verifier::loop_isolation(false)]
    pub fn is_wf(&self) -> (r: bool)
        ensures
            r == spec_wf(self@),
        decreases self,
    {
        match self {
            Value::SimpleString(s) => line_ok(s.as_str()),
            Value::SimpleError(s) => line_ok(s.as_str()),
            Value::BulkString(s) => (s.as_str().unicode_len() as u64) <= (i64::MAX as u64),
            Value::Array(items) => {
                proof {
                    lemma_view_of_array(*items);
                }
                let ghost views = views_of(items@);
                if (items.len() as u64) > (i64::MAX as u64) {
                    return false;
                }
                let mut i: usize = 0;
                while i < items.len()
                    invariant
                        0 <= i <= items@.len(),
                        forall|j: int| 0 <= j < i ==> spec_wf(#[trigger] views[j]),
                    decreases items@.len() - i,
                {
                    proof {
                        assert(decreases_to!(items => items[i as int]));
                        assert(views[i as int] == items@[i as int]@);
                    }
                    if !items[i].is_wf() {
                        return false;
                    }
                    i += 1;
                }
                true
            },
            Value::InvalidValue => false,
        }
    }

    /// Encodes the value into its wire characters.
    pub fn serialize(self) -> (r: String)
        requires
            spec_wf(self@),
        ensures
            r@ == encode_value(self@),
    {
        self.encode_chars()
    }

    /// Encodes the value by reference; the recursive worker behind
    /// `serialize`.
    fn encode_chars(&self) -> (r: String)
        requires
            spec_wf(self@),
        ensures
            r@ == encode_value(self@),
        decreases self, 0int,
    {
        proof {
            reveal_strlit("+");
            reveal_strlit("-");
            reveal_strlit("$");
            reveal_strlit("\r\n");
        }
        match self {
            Value::SimpleString(s) => {
                let mut r = String::from_str("+");
                r.append(s.as_str());
                r.append("\r\n");
                proof {
                    assert(r@ =~= seq!['+'] + s@ + crlf());
                }
                r
            },
            Value::SimpleError(s) => {
                let mut r = String::from_str("-");
                r.append(s.as_str());
                r.append("\r\n");
                proof {
                    assert(r@ =~= seq!['-'] + s@ + crlf());
                }
                r
            },
            Value::BulkString(s) => {
                let mut r = String::from_str("$");
                let len = s.as_str().unicode_len();
                let header = crate::decimal::render_dec(len);
                r.append(header.as_str());
                r.append("\r\n");
                r.append(s.as_str());
                r.append("\r\n");
                proof {
                    assert(r@ =~= seq!['$'] + dec_rep(s@.len() as int) + crlf() + s@ + crlf());
                }
                r
            },
            Value::Array(items) => {
                proof {
                    lemma_view_of_array(*items);
                }
                Value::encode_items(items)
            },
            Value::InvalidValue => {
                proof {
                    assert(false);
                }
                String::new()
            },
        }
    }

    /// Encodes an array: a count header line, then each element's
    /// encoding in order.
    pub fn serialize_array(arr: Vec<Value>) -> (r: String)
        requires
            spec_wf(SpecValue::Array(views_of(arr@))),
        ensures
            r@ == encode_value(SpecValue::Array(views_of(arr@))),
    {
        Value::encode_items(&arr)
    }

    /// Encodes the elements of an array by reference; the recursive
    /// worker behind `serialize_array`.
    fn encode_items(arr: &Vec<Value>) -> (r: String)
        requires
            spec_wf(SpecValue::Array(views_of(arr@))),
        ensures
            r@ == encode_value(SpecValue::Array(views_of(arr@))),
        decreases arr, 1int,
    {
        proof {
            reveal_strlit("*");
            reveal_strlit("\r\n");
        }
        let ghost views = views_of(arr@);
        let mut r = String::from_str("*");
        let header = crate::decimal::render_dec(arr.len());
        r.append(header.as_str());
        r.append("\r\n");
        proof {
            assert(r@ =~= seq!['*'] + dec_rep(arr@.len() as int) + crlf());
            assert(r@ + encode_elems_from(views, 0) =~= seq!['*'] + dec_rep(views.len() as int)
                + crlf() + encode_elems(views));
        }
        let ghost target = r@ + encode_elems_from(views, 0);
        let mut i: usize = 0;
        while i < arr.len()
            invariant
                0 <= i <= arr@.len(),
                views == views_of(arr@),
                spec_wf(SpecValue::Array(views)),
                target == seq!['*'] + dec_rep(views.len() as int) + crlf() + encode_elems(views),
                r@ + encode_elems_from(views, i as int) == target,
            decreases arr@.len() - i,
        {
            proof {
                assert(views[i as int] == arr@[i as int]@);
                assert(spec_wf(views[i as int]));
            }
            let piece = arr[i].encode_chars();
            r.append(piece.as_str());
            proof {
                assert(r@ + encode_elems_from(views, i + 1) =~= target);
            }
            i += 1;
        }
        proof {
            assert(r@ =~= target);
        }
        r
    }
}

/// Whether line text is free of internal terminator pairs.
pub fn line_ok(s: &str) -> (r: bool)
    ensures
        r == line_wf(s@),
{
    let n = s.unicode_len();
    if n == 0 {
        return true;
    }
    let mut i: usize = 0;
    while i < n - 1
        invariant
            n == s@.len(),
            1 <= n,
            0 <= i <= n,
            forall|j: int| #![trigger s@[j]] 0 <= j < i ==> !(s@[j] == '\r' && s@[j + 1] == '\n'),
        decreases n - i,
    {
        if s.get_char(i) == '\r' && s.get_char(i + 1) == '\n' {
            return false;
        }
        i += 1;
    }
    true
}

} // verus!
