use vstd::prelude::*;
use vstd::utf8::{encode_utf8, valid_utf8};
use crate::bytes::{
    copy_range, find_byte, find_from, lemma_find_from_at, lemma_find_from_some, push_all, string_bytes, text_from_bytes,
    text_of,
};
use crate::decimal::{all_digits, decimal, digits_value, lemma_decimal, parse_decimal, push_decimal};

verus! {

broadcast use vstd::utf8::group_utf8_lib;

/// A frame that could not be read as a command, a response or a value.
#[derive(Debug)]
pub struct ParseError;

/// The marker that opens a value field: `VAL `.
pub open spec fn val_tag() -> Seq<u8> {
    seq![86u8, 65u8, 76u8, 32u8]
}

/// The field for an empty payload: `VAL 0`.
pub open spec fn empty_field() -> Seq<u8> {
    val_tag().push(48u8)
}

/// The value field for payload `p`: `VAL 0` when it is empty, else
/// `VAL <length> <bytes>`.
pub open spec fn value_field(p: Seq<u8>) -> Seq<u8> {
    if p.len() == 0 {
        empty_field()
    } else {
        val_tag() + decimal(p.len()) + seq![32u8] + p
    }
}

/// The payload that a value field carries, or `None` when it is malformed.
/// A field whose length starts with `0` is the empty value; otherwise the
/// declared length is read up to the next space and that many of the
/// following bytes are the payload.
pub open spec fn parse_value(f: Seq<u8>) -> Option<Seq<u8>> {
    if f.len() < 5 || f.take(4) != val_tag() {
        None
    } else if f[4] == 48u8 {
        Some(Seq::empty())
    } else {
        match find_from(f, 4, 32u8) {
            None => None,
            Some(j) => {
                let digits = f.subrange(4, j);
                let rest = f.skip(j + 1);
                if digits.len() > 0 && all_digits(digits) && digits_value(digits) <= rest.len() {
                    Some(rest.take(digits_value(digits) as int))
                } else {
                    None
                }
            },
        }
    }
}

/// A payload of bytes, carried with its length. The buffer may hold more
/// bytes than the length; only the first `len` of them belong to the value.
#[derive(Debug)]
pub struct WrappedValue {
    buf: Option<Vec<u8>>,
    len: usize,
}

impl View for WrappedValue {
    type V = Seq<u8>;

    closed spec fn view(&self) -> Seq<u8> {
        match self.buf {
            Some(b) if self.len > 0 => b@.take(self.len as int),
            _ => Seq::empty(),
        }
    }
}

impl WrappedValue {
    /// A non-zero length always comes with a buffer that long.
    #[verifier::type_invariant]
    spec fn well_formed(&self) -> bool {
        self.len == 0 || (self.buf matches Some(b) && self.len <= b@.len())
    }

    /// The empty value.
    pub fn empty() -> (r: Self)
        ensures
            r@ == Seq::<u8>::empty(),
    {
        Self { buf: None, len: 0 }
    }

    /// The value holding the bytes of `str`.
    pub fn from_string(str: String) -> (r: Self)
        ensures
            r@ == encode_utf8(str@),
    {
        let b = string_bytes(&str);
        let n = b.len();
        let v = copy_range(b, 0, n);
        assert(b@.subrange(0, n as int) =~= b@);
        Self::from_bytes(v)
    }

    /// The value holding `bytes`.
    pub fn from_bytes(bytes: Vec<u8>) -> (r: Self)
        ensures
            r@ == bytes@,
    {
        let len = bytes.len();
        assert(bytes@.take(len as int) =~= bytes@);
        Self { buf: Some(bytes), len }
    }

    /// The number of payload bytes.
    pub fn len(&self) -> (r: usize)
        ensures
            r == self@.len(),
    {
        proof {
            use_type_invariant(self);
        }
        self.len
    }

    /// A copy of the payload bytes.
    pub fn to_bytes(&self) -> (r: Vec<u8>)
        ensures
            r@ == self@,
    {
        proof {
            use_type_invariant(self);
        }
        match &self.buf {
            Some(b) if self.len > 0 => copy_range(b.as_slice(), 0, self.len),
            _ => Vec::new(),
        }
    }

    /// The payload as text; it must be valid UTF-8.
    pub fn into_inner(self) -> (r: String)
        requires
            valid_utf8(self@),
        ensures
            r@ == text_of(self@),
            encode_utf8(r@) == self@,
    {
        let bytes = self.to_bytes();
        match text_from_bytes(bytes) {
            Some(s) => s,
            None => String::new(),
        }
    }

    /// Appends the value field of this payload to `out`.
    pub fn write_field(&self, out: &mut Vec<u8>)
        ensures
            final(out)@ == old(out)@ + value_field(self@),
    {
        proof {
            use_type_invariant(self);
        }
        out.push(86u8);
        out.push(65u8);
        out.push(76u8);
        out.push(32u8);
        match &self.buf {
            Some(b) if self.len > 0 => {
                push_decimal(out, self.len);
                out.push(32u8);
                push_all(out, &b.as_slice()[0..self.len]);
                assert(old(out)@ + value_field(self@) =~= out@);
            },
            _ => {
                out.push(48u8);
                assert(old(out)@ + value_field(self@) =~= out@);
            },
        }
    }

    /// The value field of this payload.
    pub fn encode(&self) -> (r: Vec<u8>)
        ensures
            r@ == value_field(self@),
    {
        let mut out: Vec<u8> = Vec::new();
        self.write_field(&mut out);
        assert(out@ =~= value_field(self@));
        out
    }

    /// Reads a value field.
    pub fn decode(field: &[u8]) -> (r: Result<WrappedValue, ParseError>)
        ensures
            match r {
                Ok(v) => parse_value(field@) == Some(v@),
                Err(_) => parse_value(field@) is None,
            },
    {
        if field.len() < 5 || field[0] != 86u8 || field[1] != 65u8 || field[2] != 76u8
            || field[3] != 32u8 {
            proof {
                if field@.len() >= 5 {
                    if field@.take(4) == val_tag() {
                        assert(field@.take(4)[0] == 86u8);
                        assert(field@.take(4)[1] == 65u8);
                        assert(field@.take(4)[2] == 76u8);
                        assert(field@.take(4)[3] == 32u8);
                    }
                }
            }
            return Err(ParseError);
        }
        assert(field@.take(4) =~= val_tag());
        if field[4] == 48u8 {
            return Ok(WrappedValue::empty());
        }
        match find_byte(field, 4, 32u8) {
            None => Err(ParseError),
            Some(j) => {
                proof {
                    lemma_find_from_some(field@, 4, 32u8);
                }
                let rest_len = field.len() - (j + 1);
                match parse_decimal(&field[4..j]) {
                    Some(n) if n <= rest_len => {
                        let buf = copy_range(field, j + 1, field.len());
                        assert(buf@ =~= field@.skip(j + 1));
                        Ok(WrappedValue { buf: Some(buf), len: n })
                    },
                    _ => Err(ParseError),
                }
            },
        }
    }
}

/// Reading back the value field of any payload gives that payload, whatever
/// bytes (newlines included) it holds.
pub proof fn lemma_value_round_trip(p: Seq<u8>)
    requires
        p.len() <= usize::MAX,
    ensures
        parse_value(value_field(p)) == Some(p),
{
    let f = value_field(p);
    if p.len() == 0 {
        assert(f.take(4) =~= val_tag());
        assert(f[4] == 48u8);
    } else {
        let n = p.len();
        let d = decimal(n);
        lemma_decimal(n);
        assert(f.take(4) =~= val_tag());
        assert(f[4] == d[0]);
        let j: int = 4 + d.len() as int;
        assert forall|i: int| 4 <= i < j implies f[i] != 32u8 by {
            assert(f[i] == d[i - 4]);
        }
        lemma_find_from_at(f, 4, 32u8, j);
        assert(f.subrange(4, j) =~= d);
        assert(f.skip(j + 1) =~= p);
        assert(p.take(n as int) =~= p);
    }
}

} // verus!
