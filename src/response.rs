use vstd::prelude::*;
use vstd::utf8::{encode_utf8, valid_utf8};
use crate::bytes::{copy_range, push_all, string_bytes, text_from_bytes, text_of};
use crate::value::{lemma_value_round_trip, parse_value, value_field, ParseError, WrappedValue};

verus! {

broadcast use vstd::utf8::group_utf8_lib;

/// A reply from the worker to a client.
#[derive(Debug)]
pub enum Response {
    Value(WrappedValue),
    Error(String),
    Success,
}

/// What a `Response` means: a payload of bytes, an error message as text,
/// or plain success.
pub enum ResponseView {
    Value(Seq<u8>),
    Error(Seq<char>),
    Success,
}

impl View for Response {
    type V = ResponseView;

    open spec fn view(&self) -> ResponseView {
        match self {
            Response::Value(v) => ResponseView::Value(v@),
            Response::Error(m) => ResponseView::Error(m@),
            Response::Success => ResponseView::Success,
        }
    }
}

/// `OK`
pub open spec fn ok_tag() -> Seq<u8> {
    seq![79u8, 75u8]
}

/// `ERR `
pub open spec fn err_tag() -> Seq<u8> {
    seq![69u8, 82u8, 82u8, 32u8]
}

/// Responses that can travel in a frame: a payload whose length a `usize`
/// holds.
pub open spec fn valid_response(r: ResponseView) -> bool {
    match r {
        ResponseView::Value(p) => p.len() <= usize::MAX,
        _ => true,
    }
}

/// The frame (without its newline) that carries a response.
pub open spec fn response_frame(r: ResponseView) -> Seq<u8> {
    match r {
        ResponseView::Value(p) => value_field(p),
        ResponseView::Error(m) => err_tag() + encode_utf8(m),
        ResponseView::Success => ok_tag(),
    }
}

/// The response that a frame carries, or `None` when it is malformed. The
/// first two bytes pick the response; an error's message starts at the
/// fifth byte.
pub open spec fn parse_response(f: Seq<u8>) -> Option<ResponseView> {
    if f.len() < 2 {
        None
    } else if f.take(2) == ok_tag() {
        Some(ResponseView::Success)
    } else if f.take(2) == err_tag().take(2) {
        if f.len() >= 4 && valid_utf8(f.skip(4)) {
            Some(ResponseView::Error(text_of(f.skip(4))))
        } else {
            None
        }
    } else if f.take(2) == seq![86u8, 65u8] {
        match parse_value(f) {
            Some(p) => Some(ResponseView::Value(p)),
            None => None,
        }
    } else {
        None
    }
}

/// Whether the first two bytes of `f` are `a b`.
fn starts2(f: &[u8], a: u8, b: u8) -> (r: bool)
    requires
        f@.len() >= 2,
    ensures
        r == (f@.take(2) == seq![a, b]),
{
    let r = f[0] == a && f[1] == b;
    proof {
        if f@.take(2) == seq![a, b] {
            assert(f@.take(2)[0] == a && f@.take(2)[1] == b);
        }
        if r {
            assert(f@.take(2) =~= seq![a, b]);
        }
    }
    r
}

impl Response {
    /// Reads a response from one frame (without its newline).
    pub fn decode(frame: &[u8]) -> (r: Result<Response, ParseError>)
        ensures
            match r {
                Ok(resp) => parse_response(frame@) == Some(resp@),
                Err(_) => parse_response(frame@) is None,
            },
    {
        if frame.len() < 2 {
            return Err(ParseError);
        }
        assert(ok_tag() =~= seq![79u8, 75u8]);
        assert(err_tag().take(2) =~= seq![69u8, 82u8]);
        if starts2(frame, 79, 75) {
            Ok(Response::Success)
        } else if starts2(frame, 69, 82) {
            if frame.len() < 4 {
                return Err(ParseError);
            }
            let mb = copy_range(frame, 4, frame.len());
            assert(mb@ =~= frame@.skip(4));
            match text_from_bytes(mb) {
                Some(m) => Ok(Response::Error(m)),
                None => Err(ParseError),
            }
        } else if starts2(frame, 86, 65) {
            match WrappedValue::decode(frame) {
                Ok(v) => Ok(Response::Value(v)),
                Err(e) => Err(e),
            }
        } else {
            Err(ParseError)
        }
    }

    /// Appends the frame of this response (without its newline) to `out`.
    pub fn write_frame(&self, out: &mut Vec<u8>)
        ensures
            final(out)@ == old(out)@ + response_frame(self@),
    {
        match self {
            Response::Value(v) => {
                v.write_field(out);
            },
            Response::Error(m) => {
                out.push(69);
                out.push(82);
                out.push(82);
                out.push(32);
                push_all(out, string_bytes(m));
            },
            Response::Success => {
                out.push(79);
                out.push(75);
            },
        }
        assert(out@ =~= old(out)@ + response_frame(self@));
    }

    /// The frame (without its newline) that carries this response.
    pub fn encode(&self) -> (r: Vec<u8>)
        ensures
            r@ == response_frame(self@),
    {
        let mut out: Vec<u8> = Vec::new();
        self.write_frame(&mut out);
        assert(out@ =~= response_frame(self@));
        out
    }
}

/// Reading back the frame of a valid response gives that response.
pub proof fn lemma_response_round_trip(r: ResponseView)
    requires
        valid_response(r),
    ensures
        parse_response(response_frame(r)) == Some(r),
{
    let f = response_frame(r);
    match r {
        ResponseView::Value(p) => {
            lemma_value_round_trip(p);
            assert(f.take(2) =~= seq![86u8, 65u8]);
            assert(f.take(2)[0] != ok_tag()[0]);
            assert(f.take(2)[0] != err_tag().take(2)[0]);
        },
        ResponseView::Error(m) => {
            assert(f.take(2) =~= err_tag().take(2));
            assert(f.take(2)[0] != ok_tag()[0]);
            assert(f.skip(4) =~= encode_utf8(m));
        },
        ResponseView::Success => {
            assert(f.take(2) =~= ok_tag());
        },
    }
}

} // verus!
