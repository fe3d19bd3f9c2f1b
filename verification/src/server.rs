//! The two request handlers of the echo service. Each call computes its
//! response from its arguments alone: the library holds no state, so
//! concurrent requests cannot affect one another.

use vstd::prelude::*;
use vstd::string::StrSliceExecFns;
use vstd::string::StringSliceAdditionalSpecFns;
use crate::ascii;
use crate::ascii::{lower, starts_with_ignore_case};
use crate::binary::{h_content_type, h_content_type_vec, bin_headers_of, bin_body_of};
use crate::binary::{spec_decode_binary, decode_binary, encode_binary};
use crate::event::{Event, DecodeError};
use crate::structured::{spec_decode_structured, decode_structured, spec_encode_structured,
    encode_structured, lemma_decode_structured_wf, exts_view};

verus! {

/// An HTTP response: status, headers, body.
pub struct Response {
    pub status: u16,
    pub headers: Vec<(Vec<u8>, Vec<u8>)>,
    pub body: Vec<u8>,
}

/// The fixed greeting.
pub open spec fn greeting() -> Seq<u8> {
    ("hello from cloudevents server").spec_bytes()
}

/// Serves `GET /`: always status 200 with the fixed greeting, whatever the
/// request held.
pub fn handle_get() -> (r: Response)
    ensures
        r.status == 200,
        r.body@ == greeting(),
        r.headers@.len() == 0,
{
    Response { status: 200, headers: Vec::new(), body: ("hello from cloudevents server").as_bytes_vec() }
}

/// The media type that marks a structured-mode request.
pub open spec fn structured_content_type() -> Seq<u8> {
    ("application/cloudevents+json").spec_bytes()
}

pub fn structured_content_type_vec() -> (r: Vec<u8>)
    ensures
        r@ == structured_content_type(),
{
    ("application/cloudevents+json").as_bytes_vec()
}

/// The value of the first `content-type` header, compared without regard
/// to ASCII case.
pub open spec fn content_type_of(hs: Seq<(Seq<u8>, Seq<u8>)>) -> Option<Seq<u8>>
    decreases hs.len(),
{
    if hs.len() == 0 {
        None
    } else if lower(hs[0].0) == h_content_type() {
        Some(hs[0].1)
    } else {
        content_type_of(hs.subrange(1, hs.len() as int))
    }
}

/// A request is in structured mode when its `content-type` value starts
/// with the structured media type.
pub open spec fn is_structured_request(hs: Seq<(Seq<u8>, Seq<u8>)>) -> bool {
    match content_type_of(hs) {
        Some(v) => starts_with_ignore_case(v, structured_content_type()),
        None => false,
    }
}

fn request_is_structured(headers: &Vec<(Vec<u8>, Vec<u8>)>) -> (r: bool)
    ensures
        r == is_structured_request(exts_view(headers@)),
{
    let ghost all = exts_view(headers@);
    let hct = h_content_type_vec();
    let sct = structured_content_type_vec();
    let mut k: usize = 0;
    proof {
        assert(all.subrange(0, all.len() as int) =~= all);
    }
    while k < headers.len()
        invariant
            k <= headers@.len(),
            all == exts_view(headers@),
            hct@ == h_content_type(),
            sct@ == structured_content_type(),
            content_type_of(all) == content_type_of(all.subrange(k as int, all.len() as int)),
        decreases headers@.len() - k,
    {
        let name = &headers[k].0;
        let mut ln: Vec<u8> = Vec::new();
        let mut q: usize = 0;
        while q < name.len()
            invariant
                q <= name@.len(),
                ln@ == lower(name@).subrange(0, q as int),
            decreases name@.len() - q,
        {
            ln.push(ascii::byte_to_lower(name[q]));
            proof {
                assert(ln@ =~= lower(name@).subrange(0, q + 1));
            }
            q = q + 1;
        }
        proof {
            assert(ln@ =~= lower(name@));
            assert(all.subrange(k as int, all.len() as int)[0] == (headers@[k as int].0@,
            headers@[k as int].1@));
            assert(all.subrange(k as int, all.len() as int).subrange(1, all.len() - k)
                =~= all.subrange(k + 1, all.len() as int));
        }
        if ascii::bytes_eq(ln.as_slice(), hct.as_slice()) {
            return ascii::bytes_starts_with_ignore_case(headers[k].1.as_slice(), sct.as_slice());
        }
        k = k + 1;
    }
    proof {
        assert(all.subrange(all.len() as int, all.len() as int) =~= Seq::<(Seq<u8>,
            Seq<u8>)>::empty());
    }
    false
}

/// A short text naming a decode error.
pub open spec fn error_body(e: DecodeError) -> Seq<u8> {
    match e {
        DecodeError::MissingId => ("missing required attribute: id").spec_bytes(),
        DecodeError::MissingType => ("missing required attribute: type").spec_bytes(),
        DecodeError::MissingSource => ("missing required attribute: source").spec_bytes(),
        DecodeError::Malformed => ("malformed event").spec_bytes(),
        DecodeError::DuplicateAttribute => ("duplicate attribute").spec_bytes(),
        DecodeError::MalformedTime => ("malformed time attribute").spec_bytes(),
    }
}

fn error_message(e: DecodeError) -> (r: Vec<u8>)
    ensures
        r@ == error_body(e),
{
    match e {
        DecodeError::MissingId => ("missing required attribute: id").as_bytes_vec(),
        DecodeError::MissingType => ("missing required attribute: type").as_bytes_vec(),
        DecodeError::MissingSource => ("missing required attribute: source").as_bytes_vec(),
        DecodeError::Malformed => ("malformed event").as_bytes_vec(),
        DecodeError::DuplicateAttribute => ("duplicate attribute").as_bytes_vec(),
        DecodeError::MalformedTime => ("malformed time attribute").as_bytes_vec(),
    }
}

/// Serves `POST /`: decodes one event from the request (structured mode
/// when `content-type` says so, binary mode otherwise), and echoes it back
/// re-encoded in the same mode with status 200. A request that does not
/// decode gets status 400 and a body naming the error — never a 200.
///
/// The response is a function of the request alone: the library holds no
/// shared state, so concurrent requests cannot leak into each other.
pub fn handle_post(headers: &Vec<(Vec<u8>, Vec<u8>)>, body: &[u8]) -> (r: Response)
    ensures
        is_structured_request(exts_view(headers@)) ==> (match spec_decode_structured(body@) {
            Ok(m) => r.status == 200 && r.body@ == spec_encode_structured(m) && exts_view(
                r.headers@,
            ) == seq![(h_content_type(), structured_content_type())],
            Err(e) => r.status == 400 && r.body@ == error_body(e),
        }),
        !is_structured_request(exts_view(headers@)) ==> (match spec_decode_binary(
            exts_view(headers@),
            body@,
        ) {
            Ok(m) => r.status == 200 && exts_view(r.headers@) == bin_headers_of(m) && r.body@
                == bin_body_of(m),
            Err(e) => r.status == 400 && r.body@ == error_body(e),
        }),
{
    if request_is_structured(headers) {
        match decode_structured(body) {
            Ok(ev) => {
                proof {
                    lemma_decode_structured_wf(body@);
                }
                let out = encode_structured(&ev);
                let mut hs: Vec<(Vec<u8>, Vec<u8>)> = Vec::new();
                hs.push((h_content_type_vec(), structured_content_type_vec()));
                proof {
                    assert(exts_view(hs@) =~= seq![
                        (h_content_type(), structured_content_type()),
                    ]);
                }
                Response { status: 200, headers: hs, body: out }
            },
            Err(e) => Response { status: 400, headers: Vec::new(), body: error_message(e) },
        }
    } else {
        match decode_binary(headers, body) {
            Ok(ev) => {
                let (hs, out) = encode_binary(&ev);
                Response { status: 200, headers: hs, body: out }
            },
            Err(e) => Response { status: 400, headers: Vec::new(), body: error_message(e) },
        }
    }
}

} // verus!
