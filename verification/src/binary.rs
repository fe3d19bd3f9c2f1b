//! The binary wire mode: each attribute as a prefixed header (`ce-id`,
//! `ce-type`, `ce-source`, `ce-time`, extensions as `ce-<name>`), the
//! declared media type in `content-type`, and the payload as the raw body.

use vstd::prelude::*;
use crate::ascii;
use crate::ascii::lower;
use crate::event::{Event, EventModel, DecodeError, wf_event, is_attr_name, is_reserved_key};
use crate::event::{key_id, key_type, key_source, key_time};
use crate::structured::{Acc, acc_empty, ext_has_key, exts_view};
use crate::time;

verus! {

/// `ce-`: the prefix that marks an event attribute header.
pub open spec fn h_prefix() -> Seq<u8> {
    seq![0x63u8, 0x65u8, 0x2du8]
}

pub open spec fn h_id() -> Seq<u8> {
    h_prefix() + key_id()
}

pub open spec fn h_type() -> Seq<u8> {
    h_prefix() + key_type()
}

pub open spec fn h_source() -> Seq<u8> {
    h_prefix() + key_source()
}

pub open spec fn h_time() -> Seq<u8> {
    h_prefix() + key_time()
}

/// `content-type`.
pub open spec fn h_content_type() -> Seq<u8> {
    seq![
        0x63u8,
        0x6fu8,
        0x6eu8,
        0x74u8,
        0x65u8,
        0x6eu8,
        0x74u8,
        0x2du8,
        0x74u8,
        0x79u8,
        0x70u8,
        0x65u8,
    ]
}

/// The canonical binary-mode headers of an event, in order.
pub open spec fn bin_headers_of(e: EventModel) -> Seq<(Seq<u8>, Seq<u8>)> {
    seq![(h_id(), e.id), (h_type(), e.ty), (h_source(), e.source)] + (match e.time {
        Some(t) => seq![(h_time(), t)],
        None => Seq::empty(),
    }) + (match e.datacontenttype {
        Some(c) => seq![(h_content_type(), c)],
        None => Seq::empty(),
    }) + e.extensions.map_values(|p: (Seq<u8>, Seq<u8>)| (h_prefix() + p.0, p.1))
}

/// The canonical binary-mode body of an event: the payload, or empty.
pub open spec fn bin_body_of(e: EventModel) -> Seq<u8> {
    match e.data {
        Some(d) => d,
        None => Seq::empty(),
    }
}

/// Applies one header to the decode state. Header names are matched
/// without regard to ASCII case; headers that name no event attribute are
/// passed over.
pub open spec fn bin_step(acc: Acc, name: Seq<u8>, value: Seq<u8>) -> Result<Acc, DecodeError> {
    let ln = lower(name);
    if ln == h_id() {
        if acc.id is Some {
            Err(DecodeError::DuplicateAttribute)
        } else {
            Ok(Acc { id: Some(value), ..acc })
        }
    } else if ln == h_type() {
        if acc.ty is Some {
            Err(DecodeError::DuplicateAttribute)
        } else {
            Ok(Acc { ty: Some(value), ..acc })
        }
    } else if ln == h_source() {
        if acc.source is Some {
            Err(DecodeError::DuplicateAttribute)
        } else {
            Ok(Acc { source: Some(value), ..acc })
        }
    } else if ln == h_time() {
        if acc.time is Some {
            Err(DecodeError::DuplicateAttribute)
        } else {
            Ok(Acc { time: Some(value), ..acc })
        }
    } else if ln == h_content_type() {
        if acc.datacontenttype is Some {
            Err(DecodeError::DuplicateAttribute)
        } else {
            Ok(Acc { datacontenttype: Some(value), ..acc })
        }
    } else if ln.len() >= 3 && ln.subrange(0, 3) == h_prefix() {
        let ext = ln.subrange(3, ln.len() as int);
        if !is_attr_name(ext) || is_reserved_key(ext) {
            Err(DecodeError::Malformed)
        } else if ext_has_key(acc.extensions, ext) {
            Err(DecodeError::DuplicateAttribute)
        } else {
            Ok(Acc { extensions: acc.extensions.push((ext, value)), ..acc })
        }
    } else {
        Ok(acc)
    }
}

pub open spec fn bin_fold(acc: Acc, hs: Seq<(Seq<u8>, Seq<u8>)>) -> Result<Acc, DecodeError>
    decreases hs.len(),
{
    if hs.len() == 0 {
        Ok(acc)
    } else {
        match bin_step(acc, hs[0].0, hs[0].1) {
            Err(e) => Err(e),
            Ok(a2) => bin_fold(a2, hs.subrange(1, hs.len() as int)),
        }
    }
}

pub open spec fn bin_finish(acc: Acc, body: Seq<u8>) -> Result<EventModel, DecodeError> {
    if acc.id is None {
        Err(DecodeError::MissingId)
    } else if acc.ty is None {
        Err(DecodeError::MissingType)
    } else if acc.source is None {
        Err(DecodeError::MissingSource)
    } else if match acc.time {
        Some(t) => !time::is_rfc3339(t),
        None => false,
    } {
        Err(DecodeError::MalformedTime)
    } else {
        Ok(
            EventModel {
                id: acc.id->Some_0,
                ty: acc.ty->Some_0,
                source: acc.source->Some_0,
                time: acc.time,
                datacontenttype: acc.datacontenttype,
                data: if body.len() > 0 {
                    Some(body)
                } else {
                    None
                },
                extensions: acc.extensions,
            },
        )
    }
}

/// What decoding a binary-mode message yields.
pub open spec fn spec_decode_binary(hs: Seq<(Seq<u8>, Seq<u8>)>, body: Seq<u8>) -> Result<
    EventModel,
    DecodeError,
> {
    match bin_fold(acc_empty(), hs) {
        Err(e) => Err(e),
        Ok(acc) => bin_finish(acc, body),
    }
}

// ---------------------------------------------------------------------------
// Executable header names.
// ---------------------------------------------------------------------------

fn push_prefix(v: &mut Vec<u8>)
    ensures
        final(v)@ == old(v)@ + h_prefix(),
{
    v.push(0x63);
    v.push(0x65);
    v.push(0x2d);
    proof {
        assert(v@ =~= old(v)@ + h_prefix());
    }
}

pub fn h_id_vec() -> (r: Vec<u8>)
    ensures
        r@ == h_id(),
{
    let mut v: Vec<u8> = Vec::new();
    push_prefix(&mut v);
    let k = crate::structured::key_id_vec();
    ascii::append_bytes(&mut v, k.as_slice());
    proof {
        assert(v@ =~= h_id());
    }
    v
}

pub fn h_type_vec() -> (r: Vec<u8>)
    ensures
        r@ == h_type(),
{
    let mut v: Vec<u8> = Vec::new();
    push_prefix(&mut v);
    let k = crate::structured::key_type_vec();
    ascii::append_bytes(&mut v, k.as_slice());
    proof {
        assert(v@ =~= h_type());
    }
    v
}

pub fn h_source_vec() -> (r: Vec<u8>)
    ensures
        r@ == h_source(),
{
    let mut v: Vec<u8> = Vec::new();
    push_prefix(&mut v);
    let k = crate::structured::key_source_vec();
    ascii::append_bytes(&mut v, k.as_slice());
    proof {
        assert(v@ =~= h_source());
    }
    v
}

pub fn h_time_vec() -> (r: Vec<u8>)
    ensures
        r@ == h_time(),
{
    let mut v: Vec<u8> = Vec::new();
    push_prefix(&mut v);
    let k = crate::structured::key_time_vec();
    ascii::append_bytes(&mut v, k.as_slice());
    proof {
        assert(v@ =~= h_time());
    }
    v
}

pub fn h_content_type_vec() -> (r: Vec<u8>)
    ensures
        r@ == h_content_type(),
{
    let mut v: Vec<u8> = Vec::new();
    v.push(0x63);
    v.push(0x6f);
    v.push(0x6e);
    v.push(0x74);
    v.push(0x65);
    v.push(0x6e);
    v.push(0x74);
    v.push(0x2d);
    v.push(0x74);
    v.push(0x79);
    v.push(0x70);
    v.push(0x65);
    proof {
        assert(v@ =~= h_content_type());
    }
    v
}

// ---------------------------------------------------------------------------
// Encoding.
// ---------------------------------------------------------------------------

/// Encodes an event as binary-mode headers and body.
pub fn encode_binary(e: &Event) -> (r: (Vec<(Vec<u8>, Vec<u8>)>, Vec<u8>))
    ensures
        exts_view(r.0@) == bin_headers_of(e@),
        r.1@ == bin_body_of(e@),
{
    let mut hs: Vec<(Vec<u8>, Vec<u8>)> = Vec::new();
    hs.push((h_id_vec(), ascii::copy_bytes(e.id.as_slice())));
    hs.push((h_type_vec(), ascii::copy_bytes(e.ty.as_slice())));
    hs.push((h_source_vec(), ascii::copy_bytes(e.source.as_slice())));
    match &e.time {
        Some(t) => {
            hs.push((h_time_vec(), ascii::copy_bytes(t.as_slice())));
        },
        None => {},
    }
    match &e.datacontenttype {
        Some(c) => {
            hs.push((h_content_type_vec(), ascii::copy_bytes(c.as_slice())));
        },
        None => {},
    }
    let ghost hs_std = exts_view(hs@);
    let ghost ext_hdrs = e@.extensions.map_values(|p: (Seq<u8>, Seq<u8>)| (h_prefix() + p.0, p.1));
    proof {
        assert(exts_view(hs@) =~~= hs_std + ext_hdrs.subrange(0, 0));
    }
    let mut x: usize = 0;
    while x < e.extensions.len()
        invariant
            x <= e.extensions@.len(),
            ext_hdrs == e@.extensions.map_values(
                |p: (Seq<u8>, Seq<u8>)| (h_prefix() + p.0, p.1),
            ),
            hs_std + ext_hdrs.subrange(0, x as int) == exts_view(hs@),
        decreases e.extensions@.len() - x,
    {
        let mut name: Vec<u8> = Vec::new();
        push_prefix(&mut name);
        ascii::append_bytes(&mut name, e.extensions[x].0.as_slice());
        let value = ascii::copy_bytes(e.extensions[x].1.as_slice());
        let ghost gn = name@;
        let ghost gv = value@;
        let ghost hv0 = hs@;
        proof {
            assert(gn =~= h_prefix() + e.extensions@[x as int].0@);
            assert(e@.extensions[x as int] == (e.extensions@[x as int].0@, e.extensions@[x
                as int].1@));
            assert(ext_hdrs[x as int] == (h_prefix() + e.extensions@[x as int].0@, e.extensions@[x
                as int].1@));
        }
        hs.push((name, value));
        proof {
            let target = hs_std + ext_hdrs.subrange(0, x + 1);
            assert(hs@.len() == hv0.len() + 1);
            assert(exts_view(hv0).len() == hv0.len());
            assert(hs_std.len() + x == hv0.len());
            assert(ext_hdrs.len() == e.extensions@.len());
            assert(x + 1 <= ext_hdrs.len());
            assert(exts_view(hs@).len() == target.len());
            assert forall|i: int| 0 <= i < hs@.len() implies exts_view(hs@)[i] == target[i] by {
                assert(exts_view(hs@)[i] == (hs@[i].0@, hs@[i].1@));
                if i < hv0.len() {
                    assert(hs@[i] == hv0[i]);
                    assert(exts_view(hv0)[i] == (hv0[i].0@, hv0[i].1@));
                    assert((hs_std + ext_hdrs.subrange(0, x as int))[i] == exts_view(hv0)[i]);
                    assert(target[i] == (hs_std + ext_hdrs.subrange(0, x as int))[i]);
                } else {
                    assert(hs@[i] == (name, value));
                    assert(exts_view(hs@)[i] == (gn, gv));
                    assert(target[i] == ext_hdrs[x as int]);
                }
            }
            assert(exts_view(hs@) =~= target);
        }
        x = x + 1;
    }
    let body = match &e.data {
        Some(d) => ascii::copy_bytes(d.as_slice()),
        None => Vec::new(),
    };
    proof {
        assert(ext_hdrs.subrange(0, e@.extensions.len() as int) =~= ext_hdrs);
        assert(exts_view(hs@) =~~= bin_headers_of(e@));
        assert(body@ =~= bin_body_of(e@));
    }
    (hs, body)
}

// ---------------------------------------------------------------------------
// Decoding.
// ---------------------------------------------------------------------------

/// Decodes binary-mode headers and body into an event.
pub fn decode_binary(headers: &Vec<(Vec<u8>, Vec<u8>)>, body: &[u8]) -> (r: Result<
    Event,
    DecodeError,
>)
    ensures
        match r {
            Ok(ev) => spec_decode_binary(exts_view(headers@), body@) == Ok::<
                EventModel,
                DecodeError,
            >(ev@),
            Err(e) => spec_decode_binary(exts_view(headers@), body@) == Err::<
                EventModel,
                DecodeError,
            >(e),
        },
{
    let ghost all = exts_view(headers@);
    let mut id: Option<Vec<u8>> = None;
    let mut ty: Option<Vec<u8>> = None;
    let mut source: Option<Vec<u8>> = None;
    let mut tm: Option<Vec<u8>> = None;
    let mut dct: Option<Vec<u8>> = None;
    let mut exts: Vec<(Vec<u8>, Vec<u8>)> = Vec::new();
    let hid = h_id_vec();
    let hty = h_type_vec();
    let hsrc = h_source_vec();
    let htime = h_time_vec();
    let hct = h_content_type_vec();
    proof {
        assert(all.subrange(0, all.len() as int) =~= all);
        assert(exts_view(exts@) =~= acc_empty().extensions);
    }
    let mut k: usize = 0;
    while k < headers.len()
        invariant
            k <= headers@.len(),
            all == exts_view(headers@),
            bin_fold(acc_empty(), all) == bin_fold(
                Acc {
                    id: crate::structured::opt_view(id),
                    ty: crate::structured::opt_view(ty),
                    source: crate::structured::opt_view(source),
                    time: crate::structured::opt_view(tm),
                    datacontenttype: crate::structured::opt_view(dct),
                    data: None,
                    extensions: exts_view(exts@),
                },
                all.subrange(k as int, all.len() as int),
            ),
            hid@ == h_id() && hty@ == h_type() && hsrc@ == h_source() && htime@ == h_time() && hct@
                == h_content_type(),
        decreases headers@.len() - k,
    {
        let ghost acc_cur = Acc {
            id: crate::structured::opt_view(id),
            ty: crate::structured::opt_view(ty),
            source: crate::structured::opt_view(source),
            time: crate::structured::opt_view(tm),
            datacontenttype: crate::structured::opt_view(dct),
            data: None,
            extensions: exts_view(exts@),
        };
        proof {
            assert(all.subrange(k as int, all.len() as int)[0] == (headers@[k as int].0@,
            headers@[k as int].1@));
            assert(all.subrange(k as int, all.len() as int).subrange(1, all.len() - k)
                =~= all.subrange(k + 1, all.len() as int));
        }
        let name = &headers[k].0;
        let value = &headers[k].1;
        let mut ln: Vec<u8> = Vec::new();
        let mut q: usize = 0;
        while q < name.len()
            invariant
                q <= name@.len(),
                ln@ == lower(name@).subrange(0, q as int),
            decreases name@.len() - q,
        {
            ln.push(ascii::byte_to_lower(name[q]));
            proof {
                assert(ln@ =~= lower(name@).subrange(0, q + 1));
            }
            q = q + 1;
        }
        proof {
            assert(ln@ =~= lower(name@));
        }
        let step_err: Option<DecodeError> = if ascii::bytes_eq(ln.as_slice(), hid.as_slice()) {
            if id.is_some() {
                Some(DecodeError::DuplicateAttribute)
            } else {
                id = Some(ascii::copy_bytes(value.as_slice()));
                None
            }
        } else if ascii::bytes_eq(ln.as_slice(), hty.as_slice()) {
            if ty.is_some() {
                Some(DecodeError::DuplicateAttribute)
            } else {
                ty = Some(ascii::copy_bytes(value.as_slice()));
                None
            }
        } else if ascii::bytes_eq(ln.as_slice(), hsrc.as_slice()) {
            if source.is_some() {
                Some(DecodeError::DuplicateAttribute)
            } else {
                source = Some(ascii::copy_bytes(value.as_slice()));
                None
            }
        } else if ascii::bytes_eq(ln.as_slice(), htime.as_slice()) {
            if tm.is_some() {
                Some(DecodeError::DuplicateAttribute)
            } else {
                tm = Some(ascii::copy_bytes(value.as_slice()));
                None
            }
        } else if ascii::bytes_eq(ln.as_slice(), hct.as_slice()) {
            if dct.is_some() {
                Some(DecodeError::DuplicateAttribute)
            } else {
                dct = Some(ascii::copy_bytes(value.as_slice()));
                None
            }
        } else if ln.len() >= 3 && ln[0] == 0x63 && ln[1] == 0x65 && ln[2] == 0x2d {
            proof {
                assert(lower(name@).subrange(0, 3) =~= h_prefix());
            }
            let ext = vstd::slice::slice_to_vec(
                vstd::slice::slice_subrange(ln.as_slice(), 3, ln.len()),
            );
            let valid = crate::structured::is_attr_name_exec(ext.as_slice());
            let reserved = if valid {
                is_reserved_key_exec(ext.as_slice())
            } else {
                false
            };
            if !valid || reserved {
                Some(DecodeError::Malformed)
            } else if crate::structured::find_ext(&exts, ext.as_slice()) {
                Some(DecodeError::DuplicateAttribute)
            } else {
                let ghost pre = exts@;
                exts.push((ext, ascii::copy_bytes(value.as_slice())));
                proof {
                    assert(exts_view(exts@) =~= exts_view(pre).push(
                        (lower(name@).subrange(3, lower(name@).len() as int), value@),
                    ));
                }
                None
            }
        } else {
            proof {
                if lower(name@).len() >= 3 && lower(name@).subrange(0, 3) == h_prefix() {
                    assert(ln@[0] == 0x63 && ln@[1] == 0x65 && ln@[2] == 0x2d);
                }
            }
            None
        };
        let ghost mm = all[k as int];
        match step_err {
            Some(e) => {
                proof {
                    assert(bin_step(acc_cur, mm.0, mm.1) == Err::<Acc, DecodeError>(e));
                }
                return Err(e);
            },
            None => {
                proof {
                    let acc_new = Acc {
                        id: crate::structured::opt_view(id),
                        ty: crate::structured::opt_view(ty),
                        source: crate::structured::opt_view(source),
                        time: crate::structured::opt_view(tm),
                        datacontenttype: crate::structured::opt_view(dct),
                        data: None,
                        extensions: exts_view(exts@),
                    };
                    assert(bin_step(acc_cur, mm.0, mm.1) == Ok::<Acc, DecodeError>(acc_new));
                }
            },
        }
        k = k + 1;
    }
    proof {
        assert(all.subrange(all.len() as int, all.len() as int) =~= Seq::<(Seq<u8>,
            Seq<u8>)>::empty());
    }
    let idv = match id {
        Some(x) => x,
        None => { return Err(DecodeError::MissingId); },
    };
    let tyv = match ty {
        Some(x) => x,
        None => { return Err(DecodeError::MissingType); },
    };
    let srcv = match source {
        Some(x) => x,
        None => { return Err(DecodeError::MissingSource); },
    };
    match &tm {
        Some(t) => {
            if !time::check_rfc3339(t.as_slice()) {
                return Err(DecodeError::MalformedTime);
            }
        },
        None => {},
    }
    let data: Option<Vec<u8>> = if body.len() > 0 {
        Some(ascii::copy_bytes(body))
    } else {
        None
    };
    let ev = Event {
        id: idv,
        ty: tyv,
        source: srcv,
        time: tm,
        datacontenttype: dct,
        data,
        extensions: exts,
    };
    proof {
        assert(ev@.extensions =~= exts_view(ev.extensions@));
    }
    Ok(ev)
}

fn is_reserved_key_exec(s: &[u8]) -> (r: bool)
    ensures
        r == is_reserved_key(s@),
{
    let a = crate::structured::key_id_vec();
    let b = crate::structured::key_type_vec();
    let c = crate::structured::key_source_vec();
    let d = crate::structured::key_time_vec();
    let e = crate::structured::key_datacontenttype_vec();
    let f = crate::structured::key_data_vec();
    ascii::bytes_eq(s, a.as_slice()) || ascii::bytes_eq(s, b.as_slice()) || ascii::bytes_eq(
        s,
        c.as_slice(),
    ) || ascii::bytes_eq(s, d.as_slice()) || ascii::bytes_eq(s, e.as_slice()) || ascii::bytes_eq(
        s,
        f.as_slice(),
    )
}


// ---------------------------------------------------------------------------
// The binary round trip.
// ---------------------------------------------------------------------------

proof fn lemma_bin_fold_append(acc: Acc, a: Seq<(Seq<u8>, Seq<u8>)>, b: Seq<(Seq<u8>, Seq<u8>)>)
    ensures
        bin_fold(acc, a + b) == (match bin_fold(acc, a) {
            Ok(acc2) => bin_fold(acc2, b),
            Err(e) => Err(e),
        }),
    decreases a.len(),
{
    if a.len() == 0 {
        assert(a + b =~= b);
    } else {
        let ab = a + b;
        assert(ab[0] == a[0]);
        match bin_step(acc, a[0].0, a[0].1) {
            Err(_) => {},
            Ok(a2) => {
                lemma_bin_fold_append(a2, a.subrange(1, a.len() as int), b);
                assert(ab.subrange(1, ab.len() as int) =~= a.subrange(1, a.len() as int) + b);
            },
        }
    }
}

proof fn lemma_bin_fold_single(acc: Acc, h: (Seq<u8>, Seq<u8>))
    requires
        bin_step(acc, h.0, h.1) is Ok,
    ensures
        bin_fold(acc, seq![h]) == Ok::<Acc, DecodeError>(bin_step(acc, h.0, h.1)->Ok_0),
{
    assert(seq![h].subrange(1, 1) =~= Seq::<(Seq<u8>, Seq<u8>)>::empty());
    assert(bin_fold(bin_step(acc, h.0, h.1)->Ok_0, Seq::<(Seq<u8>, Seq<u8>)>::empty())
        == Ok::<Acc, DecodeError>(bin_step(acc, h.0, h.1)->Ok_0));
}

/// The canonical header names are already lower case, and pairwise
/// distinct.
proof fn lemma_h_names()
    ensures
        lower(h_id()) == h_id(),
        lower(h_type()) == h_type(),
        lower(h_source()) == h_source(),
        lower(h_time()) == h_time(),
        lower(h_content_type()) == h_content_type(),
        h_id() != h_type() && h_id() != h_source() && h_id() != h_time() && h_id()
            != h_content_type(),
        h_type() != h_source() && h_type() != h_time() && h_type() != h_content_type(),
        h_source() != h_time() && h_source() != h_content_type(),
        h_time() != h_content_type(),
{
    assert(h_id().len() == 5 && h_type().len() == 7 && h_source().len() == 9 && h_time().len() == 7
        && h_content_type().len() == 12);
    assert(h_type()[4] == 0x79 && h_time()[4] == 0x69);
    assert forall|i: int| 0 <= i < h_id().len() implies ascii::lower_byte(h_id()[i])
        == h_id()[i] by {
    }
    assert(lower(h_id()) =~= h_id());
    assert forall|i: int| 0 <= i < h_type().len() implies ascii::lower_byte(h_type()[i])
        == h_type()[i] by {
    }
    assert(lower(h_type()) =~= h_type());
    assert forall|i: int| 0 <= i < h_source().len() implies ascii::lower_byte(h_source()[i])
        == h_source()[i] by {
    }
    assert(lower(h_source()) =~= h_source());
    assert forall|i: int| 0 <= i < h_time().len() implies ascii::lower_byte(h_time()[i])
        == h_time()[i] by {
    }
    assert(lower(h_time()) =~= h_time());
    assert forall|i: int| 0 <= i < h_content_type().len() implies ascii::lower_byte(
        h_content_type()[i],
    ) == h_content_type()[i] by {
    }
    assert(lower(h_content_type()) =~= h_content_type());
}

/// An extension header name: lower case already, no standard name, and its
/// attribute name comes back off the prefix.
proof fn lemma_ext_header_name(name: Seq<u8>)
    requires
        is_attr_name(name),
    ensures
        lower(h_prefix() + name) == h_prefix() + name,
        (h_prefix() + name).len() >= 3,
        (h_prefix() + name).subrange(0, 3) == h_prefix(),
        (h_prefix() + name).subrange(3, (h_prefix() + name).len() as int) == name,
        h_prefix() + name != h_id() || name == key_id(),
        h_prefix() + name != h_type() || name == key_type(),
        h_prefix() + name != h_source() || name == key_source(),
        h_prefix() + name != h_time() || name == key_time(),
        h_prefix() + name != h_content_type(),
{
    let h = h_prefix() + name;
    assert forall|i: int| 0 <= i < h.len() implies ascii::lower_byte(h[i]) == h[i] by {
        if i >= 3 {
            assert(crate::event::is_attr_name_byte(name[i - 3]));
        }
    }
    assert(lower(h) =~= h);
    assert(h.subrange(0, 3) =~= h_prefix());
    assert(h.subrange(3, h.len() as int) =~= name);
    if h == h_id() {
        assert(name =~= key_id()) by {
            assert(h.subrange(3, h.len() as int) =~= h_id().subrange(3, 5));
            assert(h_id().subrange(3, 5) =~= key_id());
        }
    }
    if h == h_type() {
        assert(name =~= key_type()) by {
            assert(h.subrange(3, h.len() as int) =~= h_type().subrange(3, 7));
            assert(h_type().subrange(3, 7) =~= key_type());
        }
    }
    if h == h_source() {
        assert(name =~= key_source()) by {
            assert(h.subrange(3, h.len() as int) =~= h_source().subrange(3, 9));
            assert(h_source().subrange(3, 9) =~= key_source());
        }
    }
    if h == h_time() {
        assert(name =~= key_time()) by {
            assert(h.subrange(3, h.len() as int) =~= h_time().subrange(3, 7));
            assert(h_time().subrange(3, 7) =~= key_time());
        }
    }
    assert(h[2] == 0x2d && h_content_type()[2] == 0x6e);
}

/// Folding well-formed extension headers appends the extensions, in
/// order.
proof fn lemma_bin_exts(acc: Acc, exts: Seq<(Seq<u8>, Seq<u8>)>)
    requires
        forall|i: int|
            0 <= i < exts.len() ==> is_attr_name(#[trigger] exts[i].0) && !is_reserved_key(
                exts[i].0,
            ) && !ext_has_key(acc.extensions, exts[i].0),
        forall|i: int, j: int|
            0 <= i < j < exts.len() ==> #[trigger] exts[i].0 != #[trigger] exts[j].0,
    ensures
        bin_fold(acc, exts.map_values(|p: (Seq<u8>, Seq<u8>)| (h_prefix() + p.0, p.1)))
            == Ok::<Acc, DecodeError>(Acc { extensions: acc.extensions + exts, ..acc }),
    decreases exts.len(),
{
    let hdrs = exts.map_values(|p: (Seq<u8>, Seq<u8>)| (h_prefix() + p.0, p.1));
    if exts.len() == 0 {
        assert(hdrs =~= Seq::<(Seq<u8>, Seq<u8>)>::empty());
        assert(acc.extensions + exts =~= acc.extensions);
        assert(Acc { extensions: acc.extensions + exts, ..acc } == acc);
    } else {
        let x0 = exts[0];
        lemma_h_names();
        lemma_ext_header_name(x0.0);
        assert(hdrs[0] == (h_prefix() + x0.0, x0.1));
        assert(!is_reserved_key(x0.0));
        let acc2 = Acc { extensions: acc.extensions.push((x0.0, x0.1)), ..acc };
        assert(bin_step(acc, hdrs[0].0, hdrs[0].1) == Ok::<Acc, DecodeError>(acc2)) by {
            let ln = lower(h_prefix() + x0.0);
            assert(ln == h_prefix() + x0.0);
            assert(ln != h_id() && ln != h_type() && ln != h_source() && ln != h_time() && ln
                != h_content_type());
            assert(ln.subrange(3, ln.len() as int) == x0.0);
        }
        let tail = exts.subrange(1, exts.len() as int);
        assert forall|i: int| 0 <= i < tail.len() implies is_attr_name(#[trigger] tail[i].0)
            && !is_reserved_key(tail[i].0) && !ext_has_key(acc2.extensions, tail[i].0) by {
            assert(tail[i] == exts[i + 1]);
            assert(!ext_has_key(acc.extensions, exts[i + 1].0));
            assert(exts[0].0 != exts[i + 1].0);
            if ext_has_key(acc2.extensions, tail[i].0) {
                let w = choose|w: int|
                    0 <= w < acc2.extensions.len() && acc2.extensions[w].0 == tail[i].0;
                if w < acc.extensions.len() {
                    assert(acc.extensions[w].0 == tail[i].0);
                } else {
                    assert(acc2.extensions[w] == (x0.0, x0.1));
                }
            }
        }
        lemma_bin_exts(acc2, tail);
        assert(hdrs.subrange(1, hdrs.len() as int) =~= tail.map_values(
            |p: (Seq<u8>, Seq<u8>)| (h_prefix() + p.0, p.1),
        ));
        assert(acc2.extensions + tail =~= acc.extensions + exts);
        assert(Acc { extensions: acc2.extensions + tail, ..acc2 } == Acc {
            extensions: acc.extensions + exts,
            ..acc
        });
    }
}

/// The binary round trip: decoding the binary encoding of a well-formed
/// event whose payload is not the empty byte string yields the event back.
/// (An empty payload and an absent payload share one wire form — an empty
/// body — and decode as absent.)
pub proof fn lemma_binary_round_trip(e: EventModel)
    requires
        wf_event(e),
        e.data != Some(Seq::<u8>::empty()),
    ensures
        spec_decode_binary(bin_headers_of(e), bin_body_of(e)) == Ok::<EventModel, DecodeError>(e),
{
    lemma_h_names();
    let a0 = acc_empty();
    let h1 = (h_id(), e.id);
    let h2 = (h_type(), e.ty);
    let h3 = (h_source(), e.source);
    let std3 = seq![h1, h2, h3];
    let acc1 = Acc { id: Some(e.id), ..a0 };
    let acc2 = Acc { ty: Some(e.ty), ..acc1 };
    let acc3 = Acc { source: Some(e.source), ..acc2 };
    assert(bin_step(a0, h1.0, h1.1) == Ok::<Acc, DecodeError>(acc1));
    assert(bin_step(acc1, h2.0, h2.1) == Ok::<Acc, DecodeError>(acc2));
    assert(bin_step(acc2, h3.0, h3.1) == Ok::<Acc, DecodeError>(acc3));
    lemma_bin_fold_single(a0, h1);
    lemma_bin_fold_single(acc1, h2);
    lemma_bin_fold_single(acc2, h3);
    lemma_bin_fold_append(acc1, seq![h2], seq![h3]);
    lemma_bin_fold_append(a0, seq![h1], seq![h2] + seq![h3]);
    assert(std3 =~= seq![h1] + (seq![h2] + seq![h3]));
    assert(bin_fold(a0, std3) == Ok::<Acc, DecodeError>(acc3));

    let t_seg = (match e.time {
        Some(t) => seq![(h_time(), t)],
        None => Seq::<(Seq<u8>, Seq<u8>)>::empty(),
    });
    let c_seg = (match e.datacontenttype {
        Some(c) => seq![(h_content_type(), c)],
        None => Seq::<(Seq<u8>, Seq<u8>)>::empty(),
    });
    let x_seg = e.extensions.map_values(|p: (Seq<u8>, Seq<u8>)| (h_prefix() + p.0, p.1));

    let acc_t = Acc { time: e.time, ..acc3 };
    assert(bin_fold(acc3, t_seg) == Ok::<Acc, DecodeError>(acc_t)) by {
        match e.time {
            Some(t) => {
                assert(bin_step(acc3, h_time(), t) == Ok::<Acc, DecodeError>(acc_t));
                lemma_bin_fold_single(acc3, (h_time(), t));
            },
            None => {
                assert(acc_t == acc3);
            },
        }
    }
    let acc_c = Acc { datacontenttype: e.datacontenttype, ..acc_t };
    assert(bin_fold(acc_t, c_seg) == Ok::<Acc, DecodeError>(acc_c)) by {
        match e.datacontenttype {
            Some(c) => {
                assert(bin_step(acc_t, h_content_type(), c) == Ok::<Acc, DecodeError>(acc_c));
                lemma_bin_fold_single(acc_t, (h_content_type(), c));
            },
            None => {
                assert(acc_c == acc_t);
            },
        }
    }
    assert forall|i: int| 0 <= i < e.extensions.len() implies is_attr_name(
        #[trigger] e.extensions[i].0,
    ) && !is_reserved_key(e.extensions[i].0) && !ext_has_key(acc_c.extensions, e.extensions[i].0)
        by {
        assert(acc_c.extensions.len() == 0);
    }
    lemma_bin_exts(acc_c, e.extensions);
    let acc_x = Acc { extensions: acc_c.extensions + e.extensions, ..acc_c };
    assert(acc_c.extensions + e.extensions =~= e.extensions);
    lemma_bin_fold_append(a0, std3 + t_seg + c_seg, x_seg);
    lemma_bin_fold_append(a0, std3 + t_seg, c_seg);
    lemma_bin_fold_append(a0, std3, t_seg);
    assert(bin_headers_of(e) == std3 + t_seg + c_seg + x_seg);
    assert(bin_fold(a0, bin_headers_of(e)) == Ok::<Acc, DecodeError>(acc_x));
    match e.data {
        Some(d) => {
            assert(d != Seq::<u8>::empty());
            assert(d.len() > 0) by {
                if d.len() == 0 {
                    assert(d =~= Seq::<u8>::empty());
                }
            }
            assert(bin_body_of(e).len() > 0);
        },
        None => {
            assert(bin_body_of(e).len() == 0);
        },
    }
    assert(bin_finish(acc_x, bin_body_of(e)) == Ok::<EventModel, DecodeError>(
        EventModel {
            id: e.id,
            ty: e.ty,
            source: e.source,
            time: e.time,
            datacontenttype: e.datacontenttype,
            data: e.data,
            extensions: e.extensions,
        },
    ));
    assert(EventModel {
        id: e.id,
        ty: e.ty,
        source: e.source,
        time: e.time,
        datacontenttype: e.datacontenttype,
        data: e.data,
        extensions: e.extensions,
    } =~= e);
}


proof fn lemma_bin_fold_wf(acc: Acc, hs: Seq<(Seq<u8>, Seq<u8>)>)
    requires
        crate::structured::acc_wf(acc),
        bin_fold(acc, hs) is Ok,
    ensures
        crate::structured::acc_wf(bin_fold(acc, hs)->Ok_0),
    decreases hs.len(),
{
    if hs.len() > 0 {
        let step = bin_step(acc, hs[0].0, hs[0].1);
        let acc2 = step->Ok_0;
        assert(crate::structured::acc_wf(acc2)) by {
            let ln = lower(hs[0].0);
            if !(ln == h_id() || ln == h_type() || ln == h_source() || ln == h_time() || ln
                == h_content_type()) && ln.len() >= 3 && ln.subrange(0, 3) == h_prefix() {
                let ext = ln.subrange(3, ln.len() as int);
                assert(acc2.extensions == acc.extensions.push((ext, hs[0].1)));
                assert forall|i: int, j: int| 0 <= i < j < acc2.extensions.len() implies #[trigger] acc2.extensions[i].0 != #[trigger] acc2.extensions[j].0 by {
                    if j == acc.extensions.len() {
                        assert(!ext_has_key(acc.extensions, ext));
                        assert(acc2.extensions[i].0 == acc.extensions[i].0);
                    }
                }
            }
        }
        lemma_bin_fold_wf(acc2, hs.subrange(1, hs.len() as int));
    }
}

/// Whatever decodes successfully in binary mode is well formed, and its
/// payload, if any, is not empty.
pub proof fn lemma_decode_binary_wf(hs: Seq<(Seq<u8>, Seq<u8>)>, body: Seq<u8>)
    requires
        spec_decode_binary(hs, body) is Ok,
    ensures
        wf_event(spec_decode_binary(hs, body)->Ok_0),
        spec_decode_binary(hs, body)->Ok_0.data != Some(Seq::<u8>::empty()),
{
    assert(crate::structured::acc_wf(acc_empty()));
    lemma_bin_fold_wf(acc_empty(), hs);
    let m = spec_decode_binary(hs, body)->Ok_0;
    match m.time {
        Some(t) => {
            assert(time::is_rfc3339(t));
        },
        None => {},
    }
    if body.len() > 0 {
        assert(m.data == Some(body));
    }
}

/// Echoing preserves the attributes in binary mode too: whatever a binary
/// message decodes to, re-encoding it and decoding again yields the same
/// event.
pub proof fn lemma_binary_echo_preserves(hs: Seq<(Seq<u8>, Seq<u8>)>, body: Seq<u8>)
    requires
        spec_decode_binary(hs, body) is Ok,
    ensures
        spec_decode_binary(
            bin_headers_of(spec_decode_binary(hs, body)->Ok_0),
            bin_body_of(spec_decode_binary(hs, body)->Ok_0),
        ) == spec_decode_binary(hs, body),
{
    lemma_decode_binary_wf(hs, body);
    lemma_binary_round_trip(spec_decode_binary(hs, body)->Ok_0);
}

} // verus!
