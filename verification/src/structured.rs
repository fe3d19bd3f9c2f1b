//! The structured wire mode: the whole event as one JSON object. Standard
//! attributes and extensions are carried as string members; the payload is
//! carried under `data` as a raw JSON value.

use vstd::prelude::*;
use crate::ascii;
use crate::event::{Event, EventModel, DecodeError, wf_event, is_attr_name, is_reserved_key};
use crate::event::{key_id, key_type, key_source, key_time, key_datacontenttype, key_data};
use crate::json::{escaped, json_value_exact, emit_string, parse_string_body, skip_ws, scan_value};
use crate::json::{is_ws, is_delim, parse_string_exec, skip_ws_exec, scan_value_exec};
use crate::json::{lemma_parse_escaped, lemma_psb_bounds, lemma_psb_reloc};
use crate::json::{lemma_scan_value_bounds, lemma_scan_value_reloc};
use crate::time;

verus! {

/// A member value of the event object: a string attribute, or the raw
/// bytes of the payload.
pub ghost enum JsonVal {
    Str(Seq<u8>),
    Raw(Seq<u8>),
}

/// Executable member value.
pub enum MemberVal {
    Str(Vec<u8>),
    Raw(Vec<u8>),
}

impl View for MemberVal {
    type V = JsonVal;

    open spec fn view(&self) -> JsonVal {
        match self {
            MemberVal::Str(v) => JsonVal::Str(v@),
            MemberVal::Raw(v) => JsonVal::Raw(v@),
        }
    }
}

pub open spec fn opt_member(key: Seq<u8>, v: Option<Seq<u8>>) -> Seq<(Seq<u8>, JsonVal)> {
    match v {
        Some(x) => seq![(key, JsonVal::Str(x))],
        None => Seq::empty(),
    }
}

pub open spec fn ext_members(exts: Seq<(Seq<u8>, Seq<u8>)>) -> Seq<(Seq<u8>, JsonVal)> {
    exts.map_values(|p: (Seq<u8>, Seq<u8>)| (p.0, JsonVal::Str(p.1)))
}

/// The members of the canonical structured encoding, in order: `id`,
/// `type`, `source`, then `time`, `datacontenttype` and `data` when
/// present, then the extensions.
pub open spec fn members_of(e: EventModel) -> Seq<(Seq<u8>, JsonVal)> {
    seq![
        (key_id(), JsonVal::Str(e.id)),
        (key_type(), JsonVal::Str(e.ty)),
        (key_source(), JsonVal::Str(e.source)),
    ] + opt_member(key_time(), e.time) + opt_member(key_datacontenttype(), e.datacontenttype) + (
    match e.data {
        Some(d) => seq![(key_data(), JsonVal::Raw(d))],
        None => Seq::empty(),
    }) + ext_members(e.extensions)
}

pub open spec fn enc_val(v: JsonVal) -> Seq<u8> {
    match v {
        JsonVal::Str(x) => seq![0x22u8] + escaped(x) + seq![0x22u8],
        JsonVal::Raw(x) => x,
    }
}

pub open spec fn enc_member(m: (Seq<u8>, JsonVal)) -> Seq<u8> {
    seq![0x22u8] + escaped(m.0) + seq![0x22u8, 0x3au8] + enc_val(m.1)
}

pub open spec fn enc_members(ms: Seq<(Seq<u8>, JsonVal)>) -> Seq<u8>
    decreases ms.len(),
{
    if ms.len() == 0 {
        Seq::empty()
    } else if ms.len() == 1 {
        enc_member(ms[0])
    } else {
        enc_member(ms[0]) + seq![0x2cu8] + enc_members(ms.subrange(1, ms.len() as int))
    }
}

/// The canonical structured encoding of an event.
pub open spec fn spec_encode_structured(e: EventModel) -> Seq<u8> {
    seq![0x7bu8] + enc_members(members_of(e)) + seq![0x7du8]
}

/// What the structured encoder accepts: a well-formed event whose payload,
/// if present, holds exactly one JSON value.
pub open spec fn structured_encodable(e: EventModel) -> bool {
    &&& wf_event(e)
    &&& match e.data {
        Some(d) => json_value_exact(d),
        None => true,
    }
}

pub proof fn lemma_enc_members_snoc(ms: Seq<(Seq<u8>, JsonVal)>, m: (Seq<u8>, JsonVal))
    requires
        ms.len() >= 1,
    ensures
        enc_members(ms.push(m)) == enc_members(ms) + seq![0x2cu8] + enc_member(m),
    decreases ms.len(),
{
    if ms.len() == 1 {
        assert(ms.push(m).subrange(1, 2) =~= seq![m]);
        assert(enc_members(seq![m]) == enc_member(m));
        assert(enc_members(ms.push(m)) == enc_member(ms[0]) + seq![0x2cu8] + enc_member(m));
        assert(enc_members(ms) == enc_member(ms[0]));
    } else {
        let tail = ms.subrange(1, ms.len() as int);
        lemma_enc_members_snoc(tail, m);
        assert(ms.push(m).subrange(1, ms.push(m).len() as int) =~= tail.push(m));
        assert(enc_member(ms[0]) + seq![0x2cu8] + (enc_members(tail) + seq![0x2cu8] + enc_member(
            m,
        )) =~= (enc_member(ms[0]) + seq![0x2cu8] + enc_members(tail)) + seq![0x2cu8] + enc_member(
            m,
        ));
    }
}

// ---------------------------------------------------------------------------
// Key constants.
// ---------------------------------------------------------------------------

pub fn key_id_vec() -> (r: Vec<u8>)
    ensures
        r@ == key_id(),
{
    let mut v: Vec<u8> = Vec::new();
    v.push(0x69);
    v.push(0x64);
    proof {
        assert(v@ =~= key_id());
    }
    v
}

pub fn key_type_vec() -> (r: Vec<u8>)
    ensures
        r@ == key_type(),
{
    let mut v: Vec<u8> = Vec::new();
    v.push(0x74);
    v.push(0x79);
    v.push(0x70);
    v.push(0x65);
    proof {
        assert(v@ =~= key_type());
    }
    v
}

pub fn key_source_vec() -> (r: Vec<u8>)
    ensures
        r@ == key_source(),
{
    let mut v: Vec<u8> = Vec::new();
    v.push(0x73);
    v.push(0x6f);
    v.push(0x75);
    v.push(0x72);
    v.push(0x63);
    v.push(0x65);
    proof {
        assert(v@ =~= key_source());
    }
    v
}

pub fn key_time_vec() -> (r: Vec<u8>)
    ensures
        r@ == key_time(),
{
    let mut v: Vec<u8> = Vec::new();
    v.push(0x74);
    v.push(0x69);
    v.push(0x6d);
    v.push(0x65);
    proof {
        assert(v@ =~= key_time());
    }
    v
}

pub fn key_datacontenttype_vec() -> (r: Vec<u8>)
    ensures
        r@ == key_datacontenttype(),
{
    let mut v: Vec<u8> = Vec::new();
    v.push(0x64);
    v.push(0x61);
    v.push(0x74);
    v.push(0x61);
    v.push(0x63);
    v.push(0x6f);
    v.push(0x6e);
    v.push(0x74);
    v.push(0x65);
    v.push(0x6e);
    v.push(0x74);
    v.push(0x74);
    v.push(0x79);
    v.push(0x70);
    v.push(0x65);
    proof {
        assert(v@ =~= key_datacontenttype());
    }
    v
}

pub fn key_data_vec() -> (r: Vec<u8>)
    ensures
        r@ == key_data(),
{
    let mut v: Vec<u8> = Vec::new();
    v.push(0x64);
    v.push(0x61);
    v.push(0x74);
    v.push(0x61);
    proof {
        assert(v@ =~= key_data());
    }
    v
}

// ---------------------------------------------------------------------------
// Encoding.
// ---------------------------------------------------------------------------

fn emit_str_member(out: &mut Vec<u8>, key: &[u8], val: &[u8], first: bool)
    ensures
        final(out)@ == old(out)@ + (if first {
            Seq::<u8>::empty()
        } else {
            seq![0x2cu8]
        }) + enc_member((key@, JsonVal::Str(val@))),
{
    if !first {
        out.push(0x2c);
    }
    emit_string(out, key);
    out.push(0x3a);
    emit_string(out, val);
    proof {
        assert(out@ =~= old(out)@ + (if first {
            Seq::<u8>::empty()
        } else {
            seq![0x2cu8]
        }) + enc_member((key@, JsonVal::Str(val@))));
    }
}

fn emit_raw_member(out: &mut Vec<u8>, key: &[u8], raw: &[u8], first: bool)
    ensures
        final(out)@ == old(out)@ + (if first {
            Seq::<u8>::empty()
        } else {
            seq![0x2cu8]
        }) + enc_member((key@, JsonVal::Raw(raw@))),
{
    if !first {
        out.push(0x2c);
    }
    emit_string(out, key);
    out.push(0x3a);
    ascii::append_bytes(out, raw);
    proof {
        assert(out@ =~= old(out)@ + (if first {
            Seq::<u8>::empty()
        } else {
            seq![0x2cu8]
        }) + enc_member((key@, JsonVal::Raw(raw@))));
    }
}

/// Encodes an event as one JSON object: the structured wire mode.
#[verifier::rlimit(100)]
pub fn encode_structured(e: &Event) -> (out: Vec<u8>)
    requires
        structured_encodable(e@),
    ensures
        out@ == spec_encode_structured(e@),
{
    let mut out: Vec<u8> = Vec::new();
    out.push(0x7b);
    let ghost mut ms: Seq<(Seq<u8>, JsonVal)> = Seq::empty();

    let kid = key_id_vec();
    emit_str_member(&mut out, kid.as_slice(), e.id.as_slice(), true);
    proof {
        ms = seq![(key_id(), JsonVal::Str(e@.id))];
        assert(out@ =~= seq![0x7bu8] + enc_members(ms));
    }

    let kty = key_type_vec();
    emit_str_member(&mut out, kty.as_slice(), e.ty.as_slice(), false);
    proof {
        lemma_enc_members_snoc(ms, (key_type(), JsonVal::Str(e@.ty)));
        ms = ms.push((key_type(), JsonVal::Str(e@.ty)));
        assert(out@ =~= seq![0x7bu8] + enc_members(ms));
    }

    let ksrc = key_source_vec();
    emit_str_member(&mut out, ksrc.as_slice(), e.source.as_slice(), false);
    proof {
        lemma_enc_members_snoc(ms, (key_source(), JsonVal::Str(e@.source)));
        ms = ms.push((key_source(), JsonVal::Str(e@.source)));
        assert(out@ =~= seq![0x7bu8] + enc_members(ms));
    }

    match &e.time {
        Some(t) => {
            let ktime = key_time_vec();
            emit_str_member(&mut out, ktime.as_slice(), t.as_slice(), false);
            proof {
                lemma_enc_members_snoc(ms, (key_time(), JsonVal::Str(t@)));
                ms = ms.push((key_time(), JsonVal::Str(t@)));
                assert(out@ =~= seq![0x7bu8] + enc_members(ms));
            }
        },
        None => {},
    }

    match &e.datacontenttype {
        Some(c) => {
            let kdct = key_datacontenttype_vec();
            emit_str_member(&mut out, kdct.as_slice(), c.as_slice(), false);
            proof {
                lemma_enc_members_snoc(ms, (key_datacontenttype(), JsonVal::Str(c@)));
                ms = ms.push((key_datacontenttype(), JsonVal::Str(c@)));
                assert(out@ =~= seq![0x7bu8] + enc_members(ms));
            }
        },
        None => {},
    }

    match &e.data {
        Some(d) => {
            let kdata = key_data_vec();
            emit_raw_member(&mut out, kdata.as_slice(), d.as_slice(), false);
            proof {
                lemma_enc_members_snoc(ms, (key_data(), JsonVal::Raw(d@)));
                ms = ms.push((key_data(), JsonVal::Raw(d@)));
                assert(out@ =~= seq![0x7bu8] + enc_members(ms));
            }
        },
        None => {},
    }

    let ghost ms_std = ms;
    proof {
        assert(ms =~= ms_std + ext_members(e@.extensions.subrange(0, 0)));
    }
    let mut x: usize = 0;
    while x < e.extensions.len()
        invariant
            x <= e.extensions@.len(),
            ms == ms_std + ext_members(e@.extensions.subrange(0, x as int)),
            ms.len() >= 1,
            out@ == seq![0x7bu8] + enc_members(ms),
        decreases e.extensions@.len() - x,
    {
        let name = &e.extensions[x].0;
        let value = &e.extensions[x].1;
        emit_str_member(&mut out, name.as_slice(), value.as_slice(), false);
        proof {
            let m = (name@, JsonVal::Str(value@));
            lemma_enc_members_snoc(ms, m);
            ms = ms.push(m);
            assert(ms =~= ms_std + ext_members(e@.extensions.subrange(0, x + 1)));
            assert(out@ =~= seq![0x7bu8] + enc_members(ms));
        }
        x = x + 1;
    }
    out.push(0x7d);
    proof {
        assert(e@.extensions.subrange(0, e@.extensions.len() as int) =~= e@.extensions);
        assert(ms =~= members_of(e@));
        assert(out@ =~= spec_encode_structured(e@));
    }
    out
}

// ---------------------------------------------------------------------------
// Parsing.
// ---------------------------------------------------------------------------

/// Parses one member at `i`: a string key, a colon, then a string value —
/// or, under the `data` key, one raw JSON value.
pub open spec fn parse_member(s: Seq<u8>, i: int) -> Option<((Seq<u8>, JsonVal), int)> {
    let k0 = skip_ws(s, i);
    if k0 < s.len() && s[k0] == 0x22 {
        match parse_string_body(s, k0 + 1) {
            None => None,
            Some((key, a)) => {
                let b = skip_ws(s, a);
                if b < s.len() && s[b] == 0x3a {
                    let c = skip_ws(s, b + 1);
                    if key == key_data() {
                        match scan_value(s, c) {
                            None => None,
                            Some(e) => Some(((key, JsonVal::Raw(s.subrange(c, e))), e)),
                        }
                    } else {
                        if c < s.len() && s[c] == 0x22 {
                            match parse_string_body(s, c + 1) {
                                None => None,
                                Some((v, e)) => Some(((key, JsonVal::Str(v)), e)),
                            }
                        } else {
                            None
                        }
                    }
                } else {
                    None
                }
            },
        }
    } else {
        None
    }
}

/// Parses members separated by commas, up to and including the closing
/// brace.
pub open spec fn parse_members(s: Seq<u8>, i: int) -> Option<(Seq<(Seq<u8>, JsonVal)>, int)>
    decreases s.len() - i,
{
    match parse_member(s, i) {
        None => None,
        Some((m, j)) => {
            let j2 = skip_ws(s, j);
            if j2 < i {
                None
            } else if j2 < s.len() && s[j2] == 0x2c {
                match parse_members(s, j2 + 1) {
                    None => None,
                    Some((ms, end)) => Some((seq![m] + ms, end)),
                }
            } else if j2 < s.len() && s[j2] == 0x7d {
                Some((seq![m], j2 + 1))
            } else {
                None
            }
        },
    }
}

/// Parses a whole document: one JSON object, with nothing but whitespace
/// around it.
pub open spec fn parse_object(s: Seq<u8>) -> Option<Seq<(Seq<u8>, JsonVal)>> {
    let i = skip_ws(s, 0);
    if i < s.len() && s[i] == 0x7b {
        let j = skip_ws(s, i + 1);
        if j < s.len() && s[j] == 0x7d {
            if skip_ws(s, j + 1) == s.len() {
                Some(Seq::empty())
            } else {
                None
            }
        } else {
            match parse_members(s, i + 1) {
                None => None,
                Some((ms, end)) => if skip_ws(s, end) == s.len() {
                    Some(ms)
                } else {
                    None
                },
            }
        }
    } else {
        None
    }
}

/// Decode state: which attributes have been seen so far.
pub ghost struct Acc {
    pub id: Option<Seq<u8>>,
    pub ty: Option<Seq<u8>>,
    pub source: Option<Seq<u8>>,
    pub time: Option<Seq<u8>>,
    pub datacontenttype: Option<Seq<u8>>,
    pub data: Option<Seq<u8>>,
    pub extensions: Seq<(Seq<u8>, Seq<u8>)>,
}

pub open spec fn acc_empty() -> Acc {
    Acc {
        id: None,
        ty: None,
        source: None,
        time: None,
        datacontenttype: None,
        data: None,
        extensions: Seq::empty(),
    }
}

pub open spec fn ext_has_key(exts: Seq<(Seq<u8>, Seq<u8>)>, k: Seq<u8>) -> bool {
    exists|i: int| 0 <= i < exts.len() && exts[i].0 == k
}

/// Applies one member to the decode state: a standard attribute must be a
/// string and appear once; any other key is an extension, whose name must
/// be well formed and fresh.
pub open spec fn interp_step(acc: Acc, m: (Seq<u8>, JsonVal)) -> Result<Acc, DecodeError> {
    let key = m.0;
    if key == key_id() {
        match m.1 {
            JsonVal::Str(x) => if acc.id is Some {
                Err(DecodeError::DuplicateAttribute)
            } else {
                Ok(Acc { id: Some(x), ..acc })
            },
            JsonVal::Raw(_) => Err(DecodeError::Malformed),
        }
    } else if key == key_type() {
        match m.1 {
            JsonVal::Str(x) => if acc.ty is Some {
                Err(DecodeError::DuplicateAttribute)
            } else {
                Ok(Acc { ty: Some(x), ..acc })
            },
            JsonVal::Raw(_) => Err(DecodeError::Malformed),
        }
    } else if key == key_source() {
        match m.1 {
            JsonVal::Str(x) => if acc.source is Some {
                Err(DecodeError::DuplicateAttribute)
            } else {
                Ok(Acc { source: Some(x), ..acc })
            },
            JsonVal::Raw(_) => Err(DecodeError::Malformed),
        }
    } else if key == key_time() {
        match m.1 {
            JsonVal::Str(x) => if acc.time is Some {
                Err(DecodeError::DuplicateAttribute)
            } else {
                Ok(Acc { time: Some(x), ..acc })
            },
            JsonVal::Raw(_) => Err(DecodeError::Malformed),
        }
    } else if key == key_datacontenttype() {
        match m.1 {
            JsonVal::Str(x) => if acc.datacontenttype is Some {
                Err(DecodeError::DuplicateAttribute)
            } else {
                Ok(Acc { datacontenttype: Some(x), ..acc })
            },
            JsonVal::Raw(_) => Err(DecodeError::Malformed),
        }
    } else if key == key_data() {
        match m.1 {
            JsonVal::Raw(x) => if acc.data is Some {
                Err(DecodeError::DuplicateAttribute)
            } else {
                Ok(Acc { data: Some(x), ..acc })
            },
            JsonVal::Str(_) => Err(DecodeError::Malformed),
        }
    } else {
        if !is_attr_name(key) {
            Err(DecodeError::Malformed)
        } else if ext_has_key(acc.extensions, key) {
            Err(DecodeError::DuplicateAttribute)
        } else {
            match m.1 {
                JsonVal::Str(x) => Ok(Acc { extensions: acc.extensions.push((key, x)), ..acc }),
                JsonVal::Raw(_) => Err(DecodeError::Malformed),
            }
        }
    }
}

pub open spec fn interp_fold(acc: Acc, ms: Seq<(Seq<u8>, JsonVal)>) -> Result<Acc, DecodeError>
    decreases ms.len(),
{
    if ms.len() == 0 {
        Ok(acc)
    } else {
        match interp_step(acc, ms[0]) {
            Err(e) => Err(e),
            Ok(a2) => interp_fold(a2, ms.subrange(1, ms.len() as int)),
        }
    }
}

/// Closes the decode: the three required attributes must be present and
/// the timestamp, if any, must be an RFC 3339 date-time.
pub open spec fn interp_finish(acc: Acc) -> Result<EventModel, DecodeError> {
    if acc.id is None {
        Err(DecodeError::MissingId)
    } else if acc.ty is None {
        Err(DecodeError::MissingType)
    } else if acc.source is None {
        Err(DecodeError::MissingSource)
    } else if match acc.time {
        Some(t) => !time::is_rfc3339(t),
        None => false,
    } {
        Err(DecodeError::MalformedTime)
    } else {
        Ok(
            EventModel {
                id: acc.id->Some_0,
                ty: acc.ty->Some_0,
                source: acc.source->Some_0,
                time: acc.time,
                datacontenttype: acc.datacontenttype,
                data: acc.data,
                extensions: acc.extensions,
            },
        )
    }
}

/// What decoding a structured-mode body yields: the event, or the error
/// that names what is wrong with the message.
pub open spec fn spec_decode_structured(s: Seq<u8>) -> Result<EventModel, DecodeError> {
    match parse_object(s) {
        None => Err(DecodeError::Malformed),
        Some(ms) => match interp_fold(acc_empty(), ms) {
            Err(e) => Err(e),
            Ok(acc) => interp_finish(acc),
        },
    }
}

// ---------------------------------------------------------------------------
// Executable decoding.
// ---------------------------------------------------------------------------

/// The model of an executable member list.
pub open spec fn members_view(v: Seq<(Vec<u8>, MemberVal)>) -> Seq<(Seq<u8>, JsonVal)> {
    v.map_values(|p: (Vec<u8>, MemberVal)| (p.0@, p.1@))
}

/// The model of an executable extension list.
pub open spec fn exts_view(v: Seq<(Vec<u8>, Vec<u8>)>) -> Seq<(Seq<u8>, Seq<u8>)> {
    v.map_values(|p: (Vec<u8>, Vec<u8>)| (p.0@, p.1@))
}

fn parse_member_exec(s: &[u8], start: usize) -> (r: Option<((Vec<u8>, MemberVal), usize)>)
    requires
        start <= s@.len(),
    ensures
        match r {
            Some((m, j)) => parse_member(s@, start as int) == Some(((m.0@, m.1@), j as int))
                && start < j <= s@.len(),
            None => parse_member(s@, start as int) is None,
        },
{
    let n = s.len();
    let k0 = skip_ws_exec(s, start);
    if k0 >= n || s[k0] != 0x22 {
        return None;
    }
    let (key, a) = match parse_string_exec(s, k0 + 1) {
        Some(p) => p,
        None => { return None; },
    };
    let b = skip_ws_exec(s, a);
    if b >= n || s[b] != 0x3a {
        return None;
    }
    let c = skip_ws_exec(s, b + 1);
    let kdata = key_data_vec();
    if ascii::bytes_eq(key.as_slice(), kdata.as_slice()) {
        match scan_value_exec(s, c) {
            Some(e) => {
                let raw = vstd::slice::slice_to_vec(vstd::slice::slice_subrange(s, c, e));
                Some(((key, MemberVal::Raw(raw)), e))
            },
            None => None,
        }
    } else {
        if c >= n || s[c] != 0x22 {
            return None;
        }
        match parse_string_exec(s, c + 1) {
            Some((v, e)) => Some(((key, MemberVal::Str(v)), e)),
            None => None,
        }
    }
}

pub open spec fn lift_members(a: Seq<(Seq<u8>, JsonVal)>, r: Option<(Seq<(Seq<u8>, JsonVal)>, int)>)
    -> Option<(Seq<(Seq<u8>, JsonVal)>, int)> {
    match r {
        Some((ms, j)) => Some((a + ms, j)),
        None => None,
    }
}

fn parse_members_exec(s: &[u8], start: usize) -> (r: Option<(Vec<(Vec<u8>, MemberVal)>, usize)>)
    requires
        start <= s@.len(),
    ensures
        match r {
            Some((ms, j)) => parse_members(s@, start as int) == Some((members_view(ms@), j as int))
                && j <= s@.len(),
            None => parse_members(s@, start as int) is None,
        },
{
    let n = s.len();
    let mut acc: Vec<(Vec<u8>, MemberVal)> = Vec::new();
    let mut i: usize = start;
    proof {
        assert(members_view(acc@) =~= Seq::<(Seq<u8>, JsonVal)>::empty());
        let r0 = parse_members(s@, start as int);
        if r0 is Some {
            assert(Seq::<(Seq<u8>, JsonVal)>::empty() + r0->Some_0.0 =~= r0->Some_0.0);
        }
    }
    loop
        invariant
            start <= i <= n,
            n == s@.len(),
            parse_members(s@, start as int) == lift_members(
                members_view(acc@),
                parse_members(s@, i as int),
            ),
        decreases n - i,
    {
        let (m, j) = match parse_member_exec(s, i) {
            Some(p) => p,
            None => { return None; },
        };
        let j2 = skip_ws_exec(s, j);
        let ghost gm = (m.0@, m.1@);
        if j2 >= n {
            return None;
        }
        let sep = s[j2];
        if sep == 0x2c {
            proof {
                assert(parse_members(s@, i as int) == (match parse_members(s@, j2 + 1) {
                    None => None,
                    Some((ms, end)) => Some((seq![gm] + ms, end)),
                }));
                assert(members_view(acc@.push(m))
                    =~= members_view(acc@).push(gm)) by {
                    assert(forall|q: Seq<(Vec<u8>, MemberVal)>, k: int|
                        0 <= k < q.len() ==> #[trigger] members_view(q)[k] == (q[k].0@, q[k].1@));
                }
                lemma_lift_members_push(members_view(acc@), gm, parse_members(s@, j2 + 1));
            }
            acc.push(m);
            i = j2 + 1;
        } else if sep == 0x7d {
            proof {
                assert(parse_members(s@, i as int) == Some((seq![gm], j2 + 1)));
                assert(members_view(acc@.push(m)) =~= members_view(acc@) + seq![gm]) by {
                    assert(forall|q: Seq<(Vec<u8>, MemberVal)>, k: int|
                        0 <= k < q.len() ==> #[trigger] members_view(q)[k] == (q[k].0@, q[k].1@));
                }
            }
            acc.push(m);
            return Some((acc, j2 + 1));
        } else {
            return None;
        }
    }
}

proof fn lemma_lift_members_push(
    a: Seq<(Seq<u8>, JsonVal)>,
    m: (Seq<u8>, JsonVal),
    r: Option<(Seq<(Seq<u8>, JsonVal)>, int)>,
)
    ensures
        lift_members(a, match r {
            None => None,
            Some((ms, end)) => Some((seq![m] + ms, end)),
        }) == lift_members(a.push(m), r),
{
    match r {
        Some((ms, end)) => {
            assert(a + (seq![m] + ms) =~= a.push(m) + ms);
        },
        None => {},
    }
}

fn parse_object_exec(s: &[u8]) -> (r: Option<Vec<(Vec<u8>, MemberVal)>>)
    ensures
        match r {
            Some(ms) => parse_object(s@) == Some(members_view(ms@)),
            None => parse_object(s@) is None,
        },
{
    let n = s.len();
    let i = skip_ws_exec(s, 0);
    if i >= n || s[i] != 0x7b {
        return None;
    }
    let j = skip_ws_exec(s, i + 1);
    if j < n && s[j] == 0x7d {
        if skip_ws_exec(s, j + 1) == n {
            let empty: Vec<(Vec<u8>, MemberVal)> = Vec::new();
            proof {
                assert(members_view(empty@) =~= Seq::<(Seq<u8>, JsonVal)>::empty());
            }
            Some(empty)
        } else {
            None
        }
    } else {
        match parse_members_exec(s, i + 1) {
            Some((ms, end)) => {
                if skip_ws_exec(s, end) == n {
                    Some(ms)
                } else {
                    None
                }
            },
            None => None,
        }
    }
}

pub(crate) fn find_ext(exts: &Vec<(Vec<u8>, Vec<u8>)>, key: &[u8]) -> (r: bool)
    ensures
        r == ext_has_key(exts_view(exts@), key@),
{
    let ghost m = exts_view(exts@);
    let mut i: usize = 0;
    while i < exts.len()
        invariant
            i <= exts@.len(),
            m == exts_view(exts@),
            forall|k: int| 0 <= k < i ==> m[k].0 != key@,
        decreases exts@.len() - i,
    {
        if ascii::bytes_eq(exts[i].0.as_slice(), key) {
            assert(m[i as int].0 == key@);
            return true;
        }
        i = i + 1;
    }
    false
}

pub(crate) fn is_attr_name_exec(s: &[u8]) -> (r: bool)
    ensures
        r == is_attr_name(s@),
{
    if s.len() == 0 {
        return false;
    }
    let mut i: usize = 0;
    while i < s.len()
        invariant
            i <= s@.len(),
            forall|k: int| 0 <= k < i ==> crate::event::is_attr_name_byte(s@[k]),
        decreases s@.len() - i,
    {
        let b = s[i];
        if !((0x61 <= b && b <= 0x7a) || (0x30 <= b && b <= 0x39)) {
            assert(!crate::event::is_attr_name_byte(s@[i as int]));
            return false;
        }
        i = i + 1;
    }
    true
}

/// Decodes a structured-mode body into an event, or reports what is wrong
/// with it.
pub fn decode_structured(body: &[u8]) -> (r: Result<Event, DecodeError>)
    ensures
        match r {
            Ok(ev) => spec_decode_structured(body@) == Ok::<EventModel, DecodeError>(ev@),
            Err(e) => spec_decode_structured(body@) == Err::<EventModel, DecodeError>(e),
        },
{
    let mut ms = match parse_object_exec(body) {
        Some(ms) => ms,
        None => { return Err(DecodeError::Malformed); },
    };
    let ghost all = members_view(ms@);
    let mut id: Option<Vec<u8>> = None;
    let mut ty: Option<Vec<u8>> = None;
    let mut source: Option<Vec<u8>> = None;
    let mut tm: Option<Vec<u8>> = None;
    let mut dct: Option<Vec<u8>> = None;
    let mut data: Option<Vec<u8>> = None;
    let mut exts: Vec<(Vec<u8>, Vec<u8>)> = Vec::new();
    let kid = key_id_vec();
    let kty = key_type_vec();
    let ksrc = key_source_vec();
    let ktime = key_time_vec();
    let kdct = key_datacontenttype_vec();
    let kdata = key_data_vec();
    let ghost acc0 = acc_empty();
    proof {
        assert(opt_view(id) == acc0.id && opt_view(ty) == acc0.ty && opt_view(source)
            == acc0.source && opt_view(tm) == acc0.time && opt_view(dct) == acc0.datacontenttype
            && opt_view(data) == acc0.data);
        assert(exts_view(exts@) =~= acc0.extensions);
    }
    let mut k: usize = 0;
    proof {
        assert(all.subrange(0, all.len() as int) =~= all);
    }
    while k < ms.len()
        invariant
            k <= ms@.len(),
            all == members_view(ms@),
            parse_object(body@) == Some(all),
            interp_fold(acc_empty(), all) == interp_fold(
                Acc {
                    id: opt_view(id),
                    ty: opt_view(ty),
                    source: opt_view(source),
                    time: opt_view(tm),
                    datacontenttype: opt_view(dct),
                    data: opt_view(data),
                    extensions: exts_view(exts@),
                },
                all.subrange(k as int, all.len() as int),
            ),
            kid@ == key_id() && kty@ == key_type() && ksrc@ == key_source() && ktime@ == key_time()
                && kdct@ == key_datacontenttype() && kdata@ == key_data(),
        decreases ms@.len() - k,
    {
        let ghost acc_cur = Acc {
            id: opt_view(id),
            ty: opt_view(ty),
            source: opt_view(source),
            time: opt_view(tm),
            datacontenttype: opt_view(dct),
            data: opt_view(data),
            extensions: exts_view(exts@),
        };
        let ghost mm = all[k as int];
        proof {
            assert(members_view(ms@)[k as int] == (ms@[k as int].0@, ms@[k as int].1@));
            assert(all.subrange(k as int, all.len() as int)[0] == mm);
            assert(all.subrange(k as int, all.len() as int).subrange(
                1,
                all.len() - k,
            ) =~= all.subrange(k + 1, all.len() as int));
        }
        let (key, val) = &ms[k];
        let step_err: Option<DecodeError> = if ascii::bytes_eq(key.as_slice(), kid.as_slice()) {
            match val {
                MemberVal::Str(x) => {
                    if id.is_some() {
                        Some(DecodeError::DuplicateAttribute)
                    } else {
                        id = Some(ascii::copy_bytes(x.as_slice()));
                        None
                    }
                },
                MemberVal::Raw(_) => Some(DecodeError::Malformed),
            }
        } else if ascii::bytes_eq(key.as_slice(), kty.as_slice()) {
            match val {
                MemberVal::Str(x) => {
                    if ty.is_some() {
                        Some(DecodeError::DuplicateAttribute)
                    } else {
                        ty = Some(ascii::copy_bytes(x.as_slice()));
                        None
                    }
                },
                MemberVal::Raw(_) => Some(DecodeError::Malformed),
            }
        } else if ascii::bytes_eq(key.as_slice(), ksrc.as_slice()) {
            match val {
                MemberVal::Str(x) => {
                    if source.is_some() {
                        Some(DecodeError::DuplicateAttribute)
                    } else {
                        source = Some(ascii::copy_bytes(x.as_slice()));
                        None
                    }
                },
                MemberVal::Raw(_) => Some(DecodeError::Malformed),
            }
        } else if ascii::bytes_eq(key.as_slice(), ktime.as_slice()) {
            match val {
                MemberVal::Str(x) => {
                    if tm.is_some() {
                        Some(DecodeError::DuplicateAttribute)
                    } else {
                        tm = Some(ascii::copy_bytes(x.as_slice()));
                        None
                    }
                },
                MemberVal::Raw(_) => Some(DecodeError::Malformed),
            }
        } else if ascii::bytes_eq(key.as_slice(), kdct.as_slice()) {
            match val {
                MemberVal::Str(x) => {
                    if dct.is_some() {
                        Some(DecodeError::DuplicateAttribute)
                    } else {
                        dct = Some(ascii::copy_bytes(x.as_slice()));
                        None
                    }
                },
                MemberVal::Raw(_) => Some(DecodeError::Malformed),
            }
        } else if ascii::bytes_eq(key.as_slice(), kdata.as_slice()) {
            match val {
                MemberVal::Raw(x) => {
                    if data.is_some() {
                        Some(DecodeError::DuplicateAttribute)
                    } else {
                        data = Some(ascii::copy_bytes(x.as_slice()));
                        None
                    }
                },
                MemberVal::Str(_) => Some(DecodeError::Malformed),
            }
        } else {
            if !is_attr_name_exec(key.as_slice()) {
                Some(DecodeError::Malformed)
            } else if find_ext(&exts, key.as_slice()) {
                Some(DecodeError::DuplicateAttribute)
            } else {
                match val {
                    MemberVal::Str(x) => {
                        let ghost pre = exts@;
                        exts.push(
                            (ascii::copy_bytes(key.as_slice()), ascii::copy_bytes(x.as_slice())),
                        );
                        proof {
                            assert(exts_view(exts@)
                                =~= exts_view(pre).push(
                                (mm.0, mm.1->Str_0),
                            ));
                        }
                        None
                    },
                    MemberVal::Raw(_) => Some(DecodeError::Malformed),
                }
            }
        };
        match step_err {
            Some(e) => {
                proof {
                    assert(interp_step(acc_cur, mm) == Err::<Acc, DecodeError>(e));
                }
                return Err(e);
            },
            None => {
                proof {
                    let acc_new = Acc {
                        id: opt_view(id),
                        ty: opt_view(ty),
                        source: opt_view(source),
                        time: opt_view(tm),
                        datacontenttype: opt_view(dct),
                        data: opt_view(data),
                        extensions: exts_view(exts@),
                    };
                    assert(interp_step(acc_cur, mm) == Ok::<Acc, DecodeError>(acc_new));
                }
            },
        }
        k = k + 1;
    }
    proof {
        assert(all.subrange(all.len() as int, all.len() as int) =~= Seq::<(Seq<u8>,
            JsonVal)>::empty());
    }
    let idv = match id {
        Some(x) => x,
        None => { return Err(DecodeError::MissingId); },
    };
    let tyv = match ty {
        Some(x) => x,
        None => { return Err(DecodeError::MissingType); },
    };
    let srcv = match source {
        Some(x) => x,
        None => { return Err(DecodeError::MissingSource); },
    };
    match &tm {
        Some(t) => {
            if !time::check_rfc3339(t.as_slice()) {
                return Err(DecodeError::MalformedTime);
            }
        },
        None => {},
    }
    let ev = Event {
        id: idv,
        ty: tyv,
        source: srcv,
        time: tm,
        datacontenttype: dct,
        data,
        extensions: exts,
    };
    proof {
        assert(ev@.extensions =~= exts_view(ev.extensions@));
    }
    Ok(ev)
}

/// The model of an optional byte string.
pub open spec fn opt_view(v: Option<Vec<u8>>) -> Option<Seq<u8>> {
    match v {
        Some(x) => Some(x@),
        None => None,
    }
}


// ---------------------------------------------------------------------------
// The round trip: decoding the canonical encoding of a valid event gives
// the event back.
// ---------------------------------------------------------------------------

/// A member as the canonical encoder produces it: raw exactly under the
/// `data` key, and then holding exactly one JSON value.
pub open spec fn member_canonical(m: (Seq<u8>, JsonVal)) -> bool {
    &&& (m.1 is Raw <==> m.0 == key_data())
    &&& (m.1 is Raw ==> json_value_exact(m.1->Raw_0))
}

pub proof fn lemma_value_start_not_ws(d: Seq<u8>)
    requires
        json_value_exact(d),
    ensures
        d.len() > 0 && !is_ws(d[0]),
{
    if !(d[0] == 0x22 || d[0] == 0x7b || d[0] == 0x5b) {
        crate::json::lemma_scan_bare_props(d, 0);
    }
}

/// Parsing the canonical encoding of one member, at any position, yields
/// the member back.
#[verifier::rlimit(100)]
pub proof fn lemma_parse_canonical_member(u: Seq<u8>, m: (Seq<u8>, JsonVal), rest: Seq<u8>)
    requires
        member_canonical(m),
        rest.len() > 0,
        rest[0] == 0x2c || rest[0] == 0x7d,
    ensures
        parse_member(u + enc_member(m) + rest, u.len() as int) == Some(
            (m, u.len() + enc_member(m).len() as int),
        ),
{
    let doc = u + enc_member(m) + rest;
    let p = u.len() as int;
    let k = m.0;
    let ek = escaped(k);
    let tail = seq![0x3au8] + enc_val(m.1) + rest;
    let w = ek + seq![0x22u8] + tail;
    assert(doc =~= u + seq![0x22u8] + w);
    assert(doc[p] == 0x22);
    assert(skip_ws(doc, p) == p);
    lemma_parse_escaped(k, tail);
    lemma_psb_bounds(w, 0);
    assert forall|q: int| 0 <= q < parse_string_body(w, 0)->Some_0.1 implies doc[q + (p + 1)]
        == w[q] by {
        assert(doc[p + 1 + q] == w[q]);
    }
    lemma_psb_reloc(w, doc, 0, p + 1);
    assert(parse_string_body(doc, p + 1) == Some((k, p + 2 + ek.len() as int)));
    let a = p + 2 + ek.len() as int;
    assert(doc[a] == 0x3a);
    assert(skip_ws(doc, a) == a);
    let c = a + 1;
    match m.1 {
        JsonVal::Str(x) => {
            let ex = escaped(x);
            let w2 = ex + seq![0x22u8] + rest;
            assert(doc =~= u + seq![0x22u8] + ek + seq![0x22u8, 0x3au8, 0x22u8] + w2);
            assert(doc[c] == 0x22);
            assert(skip_ws(doc, c) == c);
            lemma_parse_escaped(x, rest);
            lemma_psb_bounds(w2, 0);
            assert forall|q: int| 0 <= q < parse_string_body(w2, 0)->Some_0.1 implies doc[q + (c
                + 1)] == w2[q] by {
                assert(doc[c + 1 + q] == w2[q]);
            }
            lemma_psb_reloc(w2, doc, 0, c + 1);
            assert(parse_string_body(doc, c + 1) == Some((x, c + 2 + ex.len() as int)));
            assert(k != key_data());
            assert(c + 2 + ex.len() == p + enc_member(m).len());
            assert(parse_member(doc, p) == Some(((k, JsonVal::Str(x)), p + enc_member(
                m,
            ).len() as int)));
        },
        JsonVal::Raw(d) => {
            lemma_value_start_not_ws(d);
            assert(doc =~= u + seq![0x22u8] + ek + seq![0x22u8, 0x3au8] + d + rest);
            assert(doc[c] == d[0]);
            assert(skip_ws(doc, c) == c);
            assert forall|q: int| 0 <= q < d.len() implies doc[q + c] == d[q] by {
                assert(doc[c + q] == d[q]);
            }
            assert(doc[c + d.len()] == rest[0]);
            assert(is_delim(doc[c + d.len()]));
            lemma_scan_value_reloc(d, doc, 0, c);
            assert(scan_value(doc, c) == Some(c + d.len() as int));
            assert(doc.subrange(c, c + d.len()) == d);
            assert(k == key_data());
            assert(c + d.len() == p + enc_member(m).len());
            assert(parse_member(doc, p) == Some(((k, JsonVal::Raw(d)), p + enc_member(
                m,
            ).len() as int)));
        },
    }
}

/// Parsing the canonical encoding of a member list, followed by the
/// closing brace, yields the list back.
pub proof fn lemma_parse_canonical_members(u: Seq<u8>, ms: Seq<(Seq<u8>, JsonVal)>)
    requires
        ms.len() >= 1,
        forall|i: int| 0 <= i < ms.len() ==> member_canonical(#[trigger] ms[i]),
    ensures
        parse_members(u + enc_members(ms) + seq![0x7du8], u.len() as int) == Some(
            (ms, u.len() + enc_members(ms).len() + 1int),
        ),
    decreases ms.len(),
{
    let doc = u + enc_members(ms) + seq![0x7du8];
    let p = u.len() as int;
    let m0 = ms[0];
    if ms.len() == 1 {
        assert(enc_members(ms) == enc_member(m0));
        assert(doc =~= u + enc_member(m0) + seq![0x7du8]);
        lemma_parse_canonical_member(u, m0, seq![0x7du8]);
        let q = p + enc_member(m0).len() as int;
        assert(doc[q] == 0x7d);
        assert(skip_ws(doc, q) == q);
        assert(parse_members(doc, p) == Some((seq![m0], q + 1)));
        assert(seq![m0] =~= ms);
    } else {
        let tail = ms.subrange(1, ms.len() as int);
        assert(enc_members(ms) == enc_member(m0) + seq![0x2cu8] + enc_members(tail));
        let rest = seq![0x2cu8] + enc_members(tail) + seq![0x7du8];
        assert(doc =~= u + enc_member(m0) + rest);
        lemma_parse_canonical_member(u, m0, rest);
        let q = p + enc_member(m0).len() as int;
        assert(doc[q] == 0x2c);
        assert(skip_ws(doc, q) == q);
        let u2 = u + enc_member(m0) + seq![0x2cu8];
        assert(doc =~= u2 + enc_members(tail) + seq![0x7du8]);
        assert(forall|i: int| 0 <= i < tail.len() ==> member_canonical(#[trigger] tail[i]));
        lemma_parse_canonical_members(u2, tail);
        assert(u2.len() == q + 1);
        assert(parse_members(doc, q + 1) == Some(
            (tail, q + 1 + enc_members(tail).len() + 1int),
        ));
        assert(parse_members(doc, p) == Some(
            (seq![m0] + tail, u.len() + enc_members(ms).len() + 1int),
        ));
        assert(seq![m0] + tail =~= ms);
    }
}

/// Folding a concatenation folds the two parts in turn.
pub proof fn lemma_interp_append(acc: Acc, a: Seq<(Seq<u8>, JsonVal)>, b: Seq<(Seq<u8>, JsonVal)>)
    ensures
        interp_fold(acc, a + b) == (match interp_fold(acc, a) {
            Ok(acc2) => interp_fold(acc2, b),
            Err(e) => Err(e),
        }),
    decreases a.len(),
{
    if a.len() == 0 {
        assert(a + b =~= b);
    } else {
        let ab = a + b;
        assert(ab[0] == a[0]);
        match interp_step(acc, a[0]) {
            Err(_) => {},
            Ok(a2) => {
                lemma_interp_append(a2, a.subrange(1, a.len() as int), b);
                assert(ab.subrange(1, ab.len() as int) =~= a.subrange(1, a.len() as int) + b);
            },
        }
    }
}

/// The six standard attribute names are pairwise distinct.
pub proof fn lemma_keys_distinct()
    ensures
        key_id() != key_type(),
        key_id() != key_source(),
        key_id() != key_time(),
        key_id() != key_datacontenttype(),
        key_id() != key_data(),
        key_type() != key_source(),
        key_type() != key_time(),
        key_type() != key_datacontenttype(),
        key_type() != key_data(),
        key_source() != key_time(),
        key_source() != key_datacontenttype(),
        key_source() != key_data(),
        key_time() != key_datacontenttype(),
        key_time() != key_data(),
        key_datacontenttype() != key_data(),
{
    assert(key_id().len() == 2 && key_type().len() == 4 && key_source().len() == 6 && key_time().len()
        == 4 && key_datacontenttype().len() == 15 && key_data().len() == 4);
    assert(key_type()[1] == 0x79 && key_time()[1] == 0x69 && key_data()[1] == 0x61);
}

/// Folding well-formed extension members appends them, in order.
pub proof fn lemma_interp_exts(acc: Acc, exts: Seq<(Seq<u8>, Seq<u8>)>)
    requires
        forall|i: int|
            0 <= i < exts.len() ==> is_attr_name(#[trigger] exts[i].0) && !is_reserved_key(
                exts[i].0,
            ) && !ext_has_key(acc.extensions, exts[i].0),
        forall|i: int, j: int|
            0 <= i < j < exts.len() ==> #[trigger] exts[i].0 != #[trigger] exts[j].0,
    ensures
        interp_fold(acc, ext_members(exts)) == Ok::<Acc, DecodeError>(
            Acc { extensions: acc.extensions + exts, ..acc },
        ),
    decreases exts.len(),
{
    if exts.len() == 0 {
        assert(ext_members(exts) =~= Seq::<(Seq<u8>, JsonVal)>::empty());
        assert(acc.extensions + exts =~= acc.extensions);
        assert(Acc { extensions: acc.extensions + exts, ..acc } == acc);
    } else {
        let x0 = exts[0];
        let m0 = (x0.0, JsonVal::Str(x0.1));
        assert(ext_members(exts)[0] == m0);
        assert(!is_reserved_key(x0.0));
        let acc2 = Acc { extensions: acc.extensions.push((x0.0, x0.1)), ..acc };
        assert(interp_step(acc, m0) == Ok::<Acc, DecodeError>(acc2));
        let tail = exts.subrange(1, exts.len() as int);
        assert forall|i: int| 0 <= i < tail.len() implies is_attr_name(#[trigger] tail[i].0)
            && !is_reserved_key(tail[i].0) && !ext_has_key(acc2.extensions, tail[i].0) by {
            assert(tail[i] == exts[i + 1]);
            assert(!ext_has_key(acc.extensions, exts[i + 1].0));
            assert(exts[0].0 != exts[i + 1].0);
            if ext_has_key(acc2.extensions, tail[i].0) {
                let w = choose|w: int|
                    0 <= w < acc2.extensions.len() && acc2.extensions[w].0 == tail[i].0;
                if w < acc.extensions.len() {
                    assert(acc.extensions[w].0 == tail[i].0);
                } else {
                    assert(acc2.extensions[w] == (x0.0, x0.1));
                }
            }
        }
        lemma_interp_exts(acc2, tail);
        assert(ext_members(exts).subrange(1, ext_members(exts).len() as int) =~= ext_members(
            tail,
        ));
        assert(acc2.extensions + tail =~= acc.extensions + exts);
        assert(Acc { extensions: acc2.extensions + tail, ..acc2 } == Acc {
            extensions: acc.extensions + exts,
            ..acc
        });
    }
}

/// Folding one member.
proof fn lemma_fold_single(acc: Acc, m: (Seq<u8>, JsonVal))
    requires
        interp_step(acc, m) is Ok,
    ensures
        interp_fold(acc, seq![m]) == Ok::<Acc, DecodeError>(interp_step(acc, m)->Ok_0),
{
    assert(seq![m].subrange(1, 1) =~= Seq::<(Seq<u8>, JsonVal)>::empty());
    assert(interp_fold(interp_step(acc, m)->Ok_0, Seq::<(Seq<u8>, JsonVal)>::empty())
        == Ok::<Acc, DecodeError>(interp_step(acc, m)->Ok_0));
}

/// Folding the canonical members of a well-formed event reconstructs every
/// attribute.
pub proof fn lemma_interp_canonical(e: EventModel)
    requires
        wf_event(e),
    ensures
        interp_fold(acc_empty(), members_of(e)) == Ok::<Acc, DecodeError>(
            Acc {
                id: Some(e.id),
                ty: Some(e.ty),
                source: Some(e.source),
                time: e.time,
                datacontenttype: e.datacontenttype,
                data: e.data,
                extensions: e.extensions,
            },
        ),
{
    lemma_keys_distinct();
    let a0 = acc_empty();
    let m1 = (key_id(), JsonVal::Str(e.id));
    let m2 = (key_type(), JsonVal::Str(e.ty));
    let m3 = (key_source(), JsonVal::Str(e.source));
    let std3 = seq![m1, m2, m3];
    let acc1 = Acc { id: Some(e.id), ..a0 };
    let acc2 = Acc { ty: Some(e.ty), ..acc1 };
    let acc3 = Acc { source: Some(e.source), ..acc2 };
    assert(interp_step(a0, m1) == Ok::<Acc, DecodeError>(acc1));
    assert(interp_step(acc1, m2) == Ok::<Acc, DecodeError>(acc2));
    assert(interp_step(acc2, m3) == Ok::<Acc, DecodeError>(acc3));
    lemma_fold_single(a0, m1);
    lemma_fold_single(acc1, m2);
    lemma_fold_single(acc2, m3);
    lemma_interp_append(acc1, seq![m2], seq![m3]);
    lemma_interp_append(a0, seq![m1], seq![m2] + seq![m3]);
    assert(std3 =~= seq![m1] + (seq![m2] + seq![m3]));
    assert(interp_fold(a0, std3) == Ok::<Acc, DecodeError>(acc3));

    let t_seg = opt_member(key_time(), e.time);
    let c_seg = opt_member(key_datacontenttype(), e.datacontenttype);
    let dmem = (match e.data {
        Some(d) => seq![(key_data(), JsonVal::Raw(d))],
        None => Seq::<(Seq<u8>, JsonVal)>::empty(),
    });
    let x_seg = ext_members(e.extensions);

    let acc_t = Acc { time: e.time, ..acc3 };
    assert(interp_fold(acc3, t_seg) == Ok::<Acc, DecodeError>(acc_t)) by {
        match e.time {
            Some(t) => {
                let m = (key_time(), JsonVal::Str(t));
                assert(t_seg =~= seq![m]);
                assert(interp_step(acc3, m) == Ok::<Acc, DecodeError>(acc_t));
                lemma_fold_single(acc3, m);
            },
            None => {
                assert(t_seg =~= Seq::<(Seq<u8>, JsonVal)>::empty());
                assert(acc_t == acc3);
            },
        }
    }
    let acc_c = Acc { datacontenttype: e.datacontenttype, ..acc_t };
    assert(interp_fold(acc_t, c_seg) == Ok::<Acc, DecodeError>(acc_c)) by {
        match e.datacontenttype {
            Some(c) => {
                let m = (key_datacontenttype(), JsonVal::Str(c));
                assert(c_seg =~= seq![m]);
                assert(interp_step(acc_t, m) == Ok::<Acc, DecodeError>(acc_c));
                lemma_fold_single(acc_t, m);
            },
            None => {
                assert(c_seg =~= Seq::<(Seq<u8>, JsonVal)>::empty());
                assert(acc_c == acc_t);
            },
        }
    }
    let acc_d = Acc { data: e.data, ..acc_c };
    assert(interp_fold(acc_c, dmem) == Ok::<Acc, DecodeError>(acc_d)) by {
        match e.data {
            Some(d) => {
                let m = (key_data(), JsonVal::Raw(d));
                assert(interp_step(acc_c, m) == Ok::<Acc, DecodeError>(acc_d));
                lemma_fold_single(acc_c, m);
            },
            None => {
                assert(dmem =~= Seq::<(Seq<u8>, JsonVal)>::empty());
                assert(acc_d == acc_c);
            },
        }
    }
    assert forall|i: int| 0 <= i < e.extensions.len() implies is_attr_name(
        #[trigger] e.extensions[i].0,
    ) && !is_reserved_key(e.extensions[i].0) && !ext_has_key(acc_d.extensions, e.extensions[i].0)
        by {
        assert(acc_d.extensions.len() == 0);
    }
    lemma_interp_exts(acc_d, e.extensions);
    let acc_x = Acc { extensions: acc_d.extensions + e.extensions, ..acc_d };
    assert(acc_d.extensions + e.extensions =~= e.extensions);
    lemma_interp_append(a0, std3 + t_seg + c_seg + dmem, x_seg);
    lemma_interp_append(a0, std3 + t_seg + c_seg, dmem);
    lemma_interp_append(a0, std3 + t_seg, c_seg);
    lemma_interp_append(a0, std3, t_seg);
    assert(members_of(e) == std3 + t_seg + c_seg + dmem + x_seg);
    assert(interp_fold(a0, members_of(e)) == Ok::<Acc, DecodeError>(acc_x));
    assert(acc_x == Acc {
        id: Some(e.id),
        ty: Some(e.ty),
        source: Some(e.source),
        time: e.time,
        datacontenttype: e.datacontenttype,
        data: e.data,
        extensions: e.extensions,
    });
}

/// The structured round trip: decoding the structured encoding of any
/// well-formed event yields an event with identical `id`, `type`,
/// `source`, `time`, `datacontenttype`, `data` and extension list.
pub proof fn lemma_structured_round_trip(e: EventModel)
    requires
        structured_encodable(e),
    ensures
        spec_decode_structured(spec_encode_structured(e)) == Ok::<EventModel, DecodeError>(e),
{
    lemma_keys_distinct();
    let ms = members_of(e);
    let doc = spec_encode_structured(e);
    assert(ms.len() >= 3);
    assert forall|i: int| 0 <= i < ms.len() implies member_canonical(#[trigger] ms[i]) by {
        let t_seg = opt_member(key_time(), e.time);
        let c_seg = opt_member(key_datacontenttype(), e.datacontenttype);
        if i < 3 {
        } else if i < 3 + t_seg.len() {
            assert(ms[i] == t_seg[i - 3]);
        } else if i < 3 + t_seg.len() + c_seg.len() {
            assert(ms[i] == c_seg[i - 3 - t_seg.len()]);
        } else if e.data is Some && i == 3 + t_seg.len() + c_seg.len() {
            assert(ms[i] == (key_data(), JsonVal::Raw(e.data->Some_0)));
        } else {
            let base = 3 + t_seg.len() + (c_seg.len() as int) + (match e.data {
                Some(_) => 1int,
                None => 0int,
            });
            assert(ms[i] == ext_members(e.extensions)[i - base]);
            assert(ms[i].0 == e.extensions[i - base].0);
            assert(!is_reserved_key(e.extensions[i - base].0));
        }
    }
    let u = seq![0x7bu8];
    assert(doc =~= u + enc_members(ms) + seq![0x7du8]);
    lemma_parse_canonical_members(u, ms);
    assert(parse_members(doc, 1) == Some((ms, doc.len() as int)));
    assert(doc[0] == 0x7b);
    assert(skip_ws(doc, 0) == 0);
    assert(enc_members(ms)[0] == enc_member(ms[0])[0]);
    assert(doc[1] == 0x22);
    assert(skip_ws(doc, 1) == 1);
    assert(skip_ws(doc, doc.len() as int) == doc.len());
    assert(parse_object(doc) == Some(ms));
    lemma_interp_canonical(e);
    let acc = Acc {
        id: Some(e.id),
        ty: Some(e.ty),
        source: Some(e.source),
        time: e.time,
        datacontenttype: e.datacontenttype,
        data: e.data,
        extensions: e.extensions,
    };
    assert(interp_finish(acc) == Ok::<EventModel, DecodeError>(
        EventModel {
            id: e.id,
            ty: e.ty,
            source: e.source,
            time: e.time,
            datacontenttype: e.datacontenttype,
            data: e.data,
            extensions: e.extensions,
        },
    ));
    assert(EventModel {
        id: e.id,
        ty: e.ty,
        source: e.source,
        time: e.time,
        datacontenttype: e.datacontenttype,
        data: e.data,
        extensions: e.extensions,
    } =~= e);
}

/// Accumulator well-formedness carried through decoding.
pub open spec fn acc_wf(acc: Acc) -> bool {
    &&& forall|i: int|
        0 <= i < acc.extensions.len() ==> is_attr_name(#[trigger] acc.extensions[i].0)
            && !is_reserved_key(acc.extensions[i].0)
    &&& forall|i: int, j: int|
        0 <= i < j < acc.extensions.len() ==> #[trigger] acc.extensions[i].0
            != #[trigger] acc.extensions[j].0
    &&& match acc.data {
        Some(d) => json_value_exact(d),
        None => true,
    }
}

pub proof fn lemma_interp_step_wf(acc: Acc, m: (Seq<u8>, JsonVal))
    requires
        acc_wf(acc),
        member_canonical(m),
        interp_step(acc, m) is Ok,
    ensures
        acc_wf(interp_step(acc, m)->Ok_0),
{
    let acc2 = interp_step(acc, m)->Ok_0;
    if m.0 == key_id() || m.0 == key_type() || m.0 == key_source() || m.0 == key_time() || m.0
        == key_datacontenttype() {
        assert(acc2.extensions == acc.extensions && acc2.data == acc.data);
    } else if m.0 == key_data() {
        assert(acc2.extensions == acc.extensions);
        assert(acc2.data == Some(m.1->Raw_0));
    } else {
        assert(acc2.data == acc.data);
        assert(acc2.extensions == acc.extensions.push((m.0, m.1->Str_0)));
        assert(is_attr_name(m.0));
        assert(!is_reserved_key(m.0));
        assert forall|i: int, j: int| 0 <= i < j < acc2.extensions.len() implies #[trigger] acc2.extensions[i].0
            != #[trigger] acc2.extensions[j].0 by {
            if j == acc.extensions.len() {
                assert(!ext_has_key(acc.extensions, m.0));
                assert(acc2.extensions[i].0 == acc.extensions[i].0);
            }
        }
    }
}

pub proof fn lemma_interp_fold_wf(acc: Acc, ms: Seq<(Seq<u8>, JsonVal)>)
    requires
        acc_wf(acc),
        forall|i: int| 0 <= i < ms.len() ==> member_canonical(#[trigger] ms[i]),
        interp_fold(acc, ms) is Ok,
    ensures
        acc_wf(interp_fold(acc, ms)->Ok_0),
    decreases ms.len(),
{
    if ms.len() > 0 {
        lemma_interp_step_wf(acc, ms[0]);
        let tail = ms.subrange(1, ms.len() as int);
        assert(forall|i: int| 0 <= i < tail.len() ==> member_canonical(#[trigger] tail[i]));
        lemma_interp_fold_wf(interp_step(acc, ms[0])->Ok_0, tail);
    }
}

pub proof fn lemma_parse_member_canonical(s: Seq<u8>, i: int)
    requires
        parse_member(s, i) is Some,
    ensures
        member_canonical(parse_member(s, i)->Some_0.0),
{
    let k0 = skip_ws(s, i);
    let (key, a) = parse_string_body(s, k0 + 1)->Some_0;
    let b = skip_ws(s, a);
    let c = skip_ws(s, b + 1);
    if key == key_data() {
        let e = scan_value(s, c)->Some_0;
        crate::json::lemma_scan_value_bounds(s, c);
        let d = s.subrange(c, e);
        assert forall|q: int| c <= q < e implies d[q + (0 - c)] == s[q] by {
            assert(d[q - c] == s[q]);
        }
        lemma_scan_value_reloc(s, d, c, 0 - c);
        assert(scan_value(d, 0) == Some(e - c));
        assert(json_value_exact(d));
    }
}

pub proof fn lemma_parse_members_canonical(s: Seq<u8>, i: int)
    requires
        parse_members(s, i) is Some,
    ensures
        forall|q: int|
            0 <= q < parse_members(s, i)->Some_0.0.len() ==> member_canonical(
                #[trigger] parse_members(s, i)->Some_0.0[q],
            ),
    decreases s.len() - i,
{
    let (m, j) = parse_member(s, i)->Some_0;
    lemma_parse_member_canonical(s, i);
    let j2 = skip_ws(s, j);
    if j2 < s.len() && s[j2] == 0x2c && !(j2 < i) {
        lemma_parse_members_canonical(s, j2 + 1);
        let ms = parse_members(s, i)->Some_0.0;
        let tail = parse_members(s, j2 + 1)->Some_0.0;
        assert forall|q: int| 0 <= q < ms.len() implies member_canonical(#[trigger] ms[q]) by {
            if q == 0 {
                assert(ms[0] == m);
            } else {
                assert(ms[q] == tail[q - 1]);
            }
        }
    }
}

/// Whatever decodes successfully is well formed and can be re-encoded in
/// structured mode.
pub proof fn lemma_decode_structured_wf(s: Seq<u8>)
    requires
        spec_decode_structured(s) is Ok,
    ensures
        structured_encodable(spec_decode_structured(s)->Ok_0),
{
    let ms = parse_object(s)->Some_0;
    assert forall|q: int| 0 <= q < ms.len() implies member_canonical(#[trigger] ms[q]) by {
        let i0 = skip_ws(s, 0);
        let j = skip_ws(s, i0 + 1);
        if j < s.len() && s[j] == 0x7d {
        } else {
            lemma_parse_members_canonical(s, i0 + 1);
        }
    }
    assert(acc_wf(acc_empty()));
    lemma_interp_fold_wf(acc_empty(), ms);
    let acc = interp_fold(acc_empty(), ms)->Ok_0;
    let m = spec_decode_structured(s)->Ok_0;
    assert(m.extensions == acc.extensions && m.data == acc.data && m.time == acc.time);
    match m.time {
        Some(t) => {
            assert(time::is_rfc3339(t));
        },
        None => {},
    }
}

/// A structured body whose object has no `id` member never decodes: the
/// decoder reports an error, and the missing attribute is named when
/// nothing else is wrong first.
pub proof fn lemma_missing_id_rejected(s: Seq<u8>)
    requires
        match parse_object(s) {
            Some(ms) => forall|i: int| 0 <= i < ms.len() ==> (#[trigger] ms[i]).0 != key_id(),
            None => true,
        },
    ensures
        spec_decode_structured(s) is Err,
{
    match parse_object(s) {
        Some(ms) => {
            lemma_no_id_stays_none(acc_empty(), ms);
        },
        None => {},
    }
}

proof fn lemma_no_id_stays_none(acc: Acc, ms: Seq<(Seq<u8>, JsonVal)>)
    requires
        acc.id is None,
        forall|i: int| 0 <= i < ms.len() ==> (#[trigger] ms[i]).0 != key_id(),
    ensures
        interp_fold(acc, ms) is Ok ==> interp_fold(acc, ms)->Ok_0.id is None,
    decreases ms.len(),
{
    if ms.len() > 0 {
        match interp_step(acc, ms[0]) {
            Err(_) => {},
            Ok(a2) => {
                assert(a2.id is None);
                let tail = ms.subrange(1, ms.len() as int);
                assert(forall|i: int| 0 <= i < tail.len() ==> (#[trigger] tail[i]).0 != key_id());
                lemma_no_id_stays_none(a2, tail);
            },
        }
    }
}


/// Echoing preserves the attributes: whatever a structured body decodes
/// to, re-encoding it and decoding again yields the same event.
pub proof fn lemma_structured_echo_preserves(s: Seq<u8>)
    requires
        spec_decode_structured(s) is Ok,
    ensures
        spec_decode_structured(spec_encode_structured(spec_decode_structured(s)->Ok_0))
            == spec_decode_structured(s),
{
    lemma_decode_structured_wf(s);
    lemma_structured_round_trip(spec_decode_structured(s)->Ok_0);
}

} // verus!
