//! The event entity: required attributes `id`, `type`, `source`, optional
//! timestamp and payload, and producer-defined extension attributes.

use vstd::prelude::*;
use crate::time;

verus! {

/// Why a wire message could not be decoded into a valid event.
#[derive(Clone, Copy, Debug, PartialEq, Eq, Structural)]
pub enum DecodeError {
    /// The required `id` attribute is absent.
    MissingId,
    /// The required `type` attribute is absent.
    MissingType,
    /// The required `source` attribute is absent.
    MissingSource,
    /// The message does not have the expected shape (bad JSON, a non-string
    /// attribute value, an ill-formed attribute name).
    Malformed,
    /// The same attribute appears more than once.
    DuplicateAttribute,
    /// `time` is present but is not an RFC 3339 date-time.
    MalformedTime,
}

/// Mathematical model of an event: every attribute as a byte string.
#[verifier::ext_equal]
pub ghost struct EventModel {
    pub id: Seq<u8>,
    pub ty: Seq<u8>,
    pub source: Seq<u8>,
    pub time: Option<Seq<u8>>,
    pub datacontenttype: Option<Seq<u8>>,
    pub data: Option<Seq<u8>>,
    pub extensions: Seq<(Seq<u8>, Seq<u8>)>,
}

/// One event. Attribute values are byte strings of the wire encoding; `data`
/// holds the payload (a JSON value in structured mode, raw bytes in binary
/// mode).
#[derive(Debug, PartialEq, Eq)]
pub struct Event {
    pub id: Vec<u8>,
    pub ty: Vec<u8>,
    pub source: Vec<u8>,
    pub time: Option<Vec<u8>>,
    pub datacontenttype: Option<Vec<u8>>,
    pub data: Option<Vec<u8>>,
    pub extensions: Vec<(Vec<u8>, Vec<u8>)>,
}

impl View for Event {
    type V = EventModel;

    open spec fn view(&self) -> EventModel {
        EventModel {
            id: self.id@,
            ty: self.ty@,
            source: self.source@,
            time: match self.time {
                Some(t) => Some(t@),
                None => None,
            },
            datacontenttype: match self.datacontenttype {
                Some(c) => Some(c@),
                None => None,
            },
            data: match self.data {
                Some(d) => Some(d@),
                None => None,
            },
            extensions: self.extensions@.map_values(|p: (Vec<u8>, Vec<u8>)| (p.0@, p.1@)),
        }
    }
}

/// A byte allowed in an extension attribute name: lower-case ASCII letters
/// and digits.
pub open spec fn is_attr_name_byte(b: u8) -> bool {
    (0x61 <= b && b <= 0x7a) || (0x30 <= b && b <= 0x39)
}

/// A well-formed extension attribute name: non-empty, lower-case
/// alphanumeric ASCII.
pub open spec fn is_attr_name(s: Seq<u8>) -> bool {
    s.len() > 0 && forall|i: int| 0 <= i < s.len() ==> is_attr_name_byte(s[i])
}

pub open spec fn key_id() -> Seq<u8> {
    seq![0x69u8, 0x64u8]  // "id"
}

pub open spec fn key_type() -> Seq<u8> {
    seq![0x74u8, 0x79u8, 0x70u8, 0x65u8]  // "type"
}

pub open spec fn key_source() -> Seq<u8> {
    seq![0x73u8, 0x6fu8, 0x75u8, 0x72u8, 0x63u8, 0x65u8]  // "source"
}

pub open spec fn key_time() -> Seq<u8> {
    seq![0x74u8, 0x69u8, 0x6du8, 0x65u8]  // "time"
}

pub open spec fn key_datacontenttype() -> Seq<u8> {
    seq![
        0x64u8,
        0x61u8,
        0x74u8,
        0x61u8,
        0x63u8,
        0x6fu8,
        0x6eu8,
        0x74u8,
        0x65u8,
        0x6eu8,
        0x74u8,
        0x74u8,
        0x79u8,
        0x70u8,
        0x65u8,
    ]  // "datacontenttype"
}

pub open spec fn key_data() -> Seq<u8> {
    seq![0x64u8, 0x61u8, 0x74u8, 0x61u8]  // "data"
}

/// The attribute names that an extension may not reuse.
pub open spec fn is_reserved_key(s: Seq<u8>) -> bool {
    s == key_id() || s == key_type() || s == key_source() || s == key_time() || s
        == key_datacontenttype() || s == key_data()
}

/// Well-formedness of an event: extension names are valid, mutually
/// distinct, and distinct from the standard attribute names; `time`, if
/// present, is an RFC 3339 date-time.
pub open spec fn wf_event(e: EventModel) -> bool {
    &&& forall|i: int|
        0 <= i < e.extensions.len() ==> is_attr_name(#[trigger] e.extensions[i].0)
            && !is_reserved_key(e.extensions[i].0)
    &&& forall|i: int, j: int|
        0 <= i < j < e.extensions.len() ==> #[trigger] e.extensions[i].0 != #[trigger] e.extensions[j].0
    &&& match e.time {
        Some(t) => time::is_rfc3339(t),
        None => true,
    }
}

impl Event {
    /// Constructs an event with the three required attributes and nothing
    /// else.
    pub fn new(id: Vec<u8>, ty: Vec<u8>, source: Vec<u8>) -> (e: Event)
        ensures
            e@.id == id@,
            e@.ty == ty@,
            e@.source == source@,
            e@.time is None,
            e@.datacontenttype is None,
            e@.data is None,
            e@.extensions.len() == 0,
    {
        let e = Event {
            id,
            ty,
            source,
            time: None,
            datacontenttype: None,
            data: None,
            extensions: Vec::new(),
        };
        proof {
            assert(e@.extensions =~= Seq::<(Seq<u8>, Seq<u8>)>::empty());
        }
        e
    }

    /// Records the `time` attribute.
    pub fn set_time(&mut self, t: Vec<u8>)
        ensures
            final(self)@ == (EventModel { time: Some(t@), ..old(self)@ }),
    {
        self.time = Some(t);
        proof {
            assert(self@ =~= (EventModel { time: Some(t@), ..old(self)@ }));
        }
    }

    /// Records the payload and its declared media type.
    pub fn set_data(&mut self, content_type: Vec<u8>, data: Vec<u8>)
        ensures
            final(self)@ == (EventModel {
                datacontenttype: Some(content_type@),
                data: Some(data@),
                ..old(self)@
            }),
    {
        self.datacontenttype = Some(content_type);
        self.data = Some(data);
        proof {
            assert(self@ =~= (EventModel {
                datacontenttype: Some(self.datacontenttype->Some_0@),
                data: Some(self.data->Some_0@),
                ..old(self)@
            }));
        }
    }

    /// Appends one extension attribute.
    pub fn add_extension(&mut self, name: Vec<u8>, value: Vec<u8>)
        ensures
            final(self)@ == (EventModel {
                extensions: old(self)@.extensions.push((name@, value@)),
                ..old(self)@
            }),
    {
        let ghost before = self@.extensions;
        self.extensions.push((name, value));
        proof {
            assert(self@.extensions =~= before.push((name@, value@)));
            assert(self@ =~= (EventModel { extensions: before.push((name@, value@)), ..old(self)@ }));
        }
    }
}

} // verus!
