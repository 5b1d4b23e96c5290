//! Plain data of nostr events: identifiers, tags and an event builder.
use vstd::prelude::*;
use vstd::utf8::encode_utf8;

verus! {

pub type Bytes = [u8; 32];

/// The 32 bytes that identify an event.
#[derive(Debug, Default, Clone, PartialEq, Eq, Hash)]
pub struct EventId {
    inner: Bytes,
}

impl EventId {
    pub closed spec fn bytes(&self) -> Seq<u8> {
        self.inner@
    }

    pub fn as_bytes(&self) -> (r: &Bytes)
        ensures
            r@ == self.bytes(),
    {
        &self.inner
    }

    pub fn into_bytes(&self) -> (r: Bytes)
        ensures
            r@ == self.bytes(),
    {
        self.inner
    }
}

/// The identifier made of `array`.
pub closed spec fn id_of_array(array: [u8; 32]) -> EventId {
    EventId { inner: array }
}

impl From<[u8; 32]> for EventId {
    fn from(array: [u8; 32]) -> (r: Self)
        ensures
            r.bytes() == array@,
    {
        EventId::from_array(array)
    }
}

impl vstd::std_specs::convert::FromSpecImpl<[u8; 32]> for EventId {
    open spec fn obeys_from_spec() -> bool {
        true
    }

    open spec fn from_spec(array: [u8; 32]) -> Self {
        id_of_array(array)
    }
}

/// The identifier whose bytes are the first 32 bytes of a string's UTF-8
/// encoding, padded with zeros.
pub open spec fn id_bytes_of(s: Seq<u8>) -> Seq<u8> {
    Seq::new(32, |i: int| if i < s.len() { s[i] } else { 0u8 })
}

/// The identifier made of the first 32 bytes of `s`, padded with zeros.
pub closed spec fn id_of_string(s: String) -> EventId {
    EventId { inner: choose|a: [u8; 32]| a@ == id_bytes_of(encode_utf8(s@)) }
}

impl From<String> for EventId {
    fn from(s: String) -> (r: Self)
        ensures
            r.bytes() == id_bytes_of(encode_utf8(s@)),
    {
        EventId::from_string(s)
    }
}

impl vstd::std_specs::convert::FromSpecImpl<String> for EventId {
    open spec fn obeys_from_spec() -> bool {
        true
    }

    open spec fn from_spec(s: String) -> Self {
        id_of_string(s)
    }
}

impl EventId {
    pub fn from_array(array: Bytes) -> (r: Self)
        ensures
            r.bytes() == array@,
            r == id_of_array(array),
    {
        EventId { inner: array }
    }

    /// The identifier made of the first 32 bytes of `s`, padded with zeros.
    pub fn from_string(s: String) -> (r: Self)
        ensures
            r.bytes() == id_bytes_of(encode_utf8(s@)),
            r == id_of_string(s),
    {
        let mut inner: [u8; 32] = [0u8; 32];
        let bytes = s.as_str().as_bytes();
        let len: usize = if bytes.len() < 32 {
            bytes.len()
        } else {
            32
        };
        let mut k: usize = 0;
        while k < len
            invariant
                k <= len,
                len <= 32,
                len <= bytes@.len(),
                len == bytes@.len() || len == 32,
                inner@.len() == 32,
                bytes@ == encode_utf8(s@),
                forall|j: int| 0 <= j < k ==> inner@[j] == bytes@[j],
                forall|j: int| k <= j < 32 ==> inner@[j] == 0u8,
            decreases len - k,
        {
            inner[k] = bytes[k];
            k = k + 1;
        }
        assert(inner@ =~= id_bytes_of(encode_utf8(s@)));
        proof {
            let a = choose|a: [u8; 32]| a@ == id_bytes_of(encode_utf8(s@));
            assert(a@ == id_bytes_of(encode_utf8(s@)));
            assert(a =~= inner);
        }
        EventId { inner }
    }
}

/// One tag of an event: its kind, then its values.
#[derive(Debug, Default, Clone, PartialEq, Eq)]
pub struct Tag {
    buf: Vec<String>,
}

impl Tag {
    pub closed spec fn parts(&self) -> Seq<Seq<char>> {
        self.buf@.map_values(|s: String| s@)
    }

    pub fn new() -> (r: Self)
        ensures
            r.parts().len() == 0,
    {
        let r = Self { buf: Vec::new() };
        assert(r.parts() =~= Seq::empty());
        r
    }

    pub fn kind(&self) -> (r: &str)
        requires
            self.parts().len() > 0,
        ensures
            r@ == self.parts()[0],
    {
        self.buf[0].as_str()
    }

    pub fn content(&self) -> (r: Option<&str>)
        ensures
            self.parts().len() > 1 ==> r is Some && r->Some_0@ == self.parts()[1],
            self.parts().len() <= 1 ==> r is None,
    {
        if self.buf.len() > 1 {
            Some(self.buf[1].as_str())
        } else {
            None
        }
    }

    pub fn len(self) -> (r: usize)
        ensures
            r == self.parts().len(),
    {
        self.buf.len()
    }
}

/// Collects the parts of an event before it is signed.
#[derive(Debug, Default)]
pub struct EventBuilder<'a> {
    pub created_at: Option<i64>,
    pub kind: Option<u32>,
    pub tags: Option<Vec<Tag>>,
    pub content: Option<&'a str>,
}

impl<'a> EventBuilder<'a> {
    pub fn new() -> (r: Self)
        ensures
            r.created_at is None,
            r.kind is None,
            r.tags is None,
            r.content is None,
    {
        EventBuilder { created_at: None, kind: None, tags: None, content: None }
    }

    pub fn kind(self, kind: u32) -> (r: Self)
        ensures
            r.kind == Some(kind),
            r.created_at == self.created_at,
            r.tags == self.tags,
            r.content == self.content,
    {
        EventBuilder { kind: Some(kind), ..self }
    }

    pub fn created_at(self, created_at: i64) -> (r: Self)
        ensures
            r.created_at == Some(created_at),
            r.kind == self.kind,
            r.tags == self.tags,
            r.content == self.content,
    {
        EventBuilder { created_at: Some(created_at), ..self }
    }

    /// Appends a tag.
    pub fn tag(self, tag: Tag) -> (r: Self)
        ensures
            r.tags is Some,
            r.tags->Some_0@ == match self.tags {
                Some(t) => t@,
                None => Seq::empty(),
            }.push(tag),
            r.created_at == self.created_at,
            r.kind == self.kind,
            r.content == self.content,
    {
        let mut tags = Vec::new();
        tags.push(tag);
        self.tags(tags)
    }

    /// Appends the tags, in order.
    pub fn tags(self, tags: Vec<Tag>) -> (r: Self)
        ensures
            r.tags is Some,
            r.tags->Some_0@ == match self.tags {
                Some(t) => t@,
                None => Seq::empty(),
            } + tags@,
            r.created_at == self.created_at,
            r.kind == self.kind,
            r.content == self.content,
    {
        let EventBuilder { created_at, kind, tags: current, content } = self;
        let mut all = match current {
            Some(t) => t,
            None => Vec::new(),
        };
        let mut more = tags;
        all.append(&mut more);
        EventBuilder { created_at, kind, tags: Some(all), content }
    }
}

} // verus!
