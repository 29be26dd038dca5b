//! Parameters of the INIT and INIT ACK chunks: the header that all of them
//! share, the state cookie, and the list of supported extensions.
//!
//! On the wire a parameter is a 16-bit type, a 16-bit length that counts the
//! header's four bytes, and the value.

use vstd::prelude::*;
use crate::error::Error;
use crate::wire::{be16, bytes16, read_u16, write_range, write_u16};

verus! {

/// The size of a parameter's header.
pub const PARAM_HEADER_LENGTH: usize = 4;

/// The largest value that a parameter can carry.
pub const MAX_PARAM_VALUE: usize = 65531;

/// The size of a state cookie made by this library.
pub const COOKIE_LENGTH: usize = 32;

/// A chunk type as it is named in a list of supported extensions.
#[derive(Clone, Copy, Debug, PartialEq, Eq, Structural)]
pub struct ChunkType(pub u8);

/// What a parameter is.
#[derive(Clone, Copy, Debug, PartialEq, Eq, Structural)]
pub enum ParamType {
    /// Heartbeat information.
    HeartbeatInfo,
    /// The state cookie of an INIT ACK.
    StateCookie,
    /// The chunk types that the sender supports beyond the base protocol.
    SupportedExt,
    /// The sender supports FORWARD TSN.
    ForwardTsnSupp,
    /// Anything else, with its number.
    Unknown(u16),
}

impl ParamType {
    /// The type's number on the wire.
    pub open spec fn code(self) -> u16 {
        match self {
            ParamType::HeartbeatInfo => 1,
            ParamType::StateCookie => 7,
            ParamType::SupportedExt => 0x8008,
            ParamType::ForwardTsnSupp => 0xc000,
            ParamType::Unknown(v) => v,
        }
    }

    /// The type that a number on the wire stands for.
    pub open spec fn of_code(v: u16) -> ParamType {
        if v == 1 {
            ParamType::HeartbeatInfo
        } else if v == 7 {
            ParamType::StateCookie
        } else if v == 0x8008 {
            ParamType::SupportedExt
        } else if v == 0xc000 {
            ParamType::ForwardTsnSupp
        } else {
            ParamType::Unknown(v)
        }
    }

    /// The type's number on the wire.
    pub fn to_u16(self) -> (v: u16)
        ensures
            v == self.code(),
    {
        match self {
            ParamType::HeartbeatInfo => 1,
            ParamType::StateCookie => 7,
            ParamType::SupportedExt => 0x8008,
            ParamType::ForwardTsnSupp => 0xc000,
            ParamType::Unknown(v) => v,
        }
    }

    /// The type that a number on the wire stands for.
    pub fn from_u16(v: u16) -> (t: ParamType)
        ensures
            t == ParamType::of_code(v),
            t.code() == v,
    {
        if v == 1 {
            ParamType::HeartbeatInfo
        } else if v == 7 {
            ParamType::StateCookie
        } else if v == 0x8008 {
            ParamType::SupportedExt
        } else if v == 0xc000 {
            ParamType::ForwardTsnSupp
        } else {
            ParamType::Unknown(v)
        }
    }
}

/// The header of a parameter.
#[derive(Clone, Copy, Debug, PartialEq, Eq, Structural)]
pub struct ParamHeader {
    /// What the parameter is.
    pub typ: ParamType,
    /// The size of the parameter's value, without the header.
    pub value_length: u16,
}

impl ParamHeader {
    /// Whether `raw` begins with a parameter header whose length is no
    /// smaller than a header and no larger than `raw`.
    pub open spec fn readable(raw: Seq<u8>) -> bool {
        &&& raw.len() >= PARAM_HEADER_LENGTH
        &&& PARAM_HEADER_LENGTH <= be16(raw, 2) <= raw.len()
    }

    /// The header that `raw` begins with.
    pub open spec fn parsed(raw: Seq<u8>) -> ParamHeader {
        ParamHeader {
            typ: ParamType::of_code(be16(raw, 0)),
            value_length: (be16(raw, 2) - PARAM_HEADER_LENGTH) as u16,
        }
    }

    /// The header's bytes.
    pub open spec fn bytes(self) -> Seq<u8> {
        bytes16(self.typ.code()) + bytes16((self.value_length + PARAM_HEADER_LENGTH) as u16)
    }

    /// Reads the header that `raw` begins with.
    pub fn unmarshal(raw: &Vec<u8>) -> (r: Result<ParamHeader, Error>)
        ensures
            r == (if ParamHeader::readable(raw@) {
                Ok(ParamHeader::parsed(raw@))
            } else {
                Err(Error::ErrParamHeaderTooShort)
            }),
    {
        if raw.len() < PARAM_HEADER_LENGTH {
            return Err(Error::ErrParamHeaderTooShort);
        }
        let typ: ParamType = ParamType::from_u16(read_u16(raw, 0));
        let len: usize = read_u16(raw, 2) as usize;
        if len < PARAM_HEADER_LENGTH || raw.len() < len {
            return Err(Error::ErrParamHeaderTooShort);
        }
        Ok(ParamHeader { typ, value_length: (len - PARAM_HEADER_LENGTH) as u16 })
    }

    /// Appends the header to `buf` and returns the buffer's new length. A
    /// header whose length would not fit its 16 bits is not written.
    pub fn marshal_to(&self, buf: &mut Vec<u8>) -> (r: Result<usize, Error>)
        ensures
            match r {
                Ok(n) => {
                    &&& self.value_length <= MAX_PARAM_VALUE
                    &&& final(buf)@ == old(buf)@ + self.bytes()
                    &&& n == final(buf)@.len()
                },
                Err(e) => {
                    &&& self.value_length > MAX_PARAM_VALUE
                    &&& e == Error::ErrParamTooLong
                    &&& final(buf)@ == old(buf)@
                },
            },
    {
        if self.value_length as usize > MAX_PARAM_VALUE {
            return Err(Error::ErrParamTooLong);
        }
        write_u16(buf, self.typ.to_u16());
        write_u16(buf, self.value_length + PARAM_HEADER_LENGTH as u16);
        assert(buf@ =~= old(buf)@ + self.bytes());
        Ok(buf.len())
    }

    /// The size of the parameter's value.
    pub fn value_length(&self) -> (n: usize)
        ensures
            n == self.value_length,
    {
        self.value_length as usize
    }
}

/// The state cookie that an INIT ACK carries and a COOKIE ECHO returns.
#[derive(Debug)]
pub struct ParamStateCookie {
    /// The cookie's bytes.
    pub cookie: Vec<u8>,
}

impl View for ParamStateCookie {
    type V = Seq<u8>;

    open spec fn view(&self) -> Seq<u8> {
        self.cookie@
    }
}

impl Clone for ParamStateCookie {
    fn clone(&self) -> (c: ParamStateCookie)
        ensures
            c@ == self@,
    {
        ParamStateCookie { cookie: crate::chunk::copy_bytes(&self.cookie) }
    }
}

impl ParamStateCookie {
    /// A parameter that carries a cookie of 32 bytes drawn by chance.
    pub fn new() -> (p: ParamStateCookie)
        ensures
            p@.len() == COOKIE_LENGTH,
    {
        let mut cookie: Vec<u8> = Vec::new();
        crate::wire::write_zeros(&mut cookie, COOKIE_LENGTH);
        crate::random::fill_random(&mut cookie);
        ParamStateCookie { cookie }
    }

    /// A parameter that carries the cookie `cookie`.
    pub fn with_cookie(cookie: Vec<u8>) -> (p: ParamStateCookie)
        ensures
            p@ == cookie@,
    {
        ParamStateCookie { cookie }
    }

    /// Reads a state cookie parameter: the cookie is all that follows the header.
    pub fn unmarshal(raw: &Vec<u8>) -> (r: Result<ParamStateCookie, Error>)
        ensures
            match r {
                Ok(p) => ParamHeader::readable(raw@) && p@ == raw@.skip(PARAM_HEADER_LENGTH as int),
                Err(e) => !ParamHeader::readable(raw@) && e == Error::ErrParamHeaderTooShort,
            },
    {
        match ParamHeader::unmarshal(raw) {
            Err(e) => Err(e),
            Ok(_) => {
                let cookie: Vec<u8> = crate::wire::copy_range(raw, PARAM_HEADER_LENGTH, raw.len());
                assert(cookie@ =~= raw@.skip(PARAM_HEADER_LENGTH as int));
                Ok(ParamStateCookie { cookie })
            },
        }
    }

    /// Appends the parameter to `buf` and returns the buffer's new length.
    /// A cookie too long for a parameter is not written.
    pub fn marshal_to(&self, buf: &mut Vec<u8>) -> (r: Result<usize, Error>)
        ensures
            match r {
                Ok(n) => {
                    &&& self@.len() <= MAX_PARAM_VALUE
                    &&& final(buf)@ == old(buf)@ + (ParamHeader {
                        typ: ParamType::StateCookie,
                        value_length: self@.len() as u16,
                    }).bytes() + self@
                    &&& n == final(buf)@.len()
                },
                Err(e) => {
                    &&& self@.len() > MAX_PARAM_VALUE
                    &&& e == Error::ErrParamTooLong
                    &&& final(buf)@ == old(buf)@
                },
            },
    {
        let header: ParamHeader = match self.header() {
            Some(h) => h,
            None => {
                return Err(Error::ErrParamTooLong);
            },
        };
        match header.marshal_to(buf) {
            Err(e) => {
                return Err(e);
            },
            Ok(_) => {},
        }
        write_range(buf, &self.cookie, 0, self.cookie.len());
        assert(self.cookie@.subrange(0, self.cookie@.len() as int) =~= self.cookie@);
        Ok(buf.len())
    }

    /// The size of the cookie.
    pub fn value_length(&self) -> (n: usize)
        ensures
            n == self@.len(),
    {
        self.cookie.len()
    }

    /// The parameter's header, or `None` if the cookie is too long for a parameter.
    pub fn header(&self) -> (h: Option<ParamHeader>)
        ensures
            h == (if self@.len() <= MAX_PARAM_VALUE {
                Some(ParamHeader { typ: ParamType::StateCookie, value_length: self@.len() as u16 })
            } else {
                None
            }),
    {
        if self.cookie.len() <= MAX_PARAM_VALUE {
            Some(ParamHeader { typ: ParamType::StateCookie, value_length: self.cookie.len() as u16 })
        } else {
            None
        }
    }
}

/// The chunk types that the sender supports beyond the base protocol.
#[derive(Debug)]
pub struct ParamSupportedExtensions {
    /// The chunk types, in the order of the wire.
    pub chunk_types: Vec<ChunkType>,
}

impl View for ParamSupportedExtensions {
    type V = Seq<ChunkType>;

    open spec fn view(&self) -> Seq<ChunkType> {
        self.chunk_types@
    }
}

/// The chunk types that a sequence of bytes names, one for each byte.
pub open spec fn chunk_types_of(bytes: Seq<u8>) -> Seq<ChunkType> {
    bytes.map_values(|b: u8| ChunkType(b))
}

/// The bytes that name a sequence of chunk types.
pub open spec fn bytes_of_chunk_types(types: Seq<ChunkType>) -> Seq<u8> {
    types.map_values(|t: ChunkType| t.0)
}

impl ParamSupportedExtensions {
    /// A parameter that names no chunk type.
    pub fn new() -> (p: ParamSupportedExtensions)
        ensures
            p@.len() == 0,
    {
        ParamSupportedExtensions { chunk_types: Vec::new() }
    }

    /// The parameter's header, or `None` if the list is too long for a parameter.
    pub fn header(&self) -> (h: Option<ParamHeader>)
        ensures
            h == (if self@.len() <= MAX_PARAM_VALUE {
                Some(ParamHeader { typ: ParamType::SupportedExt, value_length: self@.len() as u16 })
            } else {
                None
            }),
    {
        if self.chunk_types.len() <= MAX_PARAM_VALUE {
            Some(
                ParamHeader { typ: ParamType::SupportedExt, value_length: self.chunk_types.len() as u16 },
            )
        } else {
            None
        }
    }

    /// Reads a supported extensions parameter: each byte of the value that
    /// the header announces names one chunk type.
    pub fn unmarshal(raw: &Vec<u8>) -> (r: Result<ParamSupportedExtensions, Error>)
        ensures
            match r {
                Ok(p) => ParamHeader::readable(raw@) && p@ == chunk_types_of(
                    raw@.subrange(PARAM_HEADER_LENGTH as int, be16(raw@, 2) as int),
                ),
                Err(e) => !ParamHeader::readable(raw@) && e == Error::ErrParamHeaderTooShort,
            },
    {
        let header: ParamHeader = match ParamHeader::unmarshal(raw) {
            Err(e) => {
                return Err(e);
            },
            Ok(h) => h,
        };
        let end: usize = PARAM_HEADER_LENGTH + header.value_length();
        let mut chunk_types: Vec<ChunkType> = Vec::new();
        let mut i: usize = PARAM_HEADER_LENGTH;
        while i < end
            invariant
                PARAM_HEADER_LENGTH <= i <= end <= raw.len(),
                chunk_types@ == chunk_types_of(raw@.subrange(PARAM_HEADER_LENGTH as int, i as int)),
            decreases end - i,
        {
            chunk_types.push(ChunkType(raw[i]));
            assert(chunk_types@ =~= chunk_types_of(raw@.subrange(PARAM_HEADER_LENGTH as int, i + 1)));
            i = i + 1;
        }
        Ok(ParamSupportedExtensions { chunk_types })
    }

    /// Appends the parameter to `buf` and returns the buffer's new length.
    /// A list too long for a parameter is not written.
    pub fn marshal_to(&self, buf: &mut Vec<u8>) -> (r: Result<usize, Error>)
        ensures
            match r {
                Ok(n) => {
                    &&& self@.len() <= MAX_PARAM_VALUE
                    &&& final(buf)@ == old(buf)@ + (ParamHeader {
                        typ: ParamType::SupportedExt,
                        value_length: self@.len() as u16,
                    }).bytes() + bytes_of_chunk_types(self@)
                    &&& n == final(buf)@.len()
                },
                Err(e) => {
                    &&& self@.len() > MAX_PARAM_VALUE
                    &&& e == Error::ErrParamTooLong
                    &&& final(buf)@ == old(buf)@
                },
            },
    {
        let header: ParamHeader = match self.header() {
            Some(h) => h,
            None => {
                return Err(Error::ErrParamTooLong);
            },
        };
        match header.marshal_to(buf) {
            Err(e) => {
                return Err(e);
            },
            Ok(_) => {},
        }
        let ghost start = buf@;
        let mut i: usize = 0;
        while i < self.chunk_types.len()
            invariant
                i <= self.chunk_types.len(),
                buf@ == start + bytes_of_chunk_types(self@.take(i as int)),
            decreases self.chunk_types.len() - i,
        {
            let ct: ChunkType = self.chunk_types[i];
            buf.push(ct.0);
            assert(buf@ =~= start + bytes_of_chunk_types(self@.take(i + 1)));
            i = i + 1;
        }
        assert(self@.take(self.chunk_types.len() as int) =~= self@);
        Ok(buf.len())
    }

    /// The size of the parameter's value.
    pub fn value_length(&self) -> (n: usize)
        ensures
            n == self@.len(),
    {
        self.chunk_types.len()
    }

    /// A copy of the parameter.
    pub fn clone_to(&self) -> (p: ParamSupportedExtensions)
        ensures
            p@ == self@,
    {
        let mut chunk_types: Vec<ChunkType> = Vec::new();
        let mut i: usize = 0;
        while i < self.chunk_types.len()
            invariant
                i <= self.chunk_types.len(),
                chunk_types@ == self@.take(i as int),
            decreases self.chunk_types.len() - i,
        {
            chunk_types.push(self.chunk_types[i]);
            assert(chunk_types@ =~= self@.take(i + 1));
            i = i + 1;
        }
        assert(self@.take(self.chunk_types.len() as int) =~= self@);
        ParamSupportedExtensions { chunk_types }
    }
}

/// Writing a supported extensions parameter and reading it back gives the same list.
pub proof fn lemma_extensions_round_trip(types: Seq<ChunkType>)
    requires
        types.len() <= MAX_PARAM_VALUE,
    ensures
        ({
            let raw = (ParamHeader { typ: ParamType::SupportedExt, value_length: types.len() as u16 }).bytes()
                + bytes_of_chunk_types(types);
            &&& ParamHeader::readable(raw)
            &&& ParamHeader::parsed(raw).typ == ParamType::SupportedExt
            &&& chunk_types_of(raw.subrange(PARAM_HEADER_LENGTH as int, be16(raw, 2) as int)) == types
        }),
{
    let h = ParamHeader { typ: ParamType::SupportedExt, value_length: types.len() as u16 };
    let raw = h.bytes() + bytes_of_chunk_types(types);
    assert(raw[0] == bytes16(0x8008)[0]);
    assert(raw[1] == bytes16(0x8008)[1]);
    assert(raw[2] == bytes16((types.len() + 4) as u16)[0]);
    assert(raw[3] == bytes16((types.len() + 4) as u16)[1]);
    assert(be16(raw, 2) == types.len() + 4);
    assert(chunk_types_of(raw.subrange(PARAM_HEADER_LENGTH as int, be16(raw, 2) as int)) =~= types);
}

/// Writing a state cookie parameter and reading it back gives the same cookie.
pub proof fn lemma_cookie_round_trip(cookie: Seq<u8>)
    requires
        cookie.len() <= MAX_PARAM_VALUE,
    ensures
        ({
            let raw = (ParamHeader { typ: ParamType::StateCookie, value_length: cookie.len() as u16 }).bytes()
                + cookie;
            &&& ParamHeader::readable(raw)
            &&& ParamHeader::parsed(raw).typ == ParamType::StateCookie
            &&& raw.skip(PARAM_HEADER_LENGTH as int) == cookie
        }),
{
    let h = ParamHeader { typ: ParamType::StateCookie, value_length: cookie.len() as u16 };
    let raw = h.bytes() + cookie;
    assert(raw[0] == bytes16(7)[0]);
    assert(raw[1] == bytes16(7)[1]);
    assert(raw[2] == bytes16((cookie.len() + 4) as u16)[0]);
    assert(raw[3] == bytes16((cookie.len() + 4) as u16)[1]);
    assert(raw.skip(PARAM_HEADER_LENGTH as int) =~= cookie);
}

} // verus!
