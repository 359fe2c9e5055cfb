//! Control records: the header kinds, their byte encoding, and a decoder that
//! checks every byte it reads.
//!
//! A record on the wire is a 4-byte little-endian length followed by that many
//! bytes of body. The body is the header's tag as a varint (Id 0, Size 1,
//! Pieces 2, Name 3, Checksum 4) followed by its value: a varint for the
//! numeric kinds, and for a name the varint byte length of its UTF-8 text
//! followed by that text.
use byteorder::ByteOrder;
use vstd::prelude::*;
use vstd::slice::{slice_subrange, slice_to_vec};
use vstd::string::StringSliceAdditionalSpecFns;
use vstd::utf8::{decode_utf8, encode_utf8, valid_utf8};

verus! {

broadcast use vstd::utf8::group_utf8_lib;

/// One control record.
#[derive(Debug)]
pub enum Header {
    Id(usize),
    Size(usize),
    Pieces(usize),
    Name(String),
    Checksum(u64),
}

/// What a header means, with the name as its characters.
pub ghost enum HeaderModel {
    Id(nat),
    Size(nat),
    Pieces(nat),
    Name(Seq<char>),
    Checksum(nat),
}

/// The kind of a header, without its value.
#[derive(Clone, Copy, Debug, PartialEq, Eq, Structural)]
pub enum HeaderKind {
    Id,
    Size,
    Pieces,
    Name,
    Checksum,
}

/// Why a byte sequence is not a record.
#[derive(Clone, Copy, Debug, PartialEq, Eq, Structural)]
pub enum DecodeError {
    /// No byte at all where a record should start.
    EndOfStream,
    /// The length field, or the body it announces, runs past the input.
    Truncated,
    /// The body does not parse as a value of its kind.
    Malformed,
    /// The body's tag names no header kind.
    UnknownTag(u64),
    /// A well-formed record of another kind than the one asked for.
    UnexpectedKind { expected: HeaderKind, found: HeaderKind },
}

impl View for Header {
    type V = HeaderModel;

    open spec fn view(&self) -> HeaderModel {
        match self {
            Header::Id(v) => HeaderModel::Id(*v as nat),
            Header::Size(v) => HeaderModel::Size(*v as nat),
            Header::Pieces(v) => HeaderModel::Pieces(*v as nat),
            Header::Name(s) => HeaderModel::Name(s@),
            Header::Checksum(v) => HeaderModel::Checksum(*v as nat),
        }
    }
}

pub open spec fn model_kind(h: HeaderModel) -> HeaderKind {
    match h {
        HeaderModel::Id(_) => HeaderKind::Id,
        HeaderModel::Size(_) => HeaderKind::Size,
        HeaderModel::Pieces(_) => HeaderKind::Pieces,
        HeaderModel::Name(_) => HeaderKind::Name,
        HeaderModel::Checksum(_) => HeaderKind::Checksum,
    }
}

pub open spec fn kind_tag(k: HeaderKind) -> nat {
    match k {
        HeaderKind::Id => 0,
        HeaderKind::Size => 1,
        HeaderKind::Pieces => 2,
        HeaderKind::Name => 3,
        HeaderKind::Checksum => 4,
    }
}

/// Unsigned LEB128: seven bits per byte, low group first, high bit set on
/// every byte but the last.
pub open spec fn varint(v: nat) -> Seq<u8>
    decreases v,
{
    if v < 128 {
        seq![v as u8]
    } else {
        seq![(v % 128 + 128) as u8] + varint(v / 128)
    }
}

/// Reads a 64-bit varint whose first byte is at `i`: at most ten bytes, the
/// tenth holding one bit. Gives the value and the index just past it.
pub open spec fn varint_from(b: Seq<u8>, i: nat) -> Option<(nat, nat)>
    decreases 10 - i,
{
    if i >= 10 || i >= b.len() {
        None
    } else if b[i as int] < 128 {
        if i == 9 && b[i as int] > 1 {
            None
        } else {
            Some((b[i as int] as nat, i + 1))
        }
    } else {
        match varint_from(b, i + 1) {
            Some((v, n)) => Some((((b[i as int] - 128) + 128 * v) as nat, n)),
            None => None,
        }
    }
}

pub open spec fn take_varint(b: Seq<u8>) -> Option<(nat, nat)> {
    varint_from(b, 0)
}

/// The four little-endian bytes of `n`.
pub open spec fn le_bytes(n: u32) -> Seq<u8> {
    seq![(n % 256) as u8, ((n / 256) % 256) as u8, ((n / 65536) % 256) as u8, (n / 16777216) as u8]
}

/// The number that four bytes give when read little-endian.
pub open spec fn le_value(b: Seq<u8>) -> nat {
    (b[0] + 256 * b[1] + 65536 * b[2] + 16777216 * b[3]) as nat
}

pub open spec fn model_payload(h: HeaderModel) -> Seq<u8> {
    match h {
        HeaderModel::Id(v) => varint(v),
        HeaderModel::Size(v) => varint(v),
        HeaderModel::Pieces(v) => varint(v),
        HeaderModel::Name(s) => varint(encode_utf8(s).len()) + encode_utf8(s),
        HeaderModel::Checksum(v) => varint(v),
    }
}

/// The body of a record: tag, then value.
pub open spec fn body_bytes(h: HeaderModel) -> Seq<u8> {
    varint(kind_tag(model_kind(h))) + model_payload(h)
}

/// A header whose body length fits the 4-byte length field.
pub open spec fn record_fits(h: HeaderModel) -> bool {
    body_bytes(h).len() <= u32::MAX
}

/// The full record: length field, then body.
pub open spec fn record_bytes(h: HeaderModel) -> Seq<u8> {
    le_bytes(body_bytes(h).len() as u32) + body_bytes(h)
}

pub open spec fn numeric_header(tag: nat, v: nat) -> HeaderModel {
    if tag == 0 {
        HeaderModel::Id(v)
    } else if tag == 1 {
        HeaderModel::Size(v)
    } else if tag == 2 {
        HeaderModel::Pieces(v)
    } else {
        HeaderModel::Checksum(v)
    }
}

/// Parses a whole body: every byte of it must be used.
pub open spec fn parse_body(b: Seq<u8>) -> Result<HeaderModel, DecodeError> {
    match take_varint(b) {
        None => Err(DecodeError::Malformed),
        Some((t, k)) => {
            let rest = b.skip(k as int);
            if t > 4 {
                Err(DecodeError::UnknownTag(t as u64))
            } else {
                match take_varint(rest) {
                    None => Err(DecodeError::Malformed),
                    Some((v, k2)) => {
                        if t == 3 {
                            if k2 + v != rest.len() || !valid_utf8(rest.skip(k2 as int)) {
                                Err(DecodeError::Malformed)
                            } else {
                                Ok(HeaderModel::Name(decode_utf8(rest.skip(k2 as int))))
                            }
                        } else if k2 != rest.len() || (t != 4 && v > usize::MAX) {
                            Err(DecodeError::Malformed)
                        } else {
                            Ok(numeric_header(t, v))
                        }
                    },
                }
            }
        },
    }
}

/// Decodes the record at the start of `b`: the header and the number of bytes
/// that the record takes.
pub open spec fn decode_model(b: Seq<u8>) -> Result<(HeaderModel, nat), DecodeError> {
    if b.len() == 0 {
        Err(DecodeError::EndOfStream)
    } else if b.len() < 4 {
        Err(DecodeError::Truncated)
    } else {
        let n = le_value(b.take(4));
        if b.len() < 4 + n {
            Err(DecodeError::Truncated)
        } else {
            match parse_body(b.subrange(4, 4 + n as int)) {
                Ok(h) => Ok((h, 4 + n)),
                Err(e) => Err(e),
            }
        }
    }
}

/// As `decode_model`, and the header must be of kind `k`.
pub open spec fn decode_expecting_model(b: Seq<u8>, k: HeaderKind) -> Result<(HeaderModel, nat), DecodeError> {
    match decode_model(b) {
        Ok((h, n)) => if model_kind(h) == k {
            Ok((h, n))
        } else {
            Err(DecodeError::UnexpectedKind { expected: k, found: model_kind(h) })
        },
        Err(e) => Err(e),
    }
}

/// The largest value plus one that a varint starting at position `i` of the
/// ten allowed can still hold.
pub open spec fn varint_cap(i: nat) -> nat
    decreases 9 - i,
{
    if i >= 9 {
        2
    } else {
        128 * varint_cap(i + 1)
    }
}

proof fn lemma_varint_cap_zero()
    ensures
        varint_cap(0) == 0x1_0000_0000_0000_0000,
{
    reveal_with_fuel(varint_cap, 10);
}

proof fn lemma_varint_from(b: Seq<u8>, i: nat, v: nat)
    requires
        i <= 9,
        v < varint_cap(i),
        i + varint(v).len() <= b.len(),
        b.subrange(i as int, i + varint(v).len() as int) == varint(v),
    ensures
        varint_from(b, i) == Some((v, i + varint(v).len())),
    decreases v,
{
    let enc = varint(v);
    assert(b[i as int] == enc[0]);
    if v >= 128 {
        if i == 9 {
            assert(varint_cap(9) == 2);
        }
        let rest = varint(v / 128);
        assert(enc == seq![(v % 128 + 128) as u8] + rest);
        assert(b.subrange(i + 1 as int, i + 1 + rest.len() as int) =~= rest) by {
            assert forall|j: int| 0 <= j < rest.len() implies b.subrange(i + 1 as int, i + 1 + rest.len() as int)[j]
                == rest[j] by {
                assert(b.subrange(i as int, i + enc.len() as int)[j + 1] == enc[j + 1]);
            }
        }
        assert(v / 128 < varint_cap(i + 1));
        lemma_varint_from(b, i + 1, v / 128);
    }
}

/// A varint reads back as the value it was made from, whatever follows it.
pub proof fn lemma_take_varint(v: nat, tail: Seq<u8>)
    requires
        v <= u64::MAX,
    ensures
        take_varint(varint(v) + tail) == Some((v, varint(v).len())),
{
    lemma_varint_cap_zero();
    let b = varint(v) + tail;
    assert(b.subrange(0, varint(v).len() as int) =~= varint(v));
    lemma_varint_from(b, 0, v);
}

proof fn lemma_le_value(n: u32)
    ensures
        le_value(le_bytes(n)) == n,
{
    let b = le_bytes(n);
    let x = n as int;
    assert(x == x % 256 + 256 * ((x / 256) % 256) + 65536 * ((x / 65536) % 256) + 16777216 * (x / 16777216)) by (nonlinear_arith)
        requires 0 <= x < 0x1_0000_0000;
}

impl Header {
    /// The kind of this header.
    pub fn kind(&self) -> (r: HeaderKind)
        ensures
            r == model_kind(self@),
    {
        match self {
            Header::Id(_) => HeaderKind::Id,
            Header::Size(_) => HeaderKind::Size,
            Header::Pieces(_) => HeaderKind::Pieces,
            Header::Name(_) => HeaderKind::Name,
            Header::Checksum(_) => HeaderKind::Checksum,
        }
    }
}

/// Whether two byte slices hold the same bytes.
fn same_bytes(a: &[u8], b: &[u8]) -> (r: bool)
    ensures
        r == (a@ == b@),
{
    if a.len() != b.len() {
        return false;
    }
    let mut i: usize = 0;
    while i < a.len()
        invariant
            a@.len() == b@.len(),
            i <= a@.len(),
            forall|j: int| 0 <= j < i ==> a@[j] == b@[j],
        decreases a@.len() - i,
    {
        if a[i] != b[i] {
            return false;
        }
        i = i + 1;
    }
    assert(a@ =~= b@);
    true
}

impl PartialEq for Header {
    fn eq(&self, other: &Header) -> (r: bool) {
        match (self, other) {
            (Header::Id(a), Header::Id(b)) => *a == *b,
            (Header::Size(a), Header::Size(b)) => *a == *b,
            (Header::Pieces(a), Header::Pieces(b)) => *a == *b,
            (Header::Checksum(a), Header::Checksum(b)) => *a == *b,
            (Header::Name(a), Header::Name(b)) => {
                let r = same_bytes(a.as_str().as_bytes(), b.as_str().as_bytes());
                proof {
                    vstd::utf8::encode_utf8_decode_utf8(a@);
                    vstd::utf8::encode_utf8_decode_utf8(b@);
                }
                r
            },
            _ => false,
        }
    }
}

impl vstd::std_specs::cmp::PartialEqSpecImpl for Header {
    open spec fn obeys_eq_spec() -> bool {
        true
    }

    open spec fn eq_spec(&self, other: &Header) -> bool {
        self@ == other@
    }
}

impl Eq for Header {
}

fn tag_of(k: HeaderKind) -> (r: u64)
    ensures
        r as nat == kind_tag(k),
{
    match k {
        HeaderKind::Id => 0,
        HeaderKind::Size => 1,
        HeaderKind::Pieces => 2,
        HeaderKind::Name => 3,
        HeaderKind::Checksum => 4,
    }
}

/// Encodes `h` as one record: length field, tag, value.
pub fn encode(h: &Header) -> (r: Vec<u8>)
    requires
        record_fits(h@),
    ensures
        r@ == record_bytes(h@),
{
    let mut body = varint_bytes(tag_of(h.kind()));
    let mut payload = match h {
        Header::Id(v) => varint_bytes(*v as u64),
        Header::Size(v) => varint_bytes(*v as u64),
        Header::Pieces(v) => varint_bytes(*v as u64),
        Header::Name(s) => {
            let bytes = s.as_str().as_bytes();
            let mut p = varint_bytes(bytes.len() as u64);
            let mut text = slice_to_vec(bytes);
            p.append(&mut text);
            p
        },
        Header::Checksum(v) => varint_bytes(*v),
    };
    assert(payload@ == model_payload(h@));
    body.append(&mut payload);
    assert(body@ == body_bytes(h@));
    let mut out = le_u32_bytes(body.len() as u32);
    out.append(&mut body);
    out
}

fn parse_header_body(b: &[u8]) -> (r: Result<Header, DecodeError>)
    ensures
        match parse_body(b@) {
            Ok(h) => r matches Ok(x) && x@ == h,
            Err(e) => r == Err::<Header, DecodeError>(e),
        },
{
    let (t, rest_len) = match take_varint_u64(b) {
        None => return Err(DecodeError::Malformed),
        Some(p) => p,
    };
    let k = b.len() - rest_len;
    let rest = slice_subrange(b, k, b.len());
    assert(rest@ == b@.skip(k as int));
    if t > 4 {
        return Err(DecodeError::UnknownTag(t));
    }
    let (v, rest2_len) = match take_varint_u64(rest) {
        None => return Err(DecodeError::Malformed),
        Some(p) => p,
    };
    let k2 = rest.len() - rest2_len;
    if t == 3 {
        if rest2_len as u64 != v {
            return Err(DecodeError::Malformed);
        }
        let text = slice_subrange(rest, k2, rest.len());
        assert(text@ == rest@.skip(k2 as int));
        match utf8_str(text) {
            None => Err(DecodeError::Malformed),
            Some(s) => {
                proof {
                    vstd::utf8::encode_utf8_decode_utf8(s@);
                }
                Ok(Header::Name(s.to_owned()))
            },
        }
    } else if rest2_len != 0 {
        Err(DecodeError::Malformed)
    } else if t == 4 {
        Ok(Header::Checksum(v))
    } else if v > usize::MAX as u64 {
        Err(DecodeError::Malformed)
    } else if t == 0 {
        Ok(Header::Id(v as usize))
    } else if t == 1 {
        Ok(Header::Size(v as usize))
    } else {
        Ok(Header::Pieces(v as usize))
    }
}

/// Decodes the record at the start of `b`. On success gives the header and
/// the number of bytes the record takes, which is where the next one starts;
/// on failure nothing is consumed.
pub fn decode(b: &[u8]) -> (r: Result<(Header, usize), DecodeError>)
    ensures
        match decode_model(b@) {
            Ok((h, n)) => r matches Ok((x, m)) && x@ == h && m == n,
            Err(e) => r == Err::<(Header, usize), DecodeError>(e),
        },
{
    if b.len() == 0 {
        return Err(DecodeError::EndOfStream);
    }
    if b.len() < 4 {
        return Err(DecodeError::Truncated);
    }
    let n = read_le_u32(b) as usize;
    if b.len() - 4 < n {
        return Err(DecodeError::Truncated);
    }
    let body = slice_subrange(b, 4, 4 + n);
    match parse_header_body(body) {
        Ok(h) => Ok((h, 4 + n)),
        Err(e) => Err(e),
    }
}

/// Decodes the record at the start of `b` and checks that it is of kind `k`.
pub fn decode_expecting(b: &[u8], k: HeaderKind) -> (r: Result<(Header, usize), DecodeError>)
    ensures
        match decode_expecting_model(b@, k) {
            Ok((h, n)) => r matches Ok((x, m)) && x@ == h && m == n,
            Err(e) => r == Err::<(Header, usize), DecodeError>(e),
        },
{
    match decode(b) {
        Ok((h, n)) => {
            let found = h.kind();
            if found == k {
                Ok((h, n))
            } else {
                Err(DecodeError::UnexpectedKind { expected: k, found })
            }
        },
        Err(e) => Err(e),
    }
}

/// A record whose length field announces `body` reads back as that body.
proof fn lemma_frame(body: Seq<u8>, tail: Seq<u8>)
    requires
        body.len() <= u32::MAX,
    ensures
        ({
            let b = le_bytes(body.len() as u32) + body + tail;
            &&& b.len() >= 4
            &&& le_value(b.take(4)) == body.len()
            &&& b.subrange(4, 4 + body.len() as int) == body
        }),
{
    let b = le_bytes(body.len() as u32) + body + tail;
    lemma_le_value(body.len() as u32);
    assert(b.take(4) =~= le_bytes(body.len() as u32));
    assert(b.subrange(4, 4 + body.len() as int) =~= body);
}

/// The body of a header parses back to that header.
proof fn lemma_parse_body(h: Header)
    requires
        record_fits(h@),
    ensures
        parse_body(body_bytes(h@)) == Ok::<HeaderModel, DecodeError>(h@),
{
    let m = h@;
    let t = kind_tag(model_kind(m));
    let payload = model_payload(m);
    let body = body_bytes(m);
    lemma_take_varint(t, payload);
    assert(body.skip(varint(t).len() as int) =~= payload);
    match h {
        Header::Name(s) => {
            let enc = encode_utf8(s@);
            lemma_take_varint(enc.len(), enc);
            assert(payload.skip(varint(enc.len()).len() as int) =~= enc);
        },
        _ => {
            let v: nat = match m {
                HeaderModel::Id(v) => v,
                HeaderModel::Size(v) => v,
                HeaderModel::Pieces(v) => v,
                HeaderModel::Checksum(v) => v,
                HeaderModel::Name(_) => 0,
            };
            assert(payload =~= varint(v) + Seq::<u8>::empty());
            lemma_take_varint(v, Seq::<u8>::empty());
        },
    }
}

/// Decoding a record gives back the header it was made from and consumes
/// exactly that record, whatever bytes follow it.
pub proof fn lemma_decode_encode(h: Header, tail: Seq<u8>)
    requires
        record_fits(h@),
    ensures
        decode_model(record_bytes(h@) + tail) == Ok::<(HeaderModel, nat), DecodeError>(
            (h@, record_bytes(h@).len()),
        ),
{
    let body = body_bytes(h@);
    lemma_frame(body, tail);
    assert(record_bytes(h@) + tail =~= le_bytes(body.len() as u32) + body + tail);
    lemma_parse_body(h);
}

/// Asking for the kind that a record holds gives its header back; asking for
/// any other kind fails and names both kinds.
pub proof fn lemma_decode_expecting(h: Header, tail: Seq<u8>, k: HeaderKind)
    requires
        record_fits(h@),
    ensures
        model_kind(h@) == k ==> decode_expecting_model(record_bytes(h@) + tail, k)
            == Ok::<(HeaderModel, nat), DecodeError>((h@, record_bytes(h@).len())),
        model_kind(h@) != k ==> decode_expecting_model(record_bytes(h@) + tail, k)
            == Err::<(HeaderModel, nat), DecodeError>(
            DecodeError::UnexpectedKind { expected: k, found: model_kind(h@) },
        ),
{
    lemma_decode_encode(h, tail);
}

/// A record whose tag names no header kind fails with that tag, and so
/// consumes nothing.
pub proof fn lemma_unknown_tag(t: u64, rest: Seq<u8>, tail: Seq<u8>)
    requires
        t > 4,
        varint(t as nat).len() + rest.len() <= u32::MAX,
    ensures
        decode_model(le_bytes((varint(t as nat).len() + rest.len()) as u32) + varint(t as nat) + rest + tail)
            == Err::<(HeaderModel, nat), DecodeError>(DecodeError::UnknownTag(t)),
{
    let body = varint(t as nat) + rest;
    lemma_frame(body, tail);
    assert(le_bytes((varint(t as nat).len() + rest.len()) as u32) + varint(t as nat) + rest + tail
        =~= le_bytes(body.len() as u32) + body + tail);
    lemma_take_varint(t as nat, rest);
}

proof fn lemma_varint_len_from(v: nat, i: nat)
    requires
        i <= 9,
        v < varint_cap(i),
    ensures
        varint(v).len() <= 10 - i,
    decreases v,
{
    if v >= 128 {
        if i == 9 {
            assert(varint_cap(9) == 2);
        }
        lemma_varint_len_from(v / 128, i + 1);
    }
}

/// A 64-bit value takes at most ten bytes.
pub proof fn lemma_varint_len(v: nat)
    requires
        v <= u64::MAX,
    ensures
        1 <= varint(v).len() <= 10,
{
    lemma_varint_cap_zero();
    lemma_varint_len_from(v, 0);
}

/// Every numeric header fits a record.
pub proof fn lemma_numeric_fits(h: Header)
    requires
        !(h is Name),
    ensures
        record_fits(h@),
        record_bytes(h@).len() <= 24,
{
    lemma_varint_len(kind_tag(model_kind(h@)));
    match h {
        Header::Id(v) => lemma_varint_len(v as nat),
        Header::Size(v) => lemma_varint_len(v as nat),
        Header::Pieces(v) => lemma_varint_len(v as nat),
        Header::Checksum(v) => lemma_varint_len(v as nat),
        Header::Name(_) => {},
    }
}

/// Relies on postcard::to_allocvec on a u64: its varint bytes. The allocating
/// output never reports an error.
#[verifier::external_body]
fn varint_bytes(v: u64) -> (r: Vec<u8>)
    ensures
        r@ == varint(v as nat),
{
    match postcard::to_allocvec(&v) {
        Ok(bytes) => bytes,
        Err(_) => Vec::new(),
    }
}

/// Relies on postcard::take_from_bytes on a u64: the value of the varint at the
/// start of `b` and the length of what follows it, or an error where the
/// bytes end first or the varint is too long for 64 bits.
#[verifier::external_body]
fn take_varint_u64(b: &[u8]) -> (r: Option<(u64, usize)>)
    ensures
        match take_varint(b@) {
            Some((v, n)) => r matches Some((x, rest)) && x as nat == v && rest == b@.len() - n,
            None => r is None,
        },
{
    match postcard::take_from_bytes::<u64>(b) {
        Ok((v, rest)) => Some((v, rest.len())),
        Err(_) => None,
    }
}

/// Relies on byteorder's LittleEndian::write_u32: the four bytes of `n`.
#[verifier::external_body]
fn le_u32_bytes(n: u32) -> (r: Vec<u8>)
    ensures
        r@ == le_bytes(n),
{
    let mut buf = vec![0u8; 4];
    byteorder::LittleEndian::write_u32(&mut buf, n);
    buf
}

/// Relies on byteorder's LittleEndian::read_u32: the number in the first four
/// bytes. It panics on fewer.
#[verifier::external_body]
fn read_le_u32(b: &[u8]) -> (r: u32)
    requires
        b@.len() >= 4,
    ensures
        r as nat == le_value(b@.take(4)),
{
    byteorder::LittleEndian::read_u32(b)
}

/// Relies on std::str::from_utf8: a string exactly when the bytes are UTF-8,
/// and then one made of those bytes.
#[verifier::external_body]
fn utf8_str(b: &[u8]) -> (r: Option<&str>)
    ensures
        r is Some <==> valid_utf8(b@),
        r matches Some(s) ==> s.spec_bytes() == b@,
{
    std::str::from_utf8(b).ok()
}

} // verus!
