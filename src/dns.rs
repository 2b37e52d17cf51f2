//! The DNS wire codec: messages to bytes and back.
use vstd::prelude::*;
use vstd::utf8::{decode_utf8, valid_utf8};

verus! {

/// The response codes that the header's 4-bit RCODE field may carry.
#[derive(Debug, Clone, Copy, PartialEq, Eq, Structural)]
pub enum RCode {
    /// The query completed successfully.
    NOERROR,
    /// The query was malformed.
    FORMERR,
    /// The server failed to complete the request.
    SERVFAIL,
    /// The domain name does not exist.
    NXDOMAIN,
    /// The function is not implemented.
    NOTIMP,
    /// The server refused to answer.
    REFUSED,
    /// A name that should not exist does exist.
    YXDOMAIN,
    /// An RRset that should not exist does exist.
    XRRSET,
    /// The server is not authoritative for the zone.
    NOTAUTH,
    /// The name is not in the zone.
    NOTZONE,
}

/// The numeric value of a response code.
pub open spec fn rcode_value(c: RCode) -> u8 {
    match c {
        RCode::NOERROR => 0,
        RCode::FORMERR => 1,
        RCode::SERVFAIL => 2,
        RCode::NXDOMAIN => 3,
        RCode::NOTIMP => 4,
        RCode::REFUSED => 5,
        RCode::YXDOMAIN => 6,
        RCode::XRRSET => 7,
        RCode::NOTAUTH => 9,
        RCode::NOTZONE => 10,
    }
}

/// The response code with a given value; `None` for the unassigned values 8 and 11 and up.
pub open spec fn rcode_of(v: u8) -> Option<RCode> {
    if v == 0 {
        Some(RCode::NOERROR)
    } else if v == 1 {
        Some(RCode::FORMERR)
    } else if v == 2 {
        Some(RCode::SERVFAIL)
    } else if v == 3 {
        Some(RCode::NXDOMAIN)
    } else if v == 4 {
        Some(RCode::NOTIMP)
    } else if v == 5 {
        Some(RCode::REFUSED)
    } else if v == 6 {
        Some(RCode::YXDOMAIN)
    } else if v == 7 {
        Some(RCode::XRRSET)
    } else if v == 9 {
        Some(RCode::NOTAUTH)
    } else if v == 10 {
        Some(RCode::NOTZONE)
    } else {
        None
    }
}

impl RCode {
    /// The 4-bit value of this code.
    pub fn to_u8(self) -> (r: u8)
        ensures
            r == rcode_value(self),
            r <= 15,
    {
        match self {
            RCode::NOERROR => 0,
            RCode::FORMERR => 1,
            RCode::SERVFAIL => 2,
            RCode::NXDOMAIN => 3,
            RCode::NOTIMP => 4,
            RCode::REFUSED => 5,
            RCode::YXDOMAIN => 6,
            RCode::XRRSET => 7,
            RCode::NOTAUTH => 9,
            RCode::NOTZONE => 10,
        }
    }

    /// The code with the given value, or `None` where the value is unassigned.
    pub fn from_u8(value: u8) -> (r: Option<RCode>)
        ensures
            r == rcode_of(value),
            r matches Some(c) ==> rcode_value(c) == value,
    {
        match value {
            0 => Some(RCode::NOERROR),
            1 => Some(RCode::FORMERR),
            2 => Some(RCode::SERVFAIL),
            3 => Some(RCode::NXDOMAIN),
            4 => Some(RCode::NOTIMP),
            5 => Some(RCode::REFUSED),
            6 => Some(RCode::YXDOMAIN),
            7 => Some(RCode::XRRSET),
            9 => Some(RCode::NOTAUTH),
            10 => Some(RCode::NOTZONE),
            _ => None,
        }
    }
}

/// Decoding a value of a code gives the code back.
pub proof fn lemma_rcode_round_trip(c: RCode)
    ensures
        rcode_of(rcode_value(c)) == Some(c),
{
}


/// Why a byte sequence is not a DNS message.
#[derive(Debug, Clone, Copy, PartialEq, Eq, Structural)]
pub enum DecodeError {
    /// A read would run past the end of the buffer.
    Truncated,
    /// A length byte is neither a label length (0 to 63) nor a pointer.
    InvalidLabelLength,
    /// The header's RCODE is an unassigned value.
    InvalidRCode,
    /// A compression pointer does not point before itself, or a name follows more
    /// pointers than the message has bytes.
    PointerLoop,
    /// The expanded name is longer than 255 octets.
    NameTooLong,
}

/// The fixed 12-byte header of a message.
#[derive(Debug, Clone, Copy, PartialEq, Eq, Structural)]
pub struct MessageHeader {
    /// Transaction id, echoed from query to response.
    pub id: u16,
    /// Query (0) or response (1).
    pub qr: u8,
    /// Kind of query, 4 bits.
    pub opcode: u8,
    /// Authoritative answer.
    pub aa: u8,
    /// Truncated.
    pub tc: u8,
    /// Recursion desired.
    pub rd: u8,
    /// Recursion available.
    pub ra: u8,
    /// Reserved, 3 bits; written as zero.
    pub z: u8,
    /// Response code.
    pub rcode: RCode,
    /// Number of questions.
    pub qdcount: u16,
    /// Number of answer records.
    pub ancount: u16,
    /// Number of authority records.
    pub nscount: u16,
    /// Number of additional records.
    pub arcount: u16,
}

/// Big-endian bytes of a 16-bit value.
pub open spec fn be16(x: u16) -> Seq<u8> {
    seq![(x / 256) as u8, (x % 256) as u8]
}

/// Big-endian bytes of a 32-bit value.
pub open spec fn be32(x: u32) -> Seq<u8> {
    be16((x / 65536) as u16) + be16((x % 65536) as u16)
}

/// The 16-bit big-endian value at `i`.
pub open spec fn u16_at(data: Seq<u8>, i: int) -> u16 {
    (data[i] * 256 + data[i + 1]) as u16
}

/// The 32-bit big-endian value at `i`.
pub open spec fn u32_at(data: Seq<u8>, i: int) -> u32 {
    (u16_at(data, i) * 65536 + u16_at(data, i + 2)) as u32
}

/// Third header byte: QR, OPCODE, AA, TC, RD.
pub open spec fn flags_high(h: MessageHeader) -> u8 {
    (h.qr << 7u8) | (h.opcode << 3u8) | (h.aa << 2u8) | (h.tc << 1u8) | h.rd
}

/// Fourth header byte: RA, a zero reserved field, RCODE.
pub open spec fn flags_low(h: MessageHeader) -> u8 {
    (h.ra << 7u8) | rcode_value(h.rcode)
}

/// The wire form of a header.
pub open spec fn header_bytes(h: MessageHeader) -> Seq<u8> {
    be16(h.id) + seq![flags_high(h), flags_low(h)] + be16(h.qdcount) + be16(h.ancount) + be16(
        h.nscount,
    ) + be16(h.arcount)
}

/// Every field fits its width on the wire, and the reserved field is zero.
pub open spec fn header_wf(h: MessageHeader) -> bool {
    h.qr <= 1 && h.opcode <= 15 && h.aa <= 1 && h.tc <= 1 && h.rd <= 1 && h.ra <= 1 && h.z == 0
}

/// The header that the first 12 bytes of `data` hold.
pub open spec fn header_from(data: Seq<u8>) -> Result<MessageHeader, DecodeError> {
    if data.len() < 12 {
        Err(DecodeError::Truncated)
    } else {
        match rcode_of(data[3] & 0x0Fu8) {
            None => Err(DecodeError::InvalidRCode),
            Some(rcode) => Ok(
                MessageHeader {
                    id: u16_at(data, 0),
                    qr: (data[2] >> 7u8) & 1u8,
                    opcode: (data[2] >> 3u8) & 0x0Fu8,
                    aa: (data[2] >> 2u8) & 1u8,
                    tc: (data[2] >> 1u8) & 1u8,
                    rd: data[2] & 1u8,
                    ra: (data[3] >> 7u8) & 1u8,
                    z: (data[3] >> 4u8) & 7u8,
                    rcode,
                    qdcount: u16_at(data, 4),
                    ancount: u16_at(data, 6),
                    nscount: u16_at(data, 8),
                    arcount: u16_at(data, 10),
                },
            ),
        }
    }
}

proof fn lemma_flag_bits(qr: u8, op: u8, aa: u8, tc: u8, rd: u8, ra: u8, rc: u8)
    by (bit_vector)
    requires
        qr <= 1,
        op <= 15,
        aa <= 1,
        tc <= 1,
        rd <= 1,
        ra <= 1,
        rc <= 15,
    ensures
        (((qr << 7u8) | (op << 3u8) | (aa << 2u8) | (tc << 1u8) | rd) >> 7u8) & 1u8 == qr,
        (((qr << 7u8) | (op << 3u8) | (aa << 2u8) | (tc << 1u8) | rd) >> 3u8) & 0x0Fu8 == op,
        (((qr << 7u8) | (op << 3u8) | (aa << 2u8) | (tc << 1u8) | rd) >> 2u8) & 1u8 == aa,
        (((qr << 7u8) | (op << 3u8) | (aa << 2u8) | (tc << 1u8) | rd) >> 1u8) & 1u8 == tc,
        ((qr << 7u8) | (op << 3u8) | (aa << 2u8) | (tc << 1u8) | rd) & 1u8 == rd,
        (((ra << 7u8) | rc) >> 7u8) & 1u8 == ra,
        (((ra << 7u8) | rc) >> 4u8) & 7u8 == 0,
        ((ra << 7u8) | rc) & 0x0Fu8 == rc,
{
}

proof fn lemma_be16(x: u16)
    ensures
        u16_at(be16(x), 0) == x,
{
}

/// Decoding the bytes of a well-formed header gives the header back.
pub proof fn lemma_header_round_trip(h: MessageHeader, rest: Seq<u8>)
    requires
        header_wf(h),
    ensures
        header_from(header_bytes(h) + rest) == Ok::<MessageHeader, DecodeError>(h),
{
    let d = header_bytes(h) + rest;
    lemma_flag_bits(h.qr, h.opcode, h.aa, h.tc, h.rd, h.ra, rcode_value(h.rcode));
    lemma_rcode_round_trip(h.rcode);
    assert(d[2] == flags_high(h));
    assert(d[3] == flags_low(h));
    assert(u16_at(d, 0) == h.id);
    assert(u16_at(d, 4) == h.qdcount);
    assert(u16_at(d, 6) == h.ancount);
    assert(u16_at(d, 8) == h.nscount);
    assert(u16_at(d, 10) == h.arcount);
}

/// Appends the big-endian bytes of `x`.
fn push_u16(out: &mut Vec<u8>, x: u16)
    ensures
        final(out)@ == old(out)@ + be16(x),
{
    out.push((x / 256) as u8);
    out.push((x % 256) as u8);
    assert(final(out)@ =~= old(out)@ + be16(x));
}

/// Appends the big-endian bytes of `x`.
fn push_u32(out: &mut Vec<u8>, x: u32)
    ensures
        final(out)@ == old(out)@ + be32(x),
{
    push_u16(out, (x / 65536) as u16);
    push_u16(out, (x % 65536) as u16);
    assert(final(out)@ =~= old(out)@ + be32(x));
}

/// The 16-bit value at `i`.
fn read_u16(data: &[u8], i: usize) -> (r: u16)
    requires
        i + 2 <= data@.len(),
    ensures
        r == u16_at(data@, i as int),
{
    (data[i] as u16) * 256 + (data[i + 1] as u16)
}

/// The 32-bit value at `i`.
fn read_u32(data: &[u8], i: usize) -> (r: u32)
    requires
        i + 4 <= data.len(),
    ensures
        r == u32_at(data@, i as int),
{
    let hi = read_u16(data, i);
    let j: usize = i + 2;
    (hi as u32) * 65536 + (read_u16(data, j) as u32)
}

impl MessageHeader {
    /// Appends the 12 bytes of this header; the reserved field is written as zero.
    pub fn serialize(&self, out: &mut Vec<u8>)
        ensures
            final(out)@ == old(out)@ + header_bytes(*self),
    {
        push_u16(out, self.id);
        let hi: u8 = (self.qr << 7u8) | (self.opcode << 3u8) | (self.aa << 2u8) | (self.tc << 1u8)
            | self.rd;
        let lo: u8 = (self.ra << 7u8) | self.rcode.to_u8();
        out.push(hi);
        out.push(lo);
        push_u16(out, self.qdcount);
        push_u16(out, self.ancount);
        push_u16(out, self.nscount);
        push_u16(out, self.arcount);
        assert(final(out)@ =~= old(out)@ + header_bytes(*self));
    }

    /// Reads a header from the first 12 bytes of `data`.
    pub fn deserialize(data: &[u8]) -> (r: Result<MessageHeader, DecodeError>)
        ensures
            r == header_from(data@),
    {
        if data.len() < 12 {
            return Err(DecodeError::Truncated);
        }
        let rcode = match RCode::from_u8(data[3] & 0x0Fu8) {
            Some(c) => c,
            None => {
                return Err(DecodeError::InvalidRCode);
            },
        };
        Ok(
            MessageHeader {
                id: read_u16(data, 0),
                qr: (data[2] >> 7u8) & 1u8,
                opcode: (data[2] >> 3u8) & 0x0Fu8,
                aa: (data[2] >> 2u8) & 1u8,
                tc: (data[2] >> 1u8) & 1u8,
                rd: data[2] & 1u8,
                ra: (data[3] >> 7u8) & 1u8,
                z: (data[3] >> 4u8) & 7u8,
                rcode,
                qdcount: read_u16(data, 4),
                ancount: read_u16(data, 6),
                nscount: read_u16(data, 8),
                arcount: read_u16(data, 10),
            },
        )
    }
}


/// The value of a pointer whose two bytes start at `pos`: the low 14 bits.
pub open spec fn pointer_at(data: Seq<u8>, pos: int) -> int {
    (data[pos] - 0xC0) * 256 + data[pos + 1]
}

/// Reads the labels of a name starting at `pos`, after `hops` compression pointers
/// were followed. `len` is the encoded length of the labels read so far. On success,
/// gives the labels and the position just past the terminator that ends the labels
/// read from `pos`: the zero byte, or a pointer. A pointer must point before its own
/// position, and a name may follow at most as many pointers as the message has
/// bytes; either breach is a `PointerLoop`, so every name read ends.
pub open spec fn name_from(data: Seq<u8>, hops: nat, pos: nat, len: nat) -> Result<
    (Seq<Seq<u8>>, nat),
    DecodeError,
>
    decreases data.len() - hops, data.len() - pos,
{
    if pos >= data.len() {
        Err(DecodeError::Truncated)
    } else {
        let b = data[pos as int];
        if b == 0 {
            Ok((Seq::empty(), pos + 1))
        } else if b >= 0xC0 {
            if pos + 1 >= data.len() {
                Err(DecodeError::Truncated)
            } else if pointer_at(data, pos as int) >= pos || hops >= data.len() {
                Err(DecodeError::PointerLoop)
            } else {
                let t = pointer_at(data, pos as int) as nat;
                match name_from(data, hops + 1, t, len) {
                    Ok((ls, _)) => Ok((ls, pos + 2)),
                    Err(e) => Err(e),
                }
            }
        } else if b > 63 {
            Err(DecodeError::InvalidLabelLength)
        } else if len + b + 2 > 255 {
            Err(DecodeError::NameTooLong)
        } else if pos + 1 + b > data.len() {
            Err(DecodeError::Truncated)
        } else {
            match name_from(data, hops, (pos + 1 + b) as nat, (len + 1 + b) as nat) {
                Ok((ls, e)) => Ok((seq![data.subrange(pos + 1int, pos + 1 + b as int)] + ls, e)),
                Err(e) => Err(e),
            }
        }
    }
}

/// The outcome of a name read whose first part gave the labels `acc` and, where a
/// pointer was followed, the end `end`, and whose rest gives `r`.
pub open spec fn name_joined(
    acc: Seq<Seq<u8>>,
    end: Option<usize>,
    r: Result<(Seq<Seq<u8>>, nat), DecodeError>,
) -> Result<(Seq<Seq<u8>>, nat), DecodeError> {
    match r {
        Ok((ls, e)) => Ok(
            (
                acc + ls,
                match end {
                    Some(x) => x as nat,
                    None => e,
                },
            ),
        ),
        Err(x) => Err(x),
    }
}

/// The labels of a name, each as its octets.
pub open spec fn labels_view(v: Seq<Vec<u8>>) -> Seq<Seq<u8>> {
    Seq::new(v.len(), |i: int| v[i]@)
}

/// Copies `data[from..to]`.
fn copy_bytes(data: &[u8], from: usize, to: usize) -> (r: Vec<u8>)
    requires
        from <= to <= data@.len(),
    ensures
        r@ == data@.subrange(from as int, to as int),
{
    let mut r: Vec<u8> = Vec::new();
    let mut i: usize = from;
    while i < to
        invariant
            from <= i <= to <= data@.len(),
            r@ == data@.subrange(from as int, i as int),
        decreases to - i,
    {
        r.push(data[i]);
        i = i + 1;
        assert(r@ =~= data@.subrange(from as int, i as int));
    }
    r
}

impl Message {
    /// Reads the name that starts at `start`: its labels and the position just past it.
    pub fn parse_qname(data: &[u8], start: usize) -> (r: Result<(Vec<Vec<u8>>, usize), DecodeError>)
        ensures
            match r {
                Ok((ls, e)) => e <= data@.len() && name_from(data@, 0, start as nat, 0)
                    == Ok::<(Seq<Seq<u8>>, nat), DecodeError>((labels_view(ls@), e as nat)),
                Err(x) => name_from(data@, 0, start as nat, 0) == Err::<
                    (Seq<Seq<u8>>, nat),
                    DecodeError,
                >(x),
            },
    {
        let mut hops: usize = 0;
        let mut pos: usize = start;
        let mut len: usize = 0;
        let mut labels: Vec<Vec<u8>> = Vec::new();
        let mut end: Option<usize> = None;
        let n = data.len();
        loop
            invariant
                hops <= n,
                len <= 255,
                n == data@.len(),
                end matches Some(x) ==> x <= data@.len(),
                name_joined(labels_view(labels@), end, name_from(data@, hops as nat, pos as nat, len as nat))
                    == name_from(data@, 0, start as nat, 0),
            decreases data@.len() - hops, data@.len() - pos,
        {
            if pos >= n {
                return Err(DecodeError::Truncated);
            }
            let b = data[pos];
            if b == 0 {
                let e = match end {
                    Some(x) => x,
                    None => pos + 1,
                };
                assert(labels_view(labels@) + Seq::<Seq<u8>>::empty() =~= labels_view(labels@));
                return Ok((labels, e));
            } else if b >= 0xC0 {
                if pos + 1 >= n {
                    return Err(DecodeError::Truncated);
                }
                let target: usize = ((b - 0xC0u8) as usize) * 256 + (data[pos + 1] as usize);
                if target >= pos || hops >= n {
                    return Err(DecodeError::PointerLoop);
                }
                if end.is_none() {
                    end = Some(pos + 2);
                }
                hops = hops + 1;
                pos = target;
            } else if b > 63 {
                return Err(DecodeError::InvalidLabelLength);
            } else {
                let l = b as usize;
                if len + l + 2 > 255 {
                    return Err(DecodeError::NameTooLong);
                }
                if l > n - pos - 1 {
                    return Err(DecodeError::Truncated);
                }
                let label = copy_bytes(data, pos + 1, pos + 1 + l);
                let ghost old_labels = labels_view(labels@);
                labels.push(label);
                assert(labels_view(labels@) =~= old_labels.push(label@));
                proof {
                    let rest = name_from(data@, hops as nat, (pos + 1 + l) as nat, (len + 1 + l) as nat);
                    if let Ok((ls, e)) = rest {
                        assert(old_labels + (seq![label@] + ls) =~= old_labels.push(label@) + ls);
                    }
                }
                len = len + 1 + l;
                pos = pos + 1 + l;
            }
        }
    }
}


/// The type of a resource record. Types this resolver does not know pass through
/// as `Other`, with their rdata kept opaque.
#[derive(Debug, Clone, Copy, PartialEq, Eq, Structural)]
pub enum RecordType {
    A,
    AAAA,
    CNAME,
    MX,
    NS,
    PTR,
    SOA,
    SRV,
    TXT,
    /// Any other type, by its value.
    Other(u16),
}

/// The numeric value of a record type.
pub open spec fn rtype_value(t: RecordType) -> u16 {
    match t {
        RecordType::A => 1,
        RecordType::NS => 2,
        RecordType::CNAME => 5,
        RecordType::SOA => 6,
        RecordType::PTR => 12,
        RecordType::MX => 15,
        RecordType::TXT => 16,
        RecordType::AAAA => 28,
        RecordType::SRV => 33,
        RecordType::Other(v) => v,
    }
}

/// The record type with a given value.
pub open spec fn rtype_of(v: u16) -> RecordType {
    if v == 1 {
        RecordType::A
    } else if v == 2 {
        RecordType::NS
    } else if v == 5 {
        RecordType::CNAME
    } else if v == 6 {
        RecordType::SOA
    } else if v == 12 {
        RecordType::PTR
    } else if v == 15 {
        RecordType::MX
    } else if v == 16 {
        RecordType::TXT
    } else if v == 28 {
        RecordType::AAAA
    } else if v == 33 {
        RecordType::SRV
    } else {
        RecordType::Other(v)
    }
}

impl RecordType {
    /// The 16-bit value of this type.
    pub fn to_u16(self) -> (r: u16)
        ensures
            r == rtype_value(self),
    {
        match self {
            RecordType::A => 1,
            RecordType::NS => 2,
            RecordType::CNAME => 5,
            RecordType::SOA => 6,
            RecordType::PTR => 12,
            RecordType::MX => 15,
            RecordType::TXT => 16,
            RecordType::AAAA => 28,
            RecordType::SRV => 33,
            RecordType::Other(v) => v,
        }
    }

    /// The type with the given value.
    pub fn from_u16(v: u16) -> (r: RecordType)
        ensures
            r == rtype_of(v),
            rtype_value(r) == v,
    {
        match v {
            1 => RecordType::A,
            2 => RecordType::NS,
            5 => RecordType::CNAME,
            6 => RecordType::SOA,
            12 => RecordType::PTR,
            15 => RecordType::MX,
            16 => RecordType::TXT,
            28 => RecordType::AAAA,
            33 => RecordType::SRV,
            _ => RecordType::Other(v),
        }
    }
}

/// A question: the name asked about, with the query type and class.
#[derive(Debug)]
pub struct Question {
    pub qname: Vec<Vec<u8>>,
    pub qtype: u16,
    pub qclass: u16,
}

/// The value of a question.
pub struct QuestionV {
    pub qname: Seq<Seq<u8>>,
    pub qtype: u16,
    pub qclass: u16,
}

impl View for Question {
    type V = QuestionV;

    open spec fn view(&self) -> QuestionV {
        QuestionV { qname: labels_view(self.qname@), qtype: self.qtype, qclass: self.qclass }
    }
}

/// A resource record, with its rdata kept as raw bytes.
#[derive(Debug)]
pub struct ResourceRecord {
    pub name: Vec<Vec<u8>>,
    pub rtype: RecordType,
    pub rclass: u16,
    pub ttl: u32,
    pub rdlength: u16,
    pub rdata: Vec<u8>,
}

/// The value of a resource record.
pub struct RecordV {
    pub name: Seq<Seq<u8>>,
    pub rtype: RecordType,
    pub rclass: u16,
    pub ttl: u32,
    pub rdlength: u16,
    pub rdata: Seq<u8>,
}

impl View for ResourceRecord {
    type V = RecordV;

    open spec fn view(&self) -> RecordV {
        RecordV {
            name: labels_view(self.name@),
            rtype: self.rtype,
            rclass: self.rclass,
            ttl: self.ttl,
            rdlength: self.rdlength,
            rdata: self.rdata@,
        }
    }
}

/// The values of a list of questions.
pub open spec fn questions_view(v: Seq<Question>) -> Seq<QuestionV> {
    Seq::new(v.len(), |i: int| v[i]@)
}

/// The values of a list of records.
pub open spec fn records_view(v: Seq<ResourceRecord>) -> Seq<RecordV> {
    Seq::new(v.len(), |i: int| v[i]@)
}

/// The encoded labels of a name, without the terminating zero.
pub open spec fn labels_bytes(n: Seq<Seq<u8>>) -> Seq<u8>
    decreases n.len(),
{
    if n.len() == 0 {
        Seq::empty()
    } else {
        labels_bytes(n.drop_last()) + seq![n.last().len() as u8] + n.last()
    }
}

/// The literal wire form of a name.
pub open spec fn name_bytes(n: Seq<Seq<u8>>) -> Seq<u8> {
    labels_bytes(n).push(0)
}

/// Each label has 1 to 63 octets, and the encoded name at most 255.
pub open spec fn name_wf(n: Seq<Seq<u8>>) -> bool {
    &&& forall|i: int| 0 <= i < n.len() ==> 1 <= #[trigger] n[i].len() <= 63
    &&& name_bytes(n).len() <= 255
}

/// The wire form of a question.
pub open spec fn question_bytes(q: QuestionV) -> Seq<u8> {
    name_bytes(q.qname) + be16(q.qtype) + be16(q.qclass)
}

/// The wire form of a list of questions.
pub open spec fn questions_bytes(qs: Seq<QuestionV>) -> Seq<u8>
    decreases qs.len(),
{
    if qs.len() == 0 {
        Seq::empty()
    } else {
        questions_bytes(qs.drop_last()) + question_bytes(qs.last())
    }
}

/// The wire form of a record.
pub open spec fn record_bytes(r: RecordV) -> Seq<u8> {
    name_bytes(r.name) + be16(rtype_value(r.rtype)) + be16(r.rclass) + be32(r.ttl) + be16(
        r.rdlength,
    ) + r.rdata
}

/// The wire form of a list of records.
pub open spec fn records_bytes(rs: Seq<RecordV>) -> Seq<u8>
    decreases rs.len(),
{
    if rs.len() == 0 {
        Seq::empty()
    } else {
        records_bytes(rs.drop_last()) + record_bytes(rs.last())
    }
}

/// A record is well formed when its name is, its rdata length is declared, and
/// its type has one form.
pub open spec fn record_wf(r: RecordV) -> bool {
    &&& name_wf(r.name)
    &&& r.rdlength == r.rdata.len()
    &&& rtype_of(rtype_value(r.rtype)) == r.rtype
}

/// A list read from the wire, after `acc` was read before it.
pub open spec fn joined<T>(acc: Seq<T>, r: Result<(Seq<T>, nat), DecodeError>) -> Result<
    (Seq<T>, nat),
    DecodeError,
> {
    match r {
        Ok((xs, e)) => Ok((acc + xs, e)),
        Err(x) => Err(x),
    }
}

/// The question at `pos`, and the position just past it.
pub open spec fn question_from(data: Seq<u8>, pos: nat) -> Result<(QuestionV, nat), DecodeError> {
    match name_from(data, 0, pos, 0) {
        Err(x) => Err(x),
        Ok((n, e)) => if e + 4 > data.len() {
            Err(DecodeError::Truncated)
        } else {
            Ok(
                (
                    QuestionV {
                        qname: n,
                        qtype: u16_at(data, e as int),
                        qclass: u16_at(data, e + 2int),
                    },
                    e + 4,
                ),
            )
        },
    }
}

/// `count` questions from `pos` on, and the position just past them.
pub open spec fn questions_from(data: Seq<u8>, pos: nat, count: nat) -> Result<
    (Seq<QuestionV>, nat),
    DecodeError,
>
    decreases count,
{
    if count == 0 {
        Ok((Seq::empty(), pos))
    } else {
        match question_from(data, pos) {
            Err(x) => Err(x),
            Ok((q, p)) => joined(seq![q], questions_from(data, p, (count - 1) as nat)),
        }
    }
}

/// The record at `pos`, and the position just past it.
pub open spec fn record_from(data: Seq<u8>, pos: nat) -> Result<(RecordV, nat), DecodeError> {
    match name_from(data, 0, pos, 0) {
        Err(x) => Err(x),
        Ok((n, e)) => if e + 10 > data.len() {
            Err(DecodeError::Truncated)
        } else if e + 10 + u16_at(data, e + 8int) > data.len() {
            Err(DecodeError::Truncated)
        } else {
            let dl = u16_at(data, e + 8int);
            Ok(
                (
                    RecordV {
                        name: n,
                        rtype: rtype_of(u16_at(data, e as int)),
                        rclass: u16_at(data, e + 2int),
                        ttl: u32_at(data, e + 4int),
                        rdlength: dl,
                        rdata: data.subrange(e + 10int, e + 10 + dl),
                    },
                    (e + 10 + dl) as nat,
                ),
            )
        },
    }
}

/// `count` records from `pos` on, and the position just past them.
pub open spec fn records_from(data: Seq<u8>, pos: nat, count: nat) -> Result<
    (Seq<RecordV>, nat),
    DecodeError,
>
    decreases count,
{
    if count == 0 {
        Ok((Seq::empty(), pos))
    } else {
        match record_from(data, pos) {
            Err(x) => Err(x),
            Ok((r, p)) => joined(seq![r], records_from(data, p, (count - 1) as nat)),
        }
    }
}

/// Copies a byte vector.
fn copy_vec(v: &Vec<u8>) -> (r: Vec<u8>)
    ensures
        r@ == v@,
{
    let r = copy_bytes(v.as_slice(), 0, v.len());
    assert(r@ =~= v@);
    r
}

/// Copies a name.
pub fn copy_labels(v: &Vec<Vec<u8>>) -> (r: Vec<Vec<u8>>)
    ensures
        labels_view(r@) == labels_view(v@),
{
    let mut r: Vec<Vec<u8>> = Vec::new();
    let mut i: usize = 0;
    while i < v.len()
        invariant
            i <= v@.len(),
            r@.len() == i,
            forall|j: int| 0 <= j < i ==> (#[trigger] r@[j])@ == v@[j]@,
        decreases v@.len() - i,
    {
        let c = copy_vec(&v[i]);
        r.push(c);
        assert(r@[i as int]@ == v@[i as int]@);
        i = i + 1;
    }
    assert(labels_view(r@) =~= labels_view(v@));
    r
}

/// Appends the bytes of `b`.
fn push_bytes(out: &mut Vec<u8>, b: &Vec<u8>)
    ensures
        final(out)@ == old(out)@ + b@,
{
    let mut i: usize = 0;
    while i < b.len()
        invariant
            i <= b@.len(),
            out@ == old(out)@ + b@.subrange(0, i as int),
        decreases b@.len() - i,
    {
        out.push(b[i]);
        i = i + 1;
        assert(out@ =~= old(out)@ + b@.subrange(0, i as int));
    }
    assert(b@.subrange(0, i as int) =~= b@);
}

/// Appends the literal wire form of a name.
pub fn write_name(out: &mut Vec<u8>, n: &Vec<Vec<u8>>)
    ensures
        final(out)@ == old(out)@ + name_bytes(labels_view(n@)),
{
    let mut i: usize = 0;
    while i < n.len()
        invariant
            i <= n@.len(),
            out@ == old(out)@ + labels_bytes(labels_view(n@.subrange(0, i as int))),
        decreases n@.len() - i,
    {
        let ghost before = out@;
        out.push(n[i].len() as u8);
        push_bytes(out, &n[i]);
        proof {
            let s = labels_view(n@.subrange(0, i + 1));
            assert(s.drop_last() =~= labels_view(n@.subrange(0, i as int)));
            assert(s.last() == n@[i as int]@);
        }
        i = i + 1;
        assert(out@ =~= old(out)@ + labels_bytes(labels_view(n@.subrange(0, i as int))));
    }
    assert(n@.subrange(0, i as int) =~= n@);
    out.push(0);
    assert(final(out)@ =~= old(out)@ + name_bytes(labels_view(n@)));
}

impl Question {
    /// Copies this question.
    pub fn copy(&self) -> (r: Question)
        ensures
            r@ == self@,
    {
        Question { qname: copy_labels(&self.qname), qtype: self.qtype, qclass: self.qclass }
    }

    /// Appends the wire form of this question.
    pub fn serialize(&self, out: &mut Vec<u8>)
        ensures
            final(out)@ == old(out)@ + question_bytes(self@),
    {
        write_name(out, &self.qname);
        push_u16(out, self.qtype);
        push_u16(out, self.qclass);
        assert(final(out)@ =~= old(out)@ + question_bytes(self@));
    }

    /// Reads the question at `start_offset`, and gives the position just past it.
    pub fn deserialize(data: &[u8], start_offset: usize) -> (r: Result<(Question, usize), DecodeError>)
        ensures
            match r {
                Ok((q, e)) => e <= data@.len() && question_from(data@, start_offset as nat) == Ok::<
                    (QuestionV, nat),
                    DecodeError,
                >((q@, e as nat)),
                Err(x) => question_from(data@, start_offset as nat) == Err::<
                    (QuestionV, nat),
                    DecodeError,
                >(x),
            },
    {
        let (qname, e) = match Message::parse_qname(data, start_offset) {
            Ok(p) => p,
            Err(x) => {
                return Err(x);
            },
        };
        if e > data.len() || data.len() - e < 4 {
            return Err(DecodeError::Truncated);
        }
        let qtype = read_u16(data, e);
        let qclass = read_u16(data, e + 2);
        Ok((Question { qname, qtype, qclass }, e + 4))
    }
}

impl ResourceRecord {
    /// Copies this record.
    pub fn copy(&self) -> (r: ResourceRecord)
        ensures
            r@ == self@,
    {
        ResourceRecord {
            name: copy_labels(&self.name),
            rtype: self.rtype,
            rclass: self.rclass,
            ttl: self.ttl,
            rdlength: self.rdlength,
            rdata: copy_vec(&self.rdata),
        }
    }

    /// Appends the wire form of this record.
    pub fn serialize(&self, out: &mut Vec<u8>)
        ensures
            final(out)@ == old(out)@ + record_bytes(self@),
    {
        write_name(out, &self.name);
        push_u16(out, self.rtype.to_u16());
        push_u16(out, self.rclass);
        push_u32(out, self.ttl);
        push_u16(out, self.rdlength);
        push_bytes(out, &self.rdata);
        assert(final(out)@ =~= old(out)@ + record_bytes(self@));
    }

    /// Reads the record at `start_offset`, and gives the position just past it.
    pub fn deserialize(data: &[u8], start_offset: usize) -> (r: Result<(ResourceRecord, usize), DecodeError>)
        ensures
            match r {
                Ok((x, e)) => e <= data@.len() && record_from(data@, start_offset as nat) == Ok::<
                    (RecordV, nat),
                    DecodeError,
                >((x@, e as nat)),
                Err(x) => record_from(data@, start_offset as nat) == Err::<(RecordV, nat), DecodeError>(
                    x,
                ),
            },
    {
        let (name, e) = match Message::parse_qname(data, start_offset) {
            Ok(p) => p,
            Err(x) => {
                return Err(x);
            },
        };
        if e > data.len() || data.len() - e < 10 {
            return Err(DecodeError::Truncated);
        }
        let rdlength = read_u16(data, e + 8);
        if data.len() - e - 10 < rdlength as usize {
            return Err(DecodeError::Truncated);
        }
        let t = read_u16(data, e);
        let rclass = read_u16(data, e + 2);
        let ttl = read_u32(data, e + 4);
        let end = e + 10 + rdlength as usize;
        let rdata = copy_bytes(data, e + 10, end);
        Ok((ResourceRecord { name, rtype: RecordType::from_u16(t), rclass, ttl, rdlength, rdata }, end))
    }
}


/// A DNS message.
#[derive(Debug)]
pub struct Message {
    pub header: MessageHeader,
    /// Whether the encoder may use name compression; this encoder always writes
    /// names literally, and a decoded message has it unset.
    pub compress: bool,
    pub question: Vec<Question>,
    pub answer: Vec<ResourceRecord>,
    pub authority: Vec<ResourceRecord>,
    pub extra: Vec<ResourceRecord>,
}

/// The value of a message.
pub struct MessageV {
    pub header: MessageHeader,
    pub compress: bool,
    pub question: Seq<QuestionV>,
    pub answer: Seq<RecordV>,
    pub authority: Seq<RecordV>,
    pub extra: Seq<RecordV>,
}

impl View for Message {
    type V = MessageV;

    open spec fn view(&self) -> MessageV {
        MessageV {
            header: self.header,
            compress: self.compress,
            question: questions_view(self.question@),
            answer: records_view(self.answer@),
            authority: records_view(self.authority@),
            extra: records_view(self.extra@),
        }
    }
}

/// A message framed for TCP: its length as two big-endian bytes, then the message.
/// A message longer than 65535 bytes has no frame.
pub fn tcp_frame(msg: &Vec<u8>) -> (r: Option<Vec<u8>>)
    ensures
        msg@.len() > 65535 ==> r is None,
        msg@.len() <= 65535 ==> (r matches Some(f) && f@ == be16(msg@.len() as u16) + msg@),
{
    if msg.len() > 65535 {
        return None;
    }
    let mut out: Vec<u8> = Vec::new();
    push_u16(&mut out, msg.len() as u16);
    push_bytes(&mut out, msg);
    Some(out)
}

/// The length of the message that follows a TCP frame's two-byte prefix.
pub fn tcp_frame_len(prefix: &[u8]) -> (r: usize)
    requires
        prefix@.len() == 2,
    ensures
        r == u16_at(prefix@, 0),
{
    read_u16(prefix, 0) as usize
}

/// The value of a message that may be absent.
pub open spec fn message_opt_view(r: Option<Message>) -> Option<MessageV> {
    match r {
        Some(m) => Some(m@),
        None => None,
    }
}

/// The header of `m` with its four counts set to the lengths of the sections.
pub open spec fn counted_header(m: MessageV) -> MessageHeader {
    MessageHeader {
        qdcount: m.question.len() as u16,
        ancount: m.answer.len() as u16,
        nscount: m.authority.len() as u16,
        arcount: m.extra.len() as u16,
        ..m.header
    }
}

/// The wire form of a message: header, with each count the length of its section, then the four sections in order.
pub open spec fn message_bytes(m: MessageV) -> Seq<u8> {
    header_bytes(counted_header(m)) + questions_bytes(m.question) + records_bytes(m.answer) + records_bytes(
        m.authority,
    ) + records_bytes(m.extra)
}

/// A well-formed message: a header whose fields fit, counts equal to the section
/// lengths, and well-formed names and records.
pub open spec fn message_wf(m: MessageV) -> bool {
    &&& header_wf(m.header)
    &&& m.header.qdcount == m.question.len()
    &&& m.header.ancount == m.answer.len()
    &&& m.header.nscount == m.authority.len()
    &&& m.header.arcount == m.extra.len()
    &&& forall|i: int| 0 <= i < m.question.len() ==> name_wf(#[trigger] m.question[i].qname)
    &&& forall|i: int| 0 <= i < m.answer.len() ==> record_wf(#[trigger] m.answer[i])
    &&& forall|i: int| 0 <= i < m.authority.len() ==> record_wf(#[trigger] m.authority[i])
    &&& forall|i: int| 0 <= i < m.extra.len() ==> record_wf(#[trigger] m.extra[i])
}

/// The message that `data` holds. Bytes after the last record are ignored.
pub open spec fn message_from(data: Seq<u8>) -> Result<MessageV, DecodeError> {
    match header_from(data) {
        Err(x) => Err(x),
        Ok(h) => match questions_from(data, 12, h.qdcount as nat) {
            Err(x) => Err(x),
            Ok((qs, an_at)) => match records_from(data, an_at, h.ancount as nat) {
                Err(x) => Err(x),
                Ok((an, ns_at)) => match records_from(data, ns_at, h.nscount as nat) {
                    Err(x) => Err(x),
                    Ok((ns, ar_at)) => match records_from(data, ar_at, h.arcount as nat) {
                        Err(x) => Err(x),
                        Ok((ar, _)) => Ok(
                            MessageV {
                                header: h,
                                compress: false,
                                question: qs,
                                answer: an,
                                authority: ns,
                                extra: ar,
                            },
                        ),
                    },
                },
            },
        },
    }
}

/// The response header for a request header: id, opcode and RD copied, QR set.
pub open spec fn response_header(req: MessageHeader, aa: u8, ra: u8, rcode: RCode, ancount: u16) -> MessageHeader {
    MessageHeader {
        id: req.id,
        qr: 1,
        opcode: req.opcode,
        aa,
        tc: 0,
        rd: req.rd,
        ra,
        z: 0,
        rcode,
        qdcount: req.qdcount,
        ancount,
        nscount: 0,
        arcount: 0,
    }
}

/// The reply that the resolver itself gives to `req` with code `rcode`: authoritative,
/// recursion available, the question echoed, no records.
pub open spec fn reply_view(req: MessageV, rcode: RCode) -> MessageV {
    MessageV {
        header: response_header(req.header, 1, 1, rcode, 0),
        compress: false,
        question: req.question,
        answer: Seq::empty(),
        authority: Seq::empty(),
        extra: Seq::empty(),
    }
}

/// An answer that came from elsewhere (an upstream server, or the cache), as
/// relayed to a client: the request's transaction id, and not authoritative.
pub open spec fn relayed(m: MessageV, id: u16) -> MessageV {
    MessageV { header: MessageHeader { id, aa: 0, ..m.header }, ..m }
}

/// The smallest TTL among some records.
pub open spec fn min_ttl(rs: Seq<RecordV>) -> u32
    decreases rs.len(),
{
    if rs.len() <= 1 {
        if rs.len() == 1 {
            rs[0].ttl
        } else {
            0
        }
    } else if rs.last().ttl < min_ttl(rs.drop_last()) {
        rs.last().ttl
    } else {
        min_ttl(rs.drop_last())
    }
}

/// The smallest TTL among the answer records of `m`, if it has any.
pub fn answer_min_ttl(m: &Message) -> (r: Option<u32>)
    ensures
        m@.answer.len() == 0 ==> r is None,
        m@.answer.len() > 0 ==> r == Some(min_ttl(m@.answer)),
{
    if m.answer.len() == 0 {
        return None;
    }
    let mut best: u32 = m.answer[0].ttl;
    let mut i: usize = 1;
    while i < m.answer.len()
        invariant
            1 <= i <= m.answer@.len(),
            best == min_ttl(records_view(m.answer@).subrange(0, i as int)),
        decreases m.answer@.len() - i,
    {
        proof {
            let s = records_view(m.answer@).subrange(0, i + 1);
            assert(s.drop_last() =~= records_view(m.answer@).subrange(0, i as int));
        }
        if m.answer[i].ttl < best {
            best = m.answer[i].ttl;
        }
        i = i + 1;
    }
    assert(records_view(m.answer@).subrange(0, i as int) =~= m@.answer);
    Some(best)
}

/// Reads `count` questions from `start` on.
fn parse_questions(data: &[u8], start: usize, count: u16) -> (r: Result<(Vec<Question>, usize), DecodeError>)
    requires
        start <= data@.len(),
    ensures
        match r {
            Ok((qs, e)) => e <= data@.len() && questions_from(data@, start as nat, count as nat)
                == Ok::<(Seq<QuestionV>, nat), DecodeError>((questions_view(qs@), e as nat)),
            Err(x) => questions_from(data@, start as nat, count as nat) == Err::<
                (Seq<QuestionV>, nat),
                DecodeError,
            >(x),
        },
{
    let mut qs: Vec<Question> = Vec::new();
    let mut pos = start;
    let mut i: u16 = 0;
    assert(questions_view(qs@) + Seq::<QuestionV>::empty() =~= questions_view(qs@));
    while i < count
        invariant
            i <= count,
            pos <= data@.len(),
            joined(questions_view(qs@), questions_from(data@, pos as nat, (count - i) as nat))
                == questions_from(data@, start as nat, count as nat),
        decreases count - i,
    {
        let (q, e) = match Question::deserialize(data, pos) {
            Ok(p) => p,
            Err(x) => {
                return Err(x);
            },
        };
        let ghost before = questions_view(qs@);
        proof {
            let rest = questions_from(data@, e as nat, (count - i - 1) as nat);
            if let Ok((xs, f)) = rest {
                assert(before + (seq![q@] + xs) =~= before.push(q@) + xs);
            }
        }
        qs.push(q);
        assert(questions_view(qs@) =~= before.push(q@));
        pos = e;
        i = i + 1;
    }
    assert(questions_view(qs@) + Seq::<QuestionV>::empty() =~= questions_view(qs@));
    Ok((qs, pos))
}

/// Reads `count` records from `start` on.
fn parse_records(data: &[u8], start: usize, count: u16) -> (r: Result<(Vec<ResourceRecord>, usize), DecodeError>)
    requires
        start <= data@.len(),
    ensures
        match r {
            Ok((rs, e)) => e <= data@.len() && records_from(data@, start as nat, count as nat)
                == Ok::<(Seq<RecordV>, nat), DecodeError>((records_view(rs@), e as nat)),
            Err(x) => records_from(data@, start as nat, count as nat) == Err::<
                (Seq<RecordV>, nat),
                DecodeError,
            >(x),
        },
{
    let mut rs: Vec<ResourceRecord> = Vec::new();
    let mut pos = start;
    let mut i: u16 = 0;
    assert(records_view(rs@) + Seq::<RecordV>::empty() =~= records_view(rs@));
    while i < count
        invariant
            i <= count,
            pos <= data@.len(),
            joined(records_view(rs@), records_from(data@, pos as nat, (count - i) as nat))
                == records_from(data@, start as nat, count as nat),
        decreases count - i,
    {
        let (x, e) = match ResourceRecord::deserialize(data, pos) {
            Ok(p) => p,
            Err(y) => {
                return Err(y);
            },
        };
        let ghost before = records_view(rs@);
        proof {
            let rest = records_from(data@, e as nat, (count - i - 1) as nat);
            if let Ok((xs, f)) = rest {
                assert(before + (seq![x@] + xs) =~= before.push(x@) + xs);
            }
        }
        rs.push(x);
        assert(records_view(rs@) =~= before.push(x@));
        pos = e;
        i = i + 1;
    }
    assert(records_view(rs@) + Seq::<RecordV>::empty() =~= records_view(rs@));
    Ok((rs, pos))
}

/// Copies a list of questions.
fn copy_questions(v: &Vec<Question>) -> (r: Vec<Question>)
    ensures
        questions_view(r@) == questions_view(v@),
{
    let mut r: Vec<Question> = Vec::new();
    let mut i: usize = 0;
    while i < v.len()
        invariant
            i <= v@.len(),
            r@.len() == i,
            forall|j: int| 0 <= j < i ==> (#[trigger] r@[j])@ == v@[j]@,
        decreases v@.len() - i,
    {
        let c = v[i].copy();
        r.push(c);
        i = i + 1;
    }
    assert(questions_view(r@) =~= questions_view(v@));
    r
}

/// Copies a list of records.
fn copy_records(v: &Vec<ResourceRecord>) -> (r: Vec<ResourceRecord>)
    ensures
        records_view(r@) == records_view(v@),
{
    let mut r: Vec<ResourceRecord> = Vec::new();
    let mut i: usize = 0;
    while i < v.len()
        invariant
            i <= v@.len(),
            r@.len() == i,
            forall|j: int| 0 <= j < i ==> (#[trigger] r@[j])@ == v@[j]@,
        decreases v@.len() - i,
    {
        let c = v[i].copy();
        r.push(c);
        i = i + 1;
    }
    assert(records_view(r@) =~= records_view(v@));
    r
}

/// Appends the wire form of each question.
fn write_questions(out: &mut Vec<u8>, v: &Vec<Question>)
    ensures
        final(out)@ == old(out)@ + questions_bytes(questions_view(v@)),
{
    let mut i: usize = 0;
    while i < v.len()
        invariant
            i <= v@.len(),
            out@ == old(out)@ + questions_bytes(questions_view(v@.subrange(0, i as int))),
        decreases v@.len() - i,
    {
        v[i].serialize(out);
        proof {
            let s = questions_view(v@.subrange(0, i + 1));
            assert(s.drop_last() =~= questions_view(v@.subrange(0, i as int)));
        }
        i = i + 1;
        assert(out@ =~= old(out)@ + questions_bytes(questions_view(v@.subrange(0, i as int))));
    }
    assert(v@.subrange(0, i as int) =~= v@);
}

/// Appends the wire form of each record.
fn write_records(out: &mut Vec<u8>, v: &Vec<ResourceRecord>)
    ensures
        final(out)@ == old(out)@ + records_bytes(records_view(v@)),
{
    let mut i: usize = 0;
    while i < v.len()
        invariant
            i <= v@.len(),
            out@ == old(out)@ + records_bytes(records_view(v@.subrange(0, i as int))),
        decreases v@.len() - i,
    {
        v[i].serialize(out);
        proof {
            let s = records_view(v@.subrange(0, i + 1));
            assert(s.drop_last() =~= records_view(v@.subrange(0, i as int)));
        }
        i = i + 1;
        assert(out@ =~= old(out)@ + records_bytes(records_view(v@.subrange(0, i as int))));
    }
    assert(v@.subrange(0, i as int) =~= v@);
}


/// A name written with dots between its labels.
pub open spec fn dotted(n: Seq<Seq<u8>>) -> Seq<u8>
    decreases n.len(),
{
    if n.len() == 0 {
        Seq::empty()
    } else if n.len() == 1 {
        n[0]
    } else {
        dotted(n.drop_last()) + seq![46u8] + n.last()
    }
}

/// Writes a name with dots between its labels.
pub fn dotted_name(n: &Vec<Vec<u8>>) -> (r: Vec<u8>)
    ensures
        r@ == dotted(labels_view(n@)),
{
    let mut out: Vec<u8> = Vec::new();
    let mut i: usize = 0;
    while i < n.len()
        invariant
            i <= n@.len(),
            out@ == dotted(labels_view(n@.subrange(0, i as int))),
        decreases n@.len() - i,
    {
        if i > 0 {
            out.push(46u8);
        }
        push_bytes(&mut out, &n[i]);
        proof {
            let s = labels_view(n@.subrange(0, i + 1));
            assert(s.drop_last() =~= labels_view(n@.subrange(0, i as int)));
            assert(s.last() == n@[i as int]@);
            if i == 0 {
                assert(out@ =~= s[0]);
            }
        }
        i = i + 1;
    }
    assert(n@.subrange(0, i as int) =~= n@);
    out
}

/// What `String::from_utf8_lossy` makes of some bytes.
pub uninterp spec fn utf8_lossy_of(b: Seq<u8>) -> Seq<char>;

/// Relies on `String::from_utf8_lossy`: the text of the bytes, with each invalid
/// sequence replaced; valid UTF-8 comes back as the characters it encodes.
#[verifier::external_body]
fn text_of(b: &Vec<u8>) -> (r: String)
    ensures
        r@ == utf8_lossy_of(b@),
        valid_utf8(b@) ==> r@ == decode_utf8(b@),
{
    String::from_utf8_lossy(b).into_owned()
}

impl Message {
    /// A reply to `request`: id, opcode, RD and the question section copied, QR set,
    /// not authoritative, no records.
    pub fn new(request: &Message) -> (r: Message)
        ensures
            r@ == (MessageV {
                header: response_header(request.header, 0, 0, RCode::NOERROR, 0),
                compress: false,
                question: request@.question,
                answer: Seq::empty(),
                authority: Seq::empty(),
                extra: Seq::empty(),
            }),
    {
        let r = Message {
            header: MessageHeader {
                id: request.header.id,
                qr: 1,
                opcode: request.header.opcode,
                aa: 0,
                tc: 0,
                rd: request.header.rd,
                ra: 0,
                z: 0,
                rcode: RCode::NOERROR,
                qdcount: request.header.qdcount,
                ancount: 0,
                nscount: 0,
                arcount: 0,
            },
            compress: false,
            question: copy_questions(&request.question),
            answer: Vec::new(),
            authority: Vec::new(),
            extra: Vec::new(),
        };
        assert(r@.answer =~= Seq::<RecordV>::empty());
        assert(r@.authority =~= Seq::<RecordV>::empty());
        assert(r@.extra =~= Seq::<RecordV>::empty());
        r
    }

    /// The NXDOMAIN reply to `request`: as `new`, but authoritative, with recursion
    /// available and RCODE NXDOMAIN, echoing the question.
    pub fn new_not_found_response(request: &Message) -> (r: Message)
        ensures
            r@ == reply_view(request@, RCode::NXDOMAIN),
    {
        let r = Message {
            header: MessageHeader {
                id: request.header.id,
                qr: 1,
                opcode: request.header.opcode,
                aa: 1,
                tc: 0,
                rd: request.header.rd,
                ra: 1,
                z: 0,
                rcode: RCode::NXDOMAIN,
                qdcount: request.header.qdcount,
                ancount: 0,
                nscount: 0,
                arcount: 0,
            },
            compress: false,
            question: copy_questions(&request.question),
            answer: Vec::new(),
            authority: Vec::new(),
            extra: Vec::new(),
        };
        assert(r@.answer =~= Seq::<RecordV>::empty());
        assert(r@.authority =~= Seq::<RecordV>::empty());
        assert(r@.extra =~= Seq::<RecordV>::empty());
        r
    }

    /// The REFUSED reply to `request`: as `new_not_found_response`, with RCODE REFUSED.
    pub fn new_refused_response(request: &Message) -> (r: Message)
        ensures
            r@ == reply_view(request@, RCode::REFUSED),
    {
        let mut r = Message::new_not_found_response(request);
        r.header.rcode = RCode::REFUSED;
        r
    }

    /// Copies this message.
    pub fn copy(&self) -> (r: Message)
        ensures
            r@ == self@,
    {
        Message {
            header: self.header,
            compress: self.compress,
            question: copy_questions(&self.question),
            answer: copy_records(&self.answer),
            authority: copy_records(&self.authority),
            extra: copy_records(&self.extra),
        }
    }

    /// The wire form of this message, with every name written literally. The
    /// header's four counts are written as the lengths of the sections, whatever
    /// the stored counts say.
    pub fn serialize(&self) -> (r: Vec<u8>)
        requires
            self@.question.len() <= 65535,
            self@.answer.len() <= 65535,
            self@.authority.len() <= 65535,
            self@.extra.len() <= 65535,
        ensures
            r@ == message_bytes(self@),
            u16_at(r@, 4) == self@.question.len(),
            u16_at(r@, 6) == self@.answer.len(),
            u16_at(r@, 8) == self@.authority.len(),
            u16_at(r@, 10) == self@.extra.len(),
    {
        let mut out: Vec<u8> = Vec::new();
        let mut h = self.header;
        h.qdcount = self.question.len() as u16;
        h.ancount = self.answer.len() as u16;
        h.nscount = self.authority.len() as u16;
        h.arcount = self.extra.len() as u16;
        assert(h == counted_header(self@));
        h.serialize(&mut out);
        proof {
            let hb = header_bytes(h);
            assert(out@ =~= hb);
            lemma_be16(h.qdcount);
            lemma_be16(h.ancount);
            lemma_be16(h.nscount);
            lemma_be16(h.arcount);
            assert(hb[4] == be16(h.qdcount)[0] && hb[5] == be16(h.qdcount)[1]);
            assert(hb[6] == be16(h.ancount)[0] && hb[7] == be16(h.ancount)[1]);
            assert(hb[8] == be16(h.nscount)[0] && hb[9] == be16(h.nscount)[1]);
            assert(hb[10] == be16(h.arcount)[0] && hb[11] == be16(h.arcount)[1]);
        }
        let ghost head = out@;
        write_questions(&mut out, &self.question);
        write_records(&mut out, &self.answer);
        write_records(&mut out, &self.authority);
        write_records(&mut out, &self.extra);
        assert(out@ =~= message_bytes(self@));
        assert forall|i: int| 0 <= i < 12 implies out@[i] == head[i] by {
            assert(out@ =~= head + (questions_bytes(self@.question) + records_bytes(self@.answer)
                + records_bytes(self@.authority) + records_bytes(self@.extra)));
        }
        out
    }

    /// Reads a message from `data`. Fails, without panicking, on any input that is
    /// not a message: a short or cut buffer, a bad label length, an unassigned
    /// RCODE, a looping pointer or an overlong name.
    pub fn deserialize(data: &[u8]) -> (r: Result<Message, DecodeError>)
        ensures
            match r {
                Ok(m) => message_from(data@) == Ok::<MessageV, DecodeError>(m@),
                Err(x) => message_from(data@) == Err::<MessageV, DecodeError>(x),
            },
    {
        let header = match MessageHeader::deserialize(data) {
            Ok(h) => h,
            Err(x) => {
                return Err(x);
            },
        };
        let (question, an_at) = match parse_questions(data, 12, header.qdcount) {
            Ok(p) => p,
            Err(x) => {
                return Err(x);
            },
        };
        let (answer, ns_at) = match parse_records(data, an_at, header.ancount) {
            Ok(p) => p,
            Err(x) => {
                return Err(x);
            },
        };
        let (authority, ar_at) = match parse_records(data, ns_at, header.nscount) {
            Ok(p) => p,
            Err(x) => {
                return Err(x);
            },
        };
        let (extra, _) = match parse_records(data, ar_at, header.arcount) {
            Ok(p) => p,
            Err(x) => {
                return Err(x);
            },
        };
        Ok(Message { header, compress: false, question, answer, authority, extra })
    }

    /// The number of questions.
    pub fn question_count(&self) -> (r: usize)
        ensures
            r == self@.question.len(),
    {
        self.question.len()
    }

    /// The first question's name with dots between its labels, as text; a
    /// message without questions gives `default_value`.
    pub fn qname_to_string(&self) -> (r: String)
        ensures
            self@.question.len() == 0 ==> r@ == "default_value"@,
            self@.question.len() > 0 ==> r@ == utf8_lossy_of(dotted(self@.question[0].qname)),
            self@.question.len() > 0 && valid_utf8(dotted(self@.question[0].qname)) ==> r@ == decode_utf8(
                dotted(self@.question[0].qname),
            ),
    {
        if self.question.len() == 0 {
            return "default_value".to_owned();
        }
        let b = dotted_name(&self.question[0].qname);
        text_of(&b)
    }
}


proof fn lemma_labels_front(n: Seq<Seq<u8>>)
    requires
        n.len() > 0,
    ensures
        labels_bytes(n) == seq![n[0].len() as u8] + n[0] + labels_bytes(n.drop_first()),
    decreases n.len(),
{
    if n.len() == 1 {
        assert(n.drop_last() =~= Seq::<Seq<u8>>::empty());
        assert(n.drop_first() =~= Seq::<Seq<u8>>::empty());
        assert(labels_bytes(n) =~= seq![n[0].len() as u8] + n[0] + labels_bytes(n.drop_first()));
    } else {
        lemma_labels_front(n.drop_last());
        assert(n.drop_last().drop_first() =~= n.drop_first().drop_last());
        assert(n.drop_first().last() == n.last());
        assert(labels_bytes(n) =~= seq![n[0].len() as u8] + n[0] + labels_bytes(n.drop_first()));
    }
}

proof fn lemma_name_parse(data: Seq<u8>, hops: nat, pos: nat, len: nat, n: Seq<Seq<u8>>)
    requires
        forall|i: int| 0 <= i < n.len() ==> 1 <= #[trigger] n[i].len() <= 63,
        len + name_bytes(n).len() <= 255,
        pos + name_bytes(n).len() <= data.len(),
        data.subrange(pos as int, (pos + name_bytes(n).len()) as int) == name_bytes(n),
    ensures
        name_from(data, hops, pos, len) == Ok::<(Seq<Seq<u8>>, nat), DecodeError>(
            (n, pos + name_bytes(n).len()),
        ),
    decreases n.len(),
{
    let l = name_bytes(n).len();
    assert(data[pos as int] == data.subrange(pos as int, (pos + l) as int)[0]);
    if n.len() == 0 {
        assert(name_bytes(n) =~= seq![0u8]);
        assert(n =~= Seq::<Seq<u8>>::empty());
    } else {
        lemma_labels_front(n);
        let b = n[0].len();
        let rest = n.drop_first();
        assert(name_bytes(n) =~= seq![b as u8] + (n[0] + name_bytes(rest)));
        lemma_split(data, pos as int, seq![b as u8], n[0] + name_bytes(rest));
        lemma_split(data, pos + 1int, n[0], name_bytes(rest));
        assert(data[pos as int] == b);
        assert forall|i: int| 0 <= i < rest.len() implies 1 <= #[trigger] rest[i].len() <= 63 by {
            assert(rest[i] == n[i + 1]);
        }
        lemma_name_parse(data, hops, (pos + 1 + b) as nat, (len + 1 + b) as nat, rest);
        assert(seq![n[0]] + rest =~= n);
    }
}

proof fn lemma_questions_front(qs: Seq<QuestionV>)
    requires
        qs.len() > 0,
    ensures
        questions_bytes(qs) == question_bytes(qs[0]) + questions_bytes(qs.drop_first()),
    decreases qs.len(),
{
    if qs.len() == 1 {
        assert(qs.drop_last() =~= Seq::<QuestionV>::empty());
        assert(qs.drop_first() =~= Seq::<QuestionV>::empty());
        assert(questions_bytes(qs) =~= question_bytes(qs[0]) + questions_bytes(qs.drop_first()));
    } else {
        lemma_questions_front(qs.drop_last());
        assert(qs.drop_last().drop_first() =~= qs.drop_first().drop_last());
        assert(qs.drop_first().last() == qs.last());
        assert(questions_bytes(qs) =~= question_bytes(qs[0]) + questions_bytes(qs.drop_first()));
    }
}

proof fn lemma_records_front(rs: Seq<RecordV>)
    requires
        rs.len() > 0,
    ensures
        records_bytes(rs) == record_bytes(rs[0]) + records_bytes(rs.drop_first()),
    decreases rs.len(),
{
    if rs.len() == 1 {
        assert(rs.drop_last() =~= Seq::<RecordV>::empty());
        assert(rs.drop_first() =~= Seq::<RecordV>::empty());
        assert(records_bytes(rs) =~= record_bytes(rs[0]) + records_bytes(rs.drop_first()));
    } else {
        lemma_records_front(rs.drop_last());
        assert(rs.drop_last().drop_first() =~= rs.drop_first().drop_last());
        assert(rs.drop_first().last() == rs.last());
        assert(records_bytes(rs) =~= record_bytes(rs[0]) + records_bytes(rs.drop_first()));
    }
}

proof fn lemma_split(data: Seq<u8>, pos: int, a: Seq<u8>, b: Seq<u8>)
    requires
        0 <= pos,
        pos + a.len() + b.len() <= data.len(),
        data.subrange(pos, pos + a.len() + b.len()) == a + b,
    ensures
        data.subrange(pos, pos + a.len()) == a,
        data.subrange(pos + a.len(), pos + a.len() + b.len()) == b,
{
    let w = data.subrange(pos, pos + a.len() + b.len());
    assert forall|k: int| 0 <= k < a.len() implies data[pos + k] == a[k] by {
        assert(w[k] == data[pos + k]);
        assert((a + b)[k] == a[k]);
    }
    assert forall|k: int| 0 <= k < b.len() implies data[pos + a.len() + k] == b[k] by {
        assert(w[a.len() + k] == data[pos + a.len() + k]);
        assert((a + b)[a.len() + k] == b[k]);
    }
    assert(data.subrange(pos, pos + a.len()) =~= a);
    assert(data.subrange(pos + a.len(), pos + a.len() + b.len()) =~= b);
}

/// A well-formed question whose encoding stands at `pos` decodes to itself,
/// ending just past its encoding, whatever bytes surround it.
pub proof fn lemma_question_parse(data: Seq<u8>, pos: nat, q: QuestionV)
    requires
        name_wf(q.qname),
        pos + question_bytes(q).len() <= data.len(),
        data.subrange(pos as int, (pos + question_bytes(q).len()) as int) == question_bytes(q),
    ensures
        question_from(data, pos) == Ok::<(QuestionV, nat), DecodeError>(
            (q, pos + question_bytes(q).len()),
        ),
{
    let nb = name_bytes(q.qname);
    let fixed = be16(q.qtype) + be16(q.qclass);
    assert(question_bytes(q) =~= nb + fixed);
    lemma_split(data, pos as int, nb, fixed);
    lemma_name_parse(data, 0, pos, 0, q.qname);
    let e = (pos + nb.len()) as int;
    let w = data.subrange(e, e + 4);
    assert(w[0] == data[e] && w[1] == data[e + 1] && w[2] == data[e + 2] && w[3] == data[e + 3]);
    lemma_be16(q.qtype);
    lemma_be16(q.qclass);
    assert(data[e] == be16(q.qtype)[0] && data[e + 1] == be16(q.qtype)[1]);
    assert(data[e + 2] == be16(q.qclass)[0] && data[e + 3] == be16(q.qclass)[1]);
    assert(u16_at(data, e) == q.qtype);
    assert(u16_at(data, e + 2) == q.qclass);
}

proof fn lemma_questions_parse(data: Seq<u8>, pos: nat, qs: Seq<QuestionV>)
    requires
        forall|i: int| 0 <= i < qs.len() ==> name_wf(#[trigger] qs[i].qname),
        pos + questions_bytes(qs).len() <= data.len(),
        data.subrange(pos as int, (pos + questions_bytes(qs).len()) as int) == questions_bytes(qs),
    ensures
        questions_from(data, pos, qs.len()) == Ok::<(Seq<QuestionV>, nat), DecodeError>(
            (qs, pos + questions_bytes(qs).len()),
        ),
    decreases qs.len(),
{
    if qs.len() > 0 {
        lemma_questions_front(qs);
        let rest = qs.drop_first();
        let ql = question_bytes(qs[0]).len();
        assert(name_wf(qs[0].qname));
        lemma_split(data, pos as int, question_bytes(qs[0]), questions_bytes(rest));
        lemma_question_parse(data, pos, qs[0]);
        assert forall|i: int| 0 <= i < rest.len() implies name_wf(#[trigger] rest[i].qname) by {
            assert(rest[i] == qs[i + 1]);
        }
        lemma_questions_parse(data, (pos + ql) as nat, rest);
        assert(seq![qs[0]] + rest =~= qs);
        assert((qs.len() - 1) as nat == rest.len());
    } else {
        assert(qs =~= Seq::<QuestionV>::empty());
    }
}

proof fn lemma_be32(x: u32)
    ensures
        u32_at(be32(x), 0) == x,
{
    lemma_be16((x / 65536) as u16);
    lemma_be16((x % 65536) as u16);
    assert(u16_at(be32(x), 0) == (x / 65536) as u16);
    assert(u16_at(be32(x), 2) == (x % 65536) as u16);
}

proof fn lemma_record_parse(data: Seq<u8>, pos: nat, r: RecordV)
    requires
        record_wf(r),
        pos + record_bytes(r).len() <= data.len(),
        data.subrange(pos as int, (pos + record_bytes(r).len()) as int) == record_bytes(r),
    ensures
        record_from(data, pos) == Ok::<(RecordV, nat), DecodeError>((r, pos + record_bytes(r).len())),
{
    let nb = name_bytes(r.name);
    let fixed = be16(rtype_value(r.rtype)) + be16(r.rclass) + be32(r.ttl) + be16(r.rdlength);
    assert(record_bytes(r) =~= nb + (fixed + r.rdata));
    lemma_split(data, pos as int, nb, fixed + r.rdata);
    lemma_name_parse(data, 0, pos, 0, r.name);
    let e = (pos + nb.len()) as int;
    lemma_split(data, e, fixed, r.rdata);
    let w = data.subrange(e, e + 10);
    assert(w[0] == data[e] && w[1] == data[e + 1] && w[2] == data[e + 2] && w[3] == data[e + 3]);
    assert(w[4] == data[e + 4] && w[5] == data[e + 5] && w[6] == data[e + 6] && w[7] == data[e + 7]);
    assert(w[8] == data[e + 8] && w[9] == data[e + 9]);
    lemma_be16(rtype_value(r.rtype));
    lemma_be16(r.rclass);
    lemma_be16(r.rdlength);
    lemma_be32(r.ttl);
    let t = be32(r.ttl);
    let ty = be16(rtype_value(r.rtype));
    let c = be16(r.rclass);
    let dl = be16(r.rdlength);
    assert(data[e] == ty[0] && data[e + 1] == ty[1]);
    assert(data[e + 2] == c[0] && data[e + 3] == c[1]);
    assert(data[e + 4] == t[0] && data[e + 5] == t[1] && data[e + 6] == t[2] && data[e + 7] == t[3]);
    assert(data[e + 8] == dl[0] && data[e + 9] == dl[1]);
    assert(u32_at(data, e + 4) == u32_at(t, 0));
}

proof fn lemma_records_parse(data: Seq<u8>, pos: nat, rs: Seq<RecordV>)
    requires
        forall|i: int| 0 <= i < rs.len() ==> record_wf(#[trigger] rs[i]),
        pos + records_bytes(rs).len() <= data.len(),
        data.subrange(pos as int, (pos + records_bytes(rs).len()) as int) == records_bytes(rs),
    ensures
        records_from(data, pos, rs.len()) == Ok::<(Seq<RecordV>, nat), DecodeError>(
            (rs, pos + records_bytes(rs).len()),
        ),
    decreases rs.len(),
{
    if rs.len() > 0 {
        lemma_records_front(rs);
        let rest = rs.drop_first();
        let rl = record_bytes(rs[0]).len();
        assert(record_wf(rs[0]));
        lemma_split(data, pos as int, record_bytes(rs[0]), records_bytes(rest));
        lemma_record_parse(data, pos, rs[0]);
        assert forall|i: int| 0 <= i < rest.len() implies record_wf(#[trigger] rest[i]) by {
            assert(rest[i] == rs[i + 1]);
        }
        lemma_records_parse(data, (pos + rl) as nat, rest);
        assert(seq![rs[0]] + rest =~= rs);
        assert((rs.len() - 1) as nat == rest.len());
    } else {
        assert(rs =~= Seq::<RecordV>::empty());
    }
}

proof fn lemma_message_layout(m: MessageV)
    ensures
        ({
            let d = message_bytes(m);
            let an_at: int = 12int + questions_bytes(m.question).len();
            let ns_at: int = an_at + records_bytes(m.answer).len();
            let ar_at: int = ns_at + records_bytes(m.authority).len();
            &&& d.len() == ar_at + records_bytes(m.extra).len()
            &&& d =~= header_bytes(counted_header(m)) + d.subrange(12, d.len() as int)
            &&& d.subrange(12, an_at) == questions_bytes(m.question)
            &&& d.subrange(an_at, ns_at) == records_bytes(m.answer)
            &&& d.subrange(ns_at, ar_at) == records_bytes(m.authority)
            &&& d.subrange(ar_at, d.len() as int) == records_bytes(m.extra)
        }),
{
    let d = message_bytes(m);
    let hb = header_bytes(counted_header(m));
    let qb = questions_bytes(m.question);
    let ab = records_bytes(m.answer);
    let nb = records_bytes(m.authority);
    let xb = records_bytes(m.extra);
    let x2 = hb + qb;
    let x3 = x2 + ab;
    let x4 = x3 + nb;
    assert(hb.len() == 12);
    assert(d == x4 + xb);
    assert(d.subrange(0, d.len() as int) =~= d);
    lemma_split(d, 0, x4, xb);
    lemma_split(d, 0, x3, nb);
    lemma_split(d, 0, x2, ab);
    lemma_split(d, 0, hb, qb);
    assert(d =~= hb + d.subrange(12, d.len() as int));
}

/// Decoding the encoding of a well-formed message gives the message back, with
/// the compression flag unset: names and records survive structurally.
pub proof fn lemma_round_trip(m: MessageV)
    requires
        message_wf(m),
    ensures
        message_from(message_bytes(m)) == Ok::<MessageV, DecodeError>(MessageV { compress: false, ..m }),
{
    assert(counted_header(m) == m.header);
    lemma_message_layout(m);
    let d = message_bytes(m);
    let an_at: nat = 12 + questions_bytes(m.question).len();
    let ns_at: nat = an_at + records_bytes(m.answer).len();
    let ar_at: nat = ns_at + records_bytes(m.authority).len();
    lemma_header_round_trip(m.header, d.subrange(12, d.len() as int));
    lemma_questions_parse(d, 12, m.question);
    lemma_records_parse(d, an_at, m.answer);
    lemma_records_parse(d, ns_at, m.authority);
    lemma_records_parse(d, ar_at, m.extra);
}

proof fn lemma_name_prefix(data: Seq<u8>, k: nat, hops: nat, pos: nat, len: nat, n: Seq<Seq<u8>>)
    requires
        forall|i: int| 0 <= i < n.len() ==> 1 <= #[trigger] n[i].len() <= 63,
        len + name_bytes(n).len() <= 255,
        pos + name_bytes(n).len() <= data.len(),
        data.subrange(pos as int, (pos + name_bytes(n).len()) as int) == name_bytes(n),
        pos <= k < pos + name_bytes(n).len(),
    ensures
        name_from(data.take(k as int), hops, pos, len) == Err::<(Seq<Seq<u8>>, nat), DecodeError>(
            DecodeError::Truncated,
        ),
    decreases n.len(),
{
    let d = data.take(k as int);
    let l = name_bytes(n).len();
    if k > pos {
        assert(d[pos as int] == data[pos as int]);
        assert(data[pos as int] == data.subrange(pos as int, (pos + l) as int)[0]);
        if n.len() == 0 {
            assert(name_bytes(n) =~= seq![0u8]);
        } else {
            lemma_labels_front(n);
            let b = n[0].len();
            let rest = n.drop_first();
            assert(name_bytes(n) =~= seq![b as u8] + (n[0] + name_bytes(rest)));
            lemma_split(data, pos as int, seq![b as u8], n[0] + name_bytes(rest));
            lemma_split(data, pos + 1int, n[0], name_bytes(rest));
            assert(data[pos as int] == b);
            if k >= pos + 1 + b {
                assert forall|i: int| 0 <= i < rest.len() implies 1 <= #[trigger] rest[i].len() <= 63 by {
                    assert(rest[i] == n[i + 1]);
                }
                lemma_name_prefix(data, k, hops, (pos + 1 + b) as nat, (len + 1 + b) as nat, rest);
            }
        }
    }
}

/// A question whose encoding is cut short, at any point, by the end of the
/// data is refused as truncated.
pub proof fn lemma_question_prefix(data: Seq<u8>, k: nat, pos: nat, q: QuestionV)
    requires
        name_wf(q.qname),
        pos + question_bytes(q).len() <= data.len(),
        data.subrange(pos as int, (pos + question_bytes(q).len()) as int) == question_bytes(q),
        pos <= k < pos + question_bytes(q).len(),
    ensures
        question_from(data.take(k as int), pos) == Err::<(QuestionV, nat), DecodeError>(
            DecodeError::Truncated,
        ),
{
    let d = data.take(k as int);
    let nb = name_bytes(q.qname);
    let fixed = be16(q.qtype) + be16(q.qclass);
    assert(question_bytes(q) =~= nb + fixed);
    lemma_split(data, pos as int, nb, fixed);
    if k < pos + nb.len() {
        lemma_name_prefix(data, k, 0, pos, 0, q.qname);
    } else {
        assert(d.subrange(pos as int, (pos + nb.len()) as int) =~= data.subrange(
            pos as int,
            (pos + nb.len()) as int,
        ));
        lemma_name_parse(d, 0, pos, 0, q.qname);
    }
}

proof fn lemma_questions_prefix(data: Seq<u8>, k: nat, pos: nat, qs: Seq<QuestionV>)
    requires
        forall|i: int| 0 <= i < qs.len() ==> name_wf(#[trigger] qs[i].qname),
        pos + questions_bytes(qs).len() <= data.len(),
        data.subrange(pos as int, (pos + questions_bytes(qs).len()) as int) == questions_bytes(qs),
        pos <= k < pos + questions_bytes(qs).len(),
    ensures
        questions_from(data.take(k as int), pos, qs.len()) == Err::<(Seq<QuestionV>, nat), DecodeError>(
            DecodeError::Truncated,
        ),
    decreases qs.len(),
{
    let d = data.take(k as int);
    if qs.len() > 0 {
        lemma_questions_front(qs);
        let rest = qs.drop_first();
        let ql = question_bytes(qs[0]).len();
        assert(name_wf(qs[0].qname));
        lemma_split(data, pos as int, question_bytes(qs[0]), questions_bytes(rest));
        if k < pos + ql {
            lemma_question_prefix(data, k, pos, qs[0]);
        } else {
            assert(d.subrange(pos as int, (pos + ql) as int) =~= data.subrange(
                pos as int,
                (pos + ql) as int,
            ));
            lemma_question_parse(d, pos, qs[0]);
            assert forall|i: int| 0 <= i < rest.len() implies name_wf(#[trigger] rest[i].qname) by {
                assert(rest[i] == qs[i + 1]);
            }
            lemma_questions_prefix(data, k, (pos + ql) as nat, rest);
        }
    }
}

proof fn lemma_record_prefix(data: Seq<u8>, k: nat, pos: nat, r: RecordV)
    requires
        record_wf(r),
        pos + record_bytes(r).len() <= data.len(),
        data.subrange(pos as int, (pos + record_bytes(r).len()) as int) == record_bytes(r),
        pos <= k < pos + record_bytes(r).len(),
    ensures
        record_from(data.take(k as int), pos) == Err::<(RecordV, nat), DecodeError>(
            DecodeError::Truncated,
        ),
{
    let d = data.take(k as int);
    let nb = name_bytes(r.name);
    let fixed = be16(rtype_value(r.rtype)) + be16(r.rclass) + be32(r.ttl) + be16(r.rdlength);
    assert(record_bytes(r) =~= nb + (fixed + r.rdata));
    lemma_split(data, pos as int, nb, fixed + r.rdata);
    let e = (pos + nb.len()) as int;
    lemma_split(data, e, fixed, r.rdata);
    if k < pos + nb.len() {
        lemma_name_prefix(data, k, 0, pos, 0, r.name);
    } else {
        assert(d.subrange(pos as int, e) =~= data.subrange(pos as int, e));
        lemma_name_parse(d, 0, pos, 0, r.name);
        if k >= e + 10 {
            let w = data.subrange(e, e + 10);
            assert(w[8] == data[e + 8] && w[9] == data[e + 9]);
            assert(d[e + 8] == data[e + 8] && d[e + 9] == data[e + 9]);
            let dl = be16(r.rdlength);
            assert(data[e + 8] == dl[0] && data[e + 9] == dl[1]);
            lemma_be16(r.rdlength);
            assert(u16_at(d, e + 8) == r.rdlength);
        }
    }
}

proof fn lemma_records_prefix(data: Seq<u8>, k: nat, pos: nat, rs: Seq<RecordV>)
    requires
        forall|i: int| 0 <= i < rs.len() ==> record_wf(#[trigger] rs[i]),
        pos + records_bytes(rs).len() <= data.len(),
        data.subrange(pos as int, (pos + records_bytes(rs).len()) as int) == records_bytes(rs),
        pos <= k < pos + records_bytes(rs).len(),
    ensures
        records_from(data.take(k as int), pos, rs.len()) == Err::<(Seq<RecordV>, nat), DecodeError>(
            DecodeError::Truncated,
        ),
    decreases rs.len(),
{
    let d = data.take(k as int);
    if rs.len() > 0 {
        lemma_records_front(rs);
        let rest = rs.drop_first();
        let rl = record_bytes(rs[0]).len();
        assert(record_wf(rs[0]));
        lemma_split(data, pos as int, record_bytes(rs[0]), records_bytes(rest));
        if k < pos + rl {
            lemma_record_prefix(data, k, pos, rs[0]);
        } else {
            assert(d.subrange(pos as int, (pos + rl) as int) =~= data.subrange(
                pos as int,
                (pos + rl) as int,
            ));
            lemma_record_parse(d, pos, rs[0]);
            assert forall|i: int| 0 <= i < rest.len() implies record_wf(#[trigger] rest[i]) by {
                assert(rest[i] == rs[i + 1]);
            }
            lemma_records_prefix(data, k, (pos + rl) as nat, rest);
        }
    }
}

/// Every strict prefix of the encoding of a well-formed message is refused as
/// truncated: a cut message is never taken for a shorter one.
pub proof fn lemma_prefix_truncated(m: MessageV, k: nat)
    requires
        message_wf(m),
        k < message_bytes(m).len(),
    ensures
        message_from(message_bytes(m).take(k as int)) == Err::<MessageV, DecodeError>(
            DecodeError::Truncated,
        ),
{
    assert(counted_header(m) == m.header);
    lemma_message_layout(m);
    let d = message_bytes(m);
    let t = d.take(k as int);
    let an_at: nat = 12 + questions_bytes(m.question).len();
    let ns_at: nat = an_at + records_bytes(m.answer).len();
    let ar_at: nat = ns_at + records_bytes(m.authority).len();
    if k >= 12 {
        let hb = header_bytes(m.header);
        assert(hb.len() == 12);
        assert forall|i: int| 0 <= i < 12 implies t[i] == hb[i] by {
            assert(d[i] == (hb + d.subrange(12, d.len() as int))[i]);
        }
        assert(t =~= hb + t.subrange(12, k as int));
        lemma_header_round_trip(m.header, t.subrange(12, k as int));
        if k < an_at {
            lemma_questions_prefix(d, k, 12, m.question);
        } else {
            assert(t.subrange(12, an_at as int) =~= d.subrange(12, an_at as int));
            lemma_questions_parse(t, 12, m.question);
            if k < ns_at {
                lemma_records_prefix(d, k, an_at, m.answer);
            } else {
                assert(t.subrange(an_at as int, ns_at as int) =~= d.subrange(an_at as int, ns_at as int));
                lemma_records_parse(t, an_at, m.answer);
                if k < ar_at {
                    lemma_records_prefix(d, k, ns_at, m.authority);
                } else {
                    assert(t.subrange(ns_at as int, ar_at as int) =~= d.subrange(ns_at as int, ar_at as int));
                    lemma_records_parse(t, ns_at, m.authority);
                    assert(d.subrange(ar_at as int, (ar_at + records_bytes(m.extra).len()) as int) =~= d.subrange(
                        ar_at as int,
                        d.len() as int,
                    ));
                    lemma_records_prefix(d, k, ar_at, m.extra);
                }
            }
        }
    }
}

/// A compression pointer that points at itself, or anywhere after itself, is
/// refused as a loop.
pub proof fn lemma_pointer_loop_refused(data: Seq<u8>, hops: nat, pos: nat, len: nat)
    requires
        pos + 1 < data.len(),
        data[pos as int] >= 0xC0,
        pointer_at(data, pos as int) >= pos,
    ensures
        name_from(data, hops, pos, len) == Err::<(Seq<Seq<u8>>, nat), DecodeError>(
            DecodeError::PointerLoop,
        ),
{
}

/// A name that would follow more compression pointers than the message has bytes
/// is refused as a loop: a chain of backward pointers that returns to a place it
/// has read goes round until this bound, or the bound on a name's length, stops it.
pub proof fn lemma_pointer_chase_capped(data: Seq<u8>, hops: nat, pos: nat, len: nat)
    requires
        pos + 1 < data.len(),
        data[pos as int] >= 0xC0,
        hops >= data.len(),
    ensures
        name_from(data, hops, pos, len) == Err::<(Seq<Seq<u8>>, nat), DecodeError>(
            DecodeError::PointerLoop,
        ),
{
}

proof fn lemma_labels_walk(data: Seq<u8>, hops: nat, pos: nat, len: nat, ls: Seq<Seq<u8>>)
    requires
        forall|i: int| 0 <= i < ls.len() ==> 1 <= #[trigger] ls[i].len() <= 63,
        pos + labels_bytes(ls).len() <= data.len(),
        data.subrange(pos as int, (pos + labels_bytes(ls).len()) as int) == labels_bytes(ls),
    ensures
        name_from(data, hops, pos, len) is Ok ==> name_from(
            data,
            hops,
            (pos + labels_bytes(ls).len()) as nat,
            (len + labels_bytes(ls).len()) as nat,
        ) is Ok,
    decreases ls.len(),
{
    if ls.len() > 0 {
        lemma_labels_front(ls);
        let b = ls[0].len();
        let rest = ls.drop_first();
        assert(labels_bytes(ls) =~= seq![b as u8] + (ls[0] + labels_bytes(rest)));
        lemma_split(data, pos as int, seq![b as u8], ls[0] + labels_bytes(rest));
        lemma_split(data, pos + 1int, ls[0], labels_bytes(rest));
        assert(data[pos as int] == data.subrange(pos as int, (pos + 1) as int)[0]);
        assert(data[pos as int] == b);
        assert forall|i: int| 0 <= i < rest.len() implies 1 <= #[trigger] rest[i].len() <= 63 by {
            assert(rest[i] == ls[i + 1]);
        }
        lemma_labels_walk(data, hops, (pos + 1 + b) as nat, (len + 1 + b) as nat, rest);
    } else {
        assert(labels_bytes(ls).len() == 0);
    }
}

/// A backward pointer cycle never decodes: where the labels `ls` read from `t`
/// lead, with no terminator, to a pointer back to `t`, reading a name from `t`
/// fails, whatever the pointers already followed and the length already read.
pub proof fn lemma_backward_cycle_refused(
    data: Seq<u8>,
    hops: nat,
    len: nat,
    t: nat,
    ls: Seq<Seq<u8>>,
)
    requires
        forall|i: int| 0 <= i < ls.len() ==> 1 <= #[trigger] ls[i].len() <= 63,
        ls.len() > 0,
        t + labels_bytes(ls).len() + 1 < data.len(),
        data.subrange(t as int, (t + labels_bytes(ls).len()) as int) == labels_bytes(ls),
        data[(t + labels_bytes(ls).len()) as int] >= 0xC0,
        pointer_at(data, (t + labels_bytes(ls).len()) as int) == t,
    ensures
        name_from(data, hops, t, len) is Err,
    decreases data.len() - hops,
{
    let l = labels_bytes(ls).len();
    lemma_labels_front(ls);
    lemma_labels_walk(data, hops, t, len, ls);
    if hops < data.len() {
        lemma_backward_cycle_refused(data, hops + 1, (len + l) as nat, t, ls);
    }
}

/// Fewer than 12 bytes never make a message: decoding them reports truncation.
pub proof fn lemma_short_input_truncated(data: Seq<u8>)
    requires
        data.len() < 12,
    ensures
        message_from(data) == Err::<MessageV, DecodeError>(DecodeError::Truncated),
{
}

} // verus!
