//! Payloads and keys: typed byte strings that are consumed through a cursor.
use vstd::prelude::*;
use vstd::slice::slice_to_vec;
use vstd::utf8::encode_utf8;
use crate::layout::le16;

verus! {

/// The closed set of types a key or payload can have.
#[derive(PartialEq, Eq, Structural, PartialOrd, Ord, Clone, Copy, Debug)]
pub enum PayloadType {
    Str,
    U32,
    U16,
    I64,
    U8,
}

/// The byte that stands for a payload type inside a record.
pub open spec fn spec_tag(t: PayloadType) -> u8 {
    match t {
        PayloadType::Str => 1,
        PayloadType::U32 => 2,
        PayloadType::U16 => 3,
        PayloadType::I64 => 4,
        PayloadType::U8 => 5,
    }
}

/// The payload type that a byte stands for, if it stands for one.
pub open spec fn spec_from_tag(tag: u8) -> Option<PayloadType> {
    if tag == 1 {
        Some(PayloadType::Str)
    } else if tag == 2 {
        Some(PayloadType::U32)
    } else if tag == 3 {
        Some(PayloadType::U16)
    } else if tag == 4 {
        Some(PayloadType::I64)
    } else if tag == 5 {
        Some(PayloadType::U8)
    } else {
        None
    }
}

/// Every payload type is found again from its tag.
pub proof fn lemma_tag_round_trip(t: PayloadType)
    ensures
        spec_from_tag(spec_tag(t)) == Some(t),
        1 <= spec_tag(t) <= 5,
{
}

impl PayloadType {
    /// The byte written into a record for this type.
    pub fn tag(self) -> (t: u8)
        ensures
            t == spec_tag(self),
    {
        match self {
            PayloadType::Str => 1,
            PayloadType::U32 => 2,
            PayloadType::U16 => 3,
            PayloadType::I64 => 4,
            PayloadType::U8 => 5,
        }
    }

    /// Reads a type back from its byte; `None` for a byte outside the set.
    pub fn from_tag(tag: u8) -> (t: Option<PayloadType>)
        ensures
            t == spec_from_tag(tag),
    {
        if tag == 1 {
            Some(PayloadType::Str)
        } else if tag == 2 {
            Some(PayloadType::U32)
        } else if tag == 3 {
            Some(PayloadType::U16)
        } else if tag == 4 {
            Some(PayloadType::I64)
        } else if tag == 5 {
            Some(PayloadType::U8)
        } else {
            None
        }
    }
}

/// The `n` low-order bytes of `v`, least significant first.
pub open spec fn le_bytes(v: nat, n: nat) -> Seq<u8>
    decreases n,
{
    if n == 0 {
        Seq::empty()
    } else {
        seq![(v % 256) as u8] + le_bytes(v / 256, (n - 1) as nat)
    }
}

/// The number whose 64-bit pattern is the two's complement of `v`.
pub open spec fn twos_complement_64(v: i64) -> nat {
    if v >= 0 {
        v as nat
    } else {
        (v + 0x1_0000_0000_0000_0000) as nat
    }
}

/// Two bytes of a number below 65536 are its 16-bit little-endian form.
pub proof fn lemma_le_bytes_two(v: nat)
    requires
        v <= u16::MAX,
    ensures
        le_bytes(v, 2) == le16(v as int),
{
    reveal_with_fuel(le_bytes, 3);
    assert(le_bytes(v, 2) =~= le16(v as int));
}

/// The `n` low-order bytes of `v`, least significant first.
pub fn to_le_vec(v: u64, n: usize) -> (out: Vec<u8>)
    ensures
        out@ == le_bytes(v as nat, n as nat),
{
    let mut out: Vec<u8> = Vec::new();
    let mut cur: u64 = v;
    let mut i: usize = 0;
    while i < n
        invariant
            i <= n,
            out@.len() == i,
            out@ + le_bytes(cur as nat, (n - i) as nat) == le_bytes(v as nat, n as nat),
        decreases n - i,
    {
        proof {
            let rest = le_bytes((cur / 256) as nat, (n - i - 1) as nat);
            assert(le_bytes(cur as nat, (n - i) as nat) == seq![(cur % 256) as u8] + rest);
            assert(out@.push((cur % 256) as u8) + rest =~= out@ + (seq![(cur % 256) as u8]
                + rest));
        }
        out.push((cur % 256) as u8);
        cur = cur / 256;
        i += 1;
    }
    proof {
        assert(out@ + le_bytes(cur as nat, 0) =~= out@);
    }
    out
}

/// A typed byte string with a read position. Reading hands out the bytes
/// behind the position and moves it forward.
#[derive(Clone, Debug)]
pub struct Payload {
    buffer: Vec<u8>,
    cursor_pos: usize,
    payload_type: PayloadType,
}

/// A key is a payload; keys are strings.
pub type Key = Payload;

impl Payload {
    /// All bytes of the payload, read or not.
    pub closed spec fn spec_buffer(&self) -> Seq<u8> {
        self.buffer@
    }

    /// How many bytes have been read.
    pub closed spec fn spec_cursor(&self) -> int {
        self.cursor_pos as int
    }

    /// The type the bytes are to be read as.
    pub closed spec fn spec_type(&self) -> PayloadType {
        self.payload_type
    }

    /// The read position lies inside the payload.
    pub open spec fn wf(&self) -> bool {
        0 <= self.spec_cursor() <= self.spec_buffer().len()
    }

    /// The bytes that have not been read yet.
    pub open spec fn remaining(&self) -> Seq<u8> {
        self.spec_buffer().skip(self.spec_cursor())
    }

    /// How many bytes have not been read yet.
    pub open spec fn spec_len(&self) -> int {
        self.spec_buffer().len() - self.spec_cursor()
    }

    /// This payload after `n` more bytes have been read.
    pub open spec fn advanced(&self, other: &Payload, n: int) -> bool {
        &&& other.spec_buffer() == self.spec_buffer()
        &&& other.spec_cursor() == self.spec_cursor() + n
        &&& other.spec_type() == self.spec_type()
    }

    /// The type the bytes are to be read as.
    pub fn payload_type(&self) -> (t: PayloadType)
        ensures
            t == self.spec_type(),
    {
        self.payload_type
    }

    pub fn to_bytes(&self) -> (bytes: &Vec<u8>)
        ensures
            bytes@ == self.spec_buffer(),
    {
        &self.buffer
    }

    /// Converts a String object into a Payload instance.
    pub fn from_str(payload: String) -> (p: Self)
        ensures
            p.wf(),
            p.spec_cursor() == 0,
            p.spec_buffer() == encode_utf8(payload@),
            p.spec_type() == PayloadType::Str,
    {
        let bytes = slice_to_vec(payload.as_str().as_bytes());
        Payload { buffer: bytes, cursor_pos: 0, payload_type: PayloadType::Str }
    }

    /// Converts a u32 integer into a Payload instance.
    pub fn from_u32(payload: u32) -> (p: Self)
        ensures
            p.wf(),
            p.spec_cursor() == 0,
            p.spec_buffer() == le_bytes(payload as nat, 4),
            p.spec_type() == PayloadType::U32,
    {
        Payload {
            buffer: to_le_vec(payload as u64, 4),
            cursor_pos: 0,
            payload_type: PayloadType::U32,
        }
    }

    /// Converts a u16 integer into a Payload instance.
    pub fn from_u16(payload: u16) -> (p: Self)
        ensures
            p.wf(),
            p.spec_cursor() == 0,
            p.spec_buffer() == le16(payload as int),
            p.spec_type() == PayloadType::U16,
    {
        proof {
            lemma_le_bytes_two(payload as nat);
        }
        Payload {
            buffer: to_le_vec(payload as u64, 2),
            cursor_pos: 0,
            payload_type: PayloadType::U16,
        }
    }

    /// Converts a i64 integer into a Payload instance.
    pub fn from_i64(payload: i64) -> (p: Self)
        ensures
            p.wf(),
            p.spec_cursor() == 0,
            p.spec_buffer() == le_bytes(twos_complement_64(payload), 8),
            p.spec_type() == PayloadType::I64,
    {
        let pattern: u64 = if payload >= 0 {
            payload as u64
        } else {
            ((payload + i64::MAX) + 1) as u64 + 0x8000_0000_0000_0000u64
        };
        Payload { buffer: to_le_vec(pattern, 8), cursor_pos: 0, payload_type: PayloadType::I64 }
    }

    pub fn from_buffer(buffer: &[u8], payload_type: PayloadType) -> (p: Self)
        ensures
            p.wf(),
            p.spec_cursor() == 0,
            p.spec_buffer() == buffer@,
            p.spec_type() == payload_type,
    {
        Payload { buffer: slice_to_vec(buffer), cursor_pos: 0, payload_type }
    }

    /// Number of bytes that are left to read.
    pub fn len(&self) -> (n: usize)
        requires
            self.wf(),
        ensures
            n == self.spec_len(),
    {
        self.buffer.len() - self.cursor_pos
    }

    /// Fills `buf` with the next bytes and moves the read position behind
    /// them; returns the new read position. Nothing happens once the payload
    /// is exhausted. A `buf` longer than what is left of a payload that is
    /// not exhausted is not accepted.
    pub fn read(&mut self, buf: &mut [u8]) -> (pos: usize)
        requires
            old(self).wf(),
            old(buf)@.len() <= old(self).spec_len() || old(self).spec_len() == 0,
        ensures
            final(self).wf(),
            old(self).spec_len() > 0 ==> old(self).advanced(final(self), old(buf)@.len() as int)
                && final(buf)@ == old(self).remaining().take(old(buf)@.len() as int),
            old(self).spec_len() == 0 ==> old(self).advanced(final(self), 0) && final(buf)@
                == old(buf)@,
            pos == final(self).spec_cursor(),
    {
        let left = self.buffer.len() - self.cursor_pos;
        let available = if buf.len() < left {
            buf.len()
        } else {
            left
        };
        if available == 0 {
            proof {
                assert(old(self).remaining().take(0) =~= Seq::<u8>::empty());
                assert(buf@.len() == 0 ==> buf@ =~= Seq::<u8>::empty());
            }
            return self.cursor_pos;
        }
        let start = self.cursor_pos;
        let mut i: usize = 0;
        while i < available
            invariant
                i <= available,
                available == buf@.len(),
                buf@.len() == old(buf)@.len(),
                start + available <= self.buffer.len(),
                start == self.cursor_pos,
                *self == *old(self),
                forall|j: int| 0 <= j < i ==> buf@[j] == self.buffer@[start + j],
            decreases available - i,
        {
            buf[i] = self.buffer[start + i];
            i += 1;
        }
        self.cursor_pos = self.cursor_pos + available;
        proof {
            assert(buf@ =~= old(self).remaining().take(available as int));
        }
        self.cursor_pos
    }
}

} // verus!
