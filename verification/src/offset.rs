//! Offsets into a page and the conversions between values and their
//! little-endian bytes.
use vstd::prelude::*;
use vstd::slice::slice_to_vec;
use vstd::string::StringSliceAdditionalSpecFns;
use crate::errors::InvalidPageOffsetError;
use crate::layout::le16;
use crate::types::{le_bytes, lemma_le_bytes_two, to_le_vec};

verus! {

/// An offset into a page.
#[derive(Debug, Copy, Clone, Eq, PartialEq, Structural, PartialOrd, Hash, Ord)]
pub struct OffsetType<T>(pub T);

/// A 16-bit offset, which reaches every byte of a page.
#[allow(non_camel_case_types)]
pub type o16 = OffsetType<u16>;

impl OffsetType<u16> {
    /// The offset with the given value, which must fit sixteen bits.
    pub fn of(value: i32) -> (offset: o16)
        requires
            0 <= value <= u16::MAX,
        ensures
            offset.0 == value,
    {
        OffsetType(value as u16)
    }
}

/// The 16-bit offset with the given value.
pub fn o16(value: u16) -> (offset: o16)
    ensures
        offset.0 == value,
{
    OffsetType(value)
}

impl TryFrom<usize> for OffsetType<u16> {
    type Error = InvalidPageOffsetError;

    fn try_from(value: usize) -> (res: Result<Self, InvalidPageOffsetError>) {
        if value > u16::MAX as usize {
            Err(InvalidPageOffsetError::OutOfRange)
        } else {
            Ok(OffsetType(value as u16))
        }
    }
}

impl vstd::std_specs::convert::TryFromSpecImpl<usize> for OffsetType<u16> {
    open spec fn obeys_try_from_spec() -> bool {
        true
    }

    open spec fn try_from_spec(value: usize) -> Result<Self, InvalidPageOffsetError> {
        if value > u16::MAX as usize {
            Err(InvalidPageOffsetError::OutOfRange)
        } else {
            Ok(OffsetType(value as u16))
        }
    }
}

impl core::ops::Sub for OffsetType<u16> {
    type Output = OffsetType<u16>;

    fn sub(self, rhs: Self) -> (difference: Self::Output) {
        OffsetType(self.0 - rhs.0)
    }
}

impl vstd::std_specs::ops::SubSpecImpl for OffsetType<u16> {
    open spec fn obeys_sub_spec() -> bool {
        true
    }

    open spec fn sub_req(self, rhs: Self) -> bool {
        self.0 >= rhs.0
    }

    open spec fn sub_spec(self, rhs: Self) -> Self::Output {
        OffsetType((self.0 - rhs.0) as u16)
    }
}

impl core::ops::Add for OffsetType<u16> {
    type Output = OffsetType<u16>;

    fn add(self, rhs: Self) -> (sum: Self::Output) {
        OffsetType(self.0 + rhs.0)
    }
}

impl vstd::std_specs::ops::AddSpecImpl for OffsetType<u16> {
    open spec fn obeys_add_spec() -> bool {
        true
    }

    open spec fn add_req(self, rhs: Self) -> bool {
        self.0 + rhs.0 <= u16::MAX
    }

    open spec fn add_spec(self, rhs: Self) -> Self::Output {
        OffsetType((self.0 + rhs.0) as u16)
    }
}

impl core::ops::Add<i32> for OffsetType<u16> {
    type Output = OffsetType<u16>;

    fn add(self, rhs: i32) -> (sum: Self::Output) {
        let right_value: u16 = rhs as u16;
        OffsetType::<u16>(self.0 + right_value)
    }
}

impl vstd::std_specs::ops::AddSpecImpl<i32> for OffsetType<u16> {
    open spec fn obeys_add_spec() -> bool {
        true
    }

    open spec fn add_req(self, rhs: i32) -> bool {
        0 <= rhs && self.0 + rhs <= u16::MAX
    }

    open spec fn add_spec(self, rhs: i32) -> Self::Output {
        OffsetType((self.0 + rhs) as u16)
    }
}

impl TryFrom<OffsetType<u16>> for usize {
    type Error = core::convert::Infallible;

    fn try_from(value: OffsetType<u16>) -> (res: Result<Self, core::convert::Infallible>) {
        Ok(value.0 as usize)
    }
}

impl vstd::std_specs::convert::TryFromSpecImpl<OffsetType<u16>> for usize {
    open spec fn obeys_try_from_spec() -> bool {
        true
    }

    open spec fn try_from_spec(value: OffsetType<u16>) -> Result<Self, core::convert::Infallible> {
        Ok(value.0 as usize)
    }
}

/// A value that has a little-endian byte form.
pub trait ToLeBytes {
    /// The bytes of the value, least significant first.
    spec fn spec_le_bytes(&self) -> Seq<u8>;

    fn to_le_bytes_vec(&self) -> (out: Vec<u8>)
        ensures
            out@ == self.spec_le_bytes(),
    ;
}

/// A value that can stand in a record as a payload.
pub trait PagePayload {
    /// The bytes that stand for the value in a record.
    spec fn spec_payload_bytes(&self) -> Seq<u8>;

    fn to_le_bytes(&self) -> (out: Vec<u8>)
        ensures
            out@ == self.spec_payload_bytes(),
    ;

    fn len(&self) -> (n: usize)
        ensures
            n == self.spec_payload_bytes().len(),
    ;
}

/// A value that can be read back from its little-endian bytes.
pub trait FromLeBytes: Sized {
    /// How many bytes a value takes.
    spec fn spec_width() -> nat;

    /// The value that the bytes stand for.
    spec fn spec_from_bytes(bytes: Seq<u8>) -> Self;

    fn from_bytes(bytes: Vec<u8>) -> (value: Self)
        requires
            bytes@.len() == Self::spec_width(),
        ensures
            value == Self::spec_from_bytes(bytes@),
    ;
}

impl ToLeBytes for u16 {
    open spec fn spec_le_bytes(&self) -> Seq<u8> {
        le16(*self as int)
    }

    fn to_le_bytes_vec(&self) -> (out: Vec<u8>) {
        proof {
            lemma_le_bytes_two(*self as nat);
        }
        to_le_vec(*self as u64, 2)
    }
}

impl ToLeBytes for u32 {
    open spec fn spec_le_bytes(&self) -> Seq<u8> {
        le_bytes(*self as nat, 4)
    }

    fn to_le_bytes_vec(&self) -> (out: Vec<u8>) {
        to_le_vec(*self as u64, 4)
    }
}

impl<T: ToLeBytes> PagePayload for OffsetType<T> {
    open spec fn spec_payload_bytes(&self) -> Seq<u8> {
        self.0.spec_le_bytes()
    }

    fn to_le_bytes(&self) -> (out: Vec<u8>) {
        self.0.to_le_bytes_vec()
    }

    fn len(&self) -> (n: usize) {
        self.to_le_bytes().len()
    }
}

impl PagePayload for &str {
    open spec fn spec_payload_bytes(&self) -> Seq<u8> {
        self.spec_bytes()
    }

    fn to_le_bytes(&self) -> (out: Vec<u8>) {
        slice_to_vec(self.as_bytes())
    }

    fn len(&self) -> (n: usize) {
        self.to_le_bytes().len()
    }
}

impl ToLeBytes for &str {
    open spec fn spec_le_bytes(&self) -> Seq<u8> {
        self.spec_bytes()
    }

    fn to_le_bytes_vec(&self) -> (out: Vec<u8>) {
        self.to_le_bytes()
    }
}

impl ToLeBytes for o16 {
    open spec fn spec_le_bytes(&self) -> Seq<u8> {
        le16(self.0 as int)
    }

    fn to_le_bytes_vec(&self) -> (out: Vec<u8>) {
        self.to_le_bytes()
    }
}

/// The number whose little-endian bytes are `bytes`.
pub open spec fn le_value(bytes: Seq<u8>) -> nat
    decreases bytes.len(),
{
    if bytes.len() == 0 {
        0
    } else {
        bytes[0] as nat + 256 * le_value(bytes.drop_first())
    }
}

/// The number whose little-endian bytes are those of `bytes`.
fn le_value_of(bytes: &Vec<u8>) -> (value: u64)
    requires
        bytes@.len() <= 4,
    ensures
        value == le_value(bytes@),
        bytes@.len() == 1 ==> value < 0x100,
        bytes@.len() == 2 ==> value < 0x1_0000,
        bytes@.len() == 4 ==> value < 0x1_0000_0000,
{
    let mut value: u64 = 0;
    let mut i: usize = bytes.len();
    proof {
        assert(bytes@.skip(i as int) =~= Seq::<u8>::empty());
    }
    while i > 0
        invariant
            i <= bytes@.len() <= 4,
            value == le_value(bytes@.skip(i as int)),
            bytes@.len() - i == 0 ==> value == 0,
            bytes@.len() - i == 1 ==> value < 0x100,
            bytes@.len() - i == 2 ==> value < 0x1_0000,
            bytes@.len() - i == 3 ==> value < 0x100_0000,
            bytes@.len() - i == 4 ==> value < 0x1_0000_0000,
        decreases i,
    {
        i = i - 1;
        proof {
            assert(bytes@.skip(i as int).drop_first() =~= bytes@.skip(i + 1));
        }
        value = bytes[i] as u64 + 256 * value;
    }
    proof {
        assert(bytes@.skip(0) =~= bytes@);
    }
    value
}

impl FromLeBytes for o16 {
    open spec fn spec_width() -> nat {
        2
    }

    open spec fn spec_from_bytes(bytes: Seq<u8>) -> Self {
        OffsetType(le_value(bytes) as u16)
    }

    fn from_bytes(bytes: Vec<u8>) -> (value: o16) {
        OffsetType(le_value_of(&bytes) as u16)
    }
}

impl FromLeBytes for u32 {
    open spec fn spec_width() -> nat {
        4
    }

    open spec fn spec_from_bytes(bytes: Seq<u8>) -> Self {
        le_value(bytes) as u32
    }

    fn from_bytes(bytes: Vec<u8>) -> (value: u32) {
        le_value_of(&bytes) as u32
    }
}

impl FromLeBytes for u8 {
    open spec fn spec_width() -> nat {
        1
    }

    open spec fn spec_from_bytes(bytes: Seq<u8>) -> Self {
        le_value(bytes) as u8
    }

    fn from_bytes(bytes: Vec<u8>) -> (value: u8) {
        le_value_of(&bytes) as u8
    }
}

} // verus!
