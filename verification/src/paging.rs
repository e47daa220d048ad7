//! The page codec: a fixed-size buffer with a header, a slot table that
//! grows upwards and a record heap that grows downwards.
use vstd::prelude::*;
use vstd::slice::{slice_subrange, slice_to_vec};
use vstd::string::StringSliceAdditionalSpecFns;
use crate::errors::PageError;
use crate::layout;
use crate::layout::{
    empty_page, le16, page_wf, page_with_record, record_placed, slot_added, splice, PSize,
    PageId, OFFSET_FLAGS, OFFSET_FREE_END, OFFSET_FREE_START, OFFSET_LEFT_MOST,
    OFFSET_LEFT_SIBLING, OFFSET_NUM_OF_SLOTS, OFFSET_PAGE_ID, OFFSET_PAGE_TYPE,
    OFFSET_PARENT_PAGE_ID, OFFSET_RIGHT_SIBLING, OVERFLOW_HEADER_SIZE, PAGE_SIZE,
    PAGE_SIZE_USIZE, PAGE_TYPE_INNER, PAGE_TYPE_LEAF, RECORD_HEADER_SIZE, RECORD_OVERHEAD,
    SIZE_OF_SLOT_TABLE_ITEM, SIZE_PAGE_ID, TOTAL_HEADER_SIZE,
};
use crate::record::{
    encode_overflow, encode_record, lemma_read_added_overflow, lemma_read_added_record,
    lemma_read_older_record, min_int, overflow_fits, overflow_room, payload_room, record_fits,
    spec_read_overflow, spec_read_slot, OverflowView, RecordView,
};
use crate::types::{Payload, PayloadType};

verus! {

/// A page of the index: `PAGE_SIZE` bytes, laid out as `layout` describes.
#[derive(Debug)]
pub struct SlottedPage {
    buffer: [u8; PAGE_SIZE_USIZE],
}

/// A value of fixed width that a record can hold as its payload, such as the
/// identifier of a page.
pub trait PagePayload {
    /// How many bytes the value takes.
    spec fn spec_size() -> nat;

    /// The type under which the value is stored.
    spec fn spec_kind() -> PayloadType;

    /// The bytes of the value, least significant first.
    spec fn spec_payload_bytes(&self) -> Seq<u8>;

    fn size() -> (size: usize)
        ensures
            size == Self::spec_size(),
    ;

    fn kind() -> (kind: PayloadType)
        ensures
            kind == Self::spec_kind(),
    ;

    fn to_le_bytes(&self) -> (out: Vec<u8>)
        ensures
            out@ == self.spec_payload_bytes(),
            out@.len() == Self::spec_size(),
    ;
}

impl PagePayload for PageId {
    open spec fn spec_size() -> nat {
        SIZE_PAGE_ID as nat
    }

    open spec fn spec_kind() -> PayloadType {
        PayloadType::U16
    }

    open spec fn spec_payload_bytes(&self) -> Seq<u8> {
        le16(*self as int)
    }

    fn size() -> (size: usize) {
        SIZE_PAGE_ID
    }

    fn kind() -> (kind: PayloadType) {
        PayloadType::U16
    }

    fn to_le_bytes(&self) -> (out: Vec<u8>) {
        let mut out: Vec<u8> = Vec::new();
        out.push((*self % 256) as u8);
        out.push((*self / 256) as u8);
        proof {
            assert(out@ =~= le16(*self as int));
        }
        out
    }
}

/// The two kinds of page.
#[derive(Clone, Copy, Debug, PartialEq, Eq, Structural)]
pub enum PageType {
    Inner,
    Leaf,
}

impl From<u8> for PageType {
    fn from(value: u8) -> (t: Self) {
        if value == PAGE_TYPE_LEAF {
            return Self::Leaf;
        }
        Self::Inner
    }
}

impl vstd::std_specs::convert::FromSpecImpl<u8> for PageType {
    open spec fn obeys_from_spec() -> bool {
        true
    }

    open spec fn from_spec(value: u8) -> Self {
        if value == PAGE_TYPE_LEAF {
            Self::Leaf
        } else {
            Self::Inner
        }
    }
}

/// A record as it is read from a slot.
#[derive(Debug)]
pub struct SlotRecord {
    pub key: Vec<u8>,
    pub key_type: PayloadType,
    /// The leading bytes of the payload, which are stored with the record.
    pub payload_head: Vec<u8>,
    pub payload_type: PayloadType,
    /// The length of the whole payload.
    pub payload_len: usize,
}

impl View for SlotRecord {
    type V = RecordView;

    open spec fn view(&self) -> RecordView {
        RecordView {
            key: self.key@,
            key_type: self.key_type,
            payload_head: self.payload_head@,
            payload_type: self.payload_type,
            payload_len: self.payload_len as int,
        }
    }
}

/// An overflow record as it is read from a continuation page.
#[derive(Debug)]
pub struct OverflowRecord {
    /// How many payload bytes were left to store when the page was written.
    pub remaining_len: usize,
    /// Those of them that this page holds.
    pub chunk: Vec<u8>,
}

impl View for OverflowRecord {
    type V = OverflowView;

    open spec fn view(&self) -> OverflowView {
        OverflowView { remaining_len: self.remaining_len as int, chunk: self.chunk@ }
    }
}

/// The text that `String::from_utf8_lossy` makes of `bytes`: their UTF-8
/// reading, with a replacement character for what is no valid UTF-8.
pub uninterp spec fn lossy_text(bytes: Seq<u8>) -> Seq<char>;

/// Calls `String::from_utf8_lossy` of the standard library and hands back
/// its result as an owned string. Nothing is claimed of the result but that
/// it is the same for the same bytes.
#[verifier::external_body]
fn text_of(bytes: &[u8]) -> (text: String)
    ensures
        text@ == lossy_text(bytes@),
{
    String::from_utf8_lossy(bytes).to_string()
}

impl SlottedPage {
    /// The bytes of the page.
    pub closed spec fn view(&self) -> Seq<u8> {
        self.buffer@
    }

    /// The page invariant.
    pub open spec fn wf(&self) -> bool {
        page_wf(self@)
    }

    /// A page with the given identifier that holds no record and no link.
    pub fn new(page_id: PageId) -> (page: Self)
        ensures
            page@ == empty_page(page_id, PAGE_TYPE_LEAF),
            page.wf(),
    {
        let mut new_instance = Self { buffer: [0u8; PAGE_SIZE_USIZE] };
        let ghost zero = new_instance@;
        new_instance.set_flags(0);
        new_instance.set_left_most_page_id(0);
        new_instance.set_right_sibling(0);
        new_instance.set_left_sibling(0);
        new_instance.set_parent(0);
        new_instance.set_num_of_slots(0);
        new_instance.set_free_start(TOTAL_HEADER_SIZE as PSize);
        new_instance.set_free_end(PAGE_SIZE);
        new_instance.set_page_type(PAGE_TYPE_LEAF);
        new_instance.set_page_id(page_id);
        proof {
            assert(forall|i: int| 0 <= i < PAGE_SIZE ==> zero[i] == 0u8);
            assert(new_instance@ =~= empty_page(page_id, PAGE_TYPE_LEAF));
            layout::lemma_empty_page(page_id, PAGE_TYPE_LEAF);
        }
        new_instance
    }

    /// An empty data page.
    pub fn new_leaf(page_id: PageId) -> (page: Self)
        ensures
            page@ == empty_page(page_id, PAGE_TYPE_LEAF),
            page.wf(),
            layout::num_of_slots(page@) == 0,
            layout::page_id(page@) == page_id,
            layout::page_type(page@) == PAGE_TYPE_LEAF,
            layout::free_start(page@) == TOTAL_HEADER_SIZE,
            layout::free_end(page@) == PAGE_SIZE,
            layout::free_size(page@) == PAGE_SIZE - TOTAL_HEADER_SIZE,
    {
        let mut instance = Self::new(page_id);
        instance.set_page_type(PAGE_TYPE_LEAF);
        proof {
            assert(instance@ =~= empty_page(page_id, PAGE_TYPE_LEAF));
            layout::lemma_empty_page(page_id, PAGE_TYPE_LEAF);
        }
        instance
    }

    /// An empty inner page.
    pub fn new_inner(page_id: PageId) -> (page: Self)
        ensures
            page@ == empty_page(page_id, PAGE_TYPE_INNER),
            page.wf(),
            layout::num_of_slots(page@) == 0,
            layout::page_id(page@) == page_id,
            layout::page_type(page@) == PAGE_TYPE_INNER,
            layout::left_most_page_id(page@) == 0,
            layout::free_start(page@) == TOTAL_HEADER_SIZE,
            layout::free_end(page@) == PAGE_SIZE,
            layout::free_size(page@) == PAGE_SIZE - TOTAL_HEADER_SIZE,
    {
        let mut instance = Self::new(page_id);
        instance.set_page_type(PAGE_TYPE_INNER);
        proof {
            assert(instance@ =~= empty_page(page_id, PAGE_TYPE_INNER));
            layout::lemma_empty_page(page_id, PAGE_TYPE_INNER);
        }
        instance
    }

    /// Takes over the bytes of a page, as they come from the backing file,
    /// if they meet the page invariant.
    pub fn new_from(buffer: [u8; PAGE_SIZE_USIZE]) -> (res: Result<Self, PageError>)
        ensures
            match res {
                Ok(page) => page_wf(buffer@) && page@ == buffer@,
                Err(e) => !page_wf(buffer@) && e == PageError::CorruptChain,
            },
    {
        let page = Self { buffer };
        if page.is_well_formed() {
            Ok(page)
        } else {
            Err(PageError::CorruptChain)
        }
    }

    /// Whether the page meets the page invariant.
    pub fn is_well_formed(&self) -> (ok: bool)
        ensures
            ok == self.wf(),
    {
        let n = self.num_of_slots() as usize;
        let free_start = self.free_start() as usize;
        let free_end = self.free_end() as usize;
        if free_start < TOTAL_HEADER_SIZE || free_start > free_end || free_end > PAGE_SIZE_USIZE
            || free_start - TOTAL_HEADER_SIZE != n * SIZE_OF_SLOT_TABLE_ITEM {
            return false;
        }
        let mut i: usize = 0;
        let mut top: usize = PAGE_SIZE_USIZE;
        while i < n
            invariant
                i <= n,
                self@.len() == PAGE_SIZE,
                n == layout::num_of_slots(self@),
                free_end == layout::free_end(self@),
                TOTAL_HEADER_SIZE + n * SIZE_OF_SLOT_TABLE_ITEM <= PAGE_SIZE,
                top == layout::record_end(self@, i as int),
                forall|j: int|
                    0 <= j < i ==> free_end <= #[trigger] layout::slot_entry(self@, j) < PAGE_SIZE,
            decreases n - i,
        {
            let entry = Self::read_le(
                &self.buffer,
                TOTAL_HEADER_SIZE + SIZE_OF_SLOT_TABLE_ITEM * i,
            ) as usize;
            assert(entry == layout::slot_entry(self@, i as int));
            if entry < free_end || entry >= PAGE_SIZE_USIZE {
                return false;
            }
            top = entry;
            i += 1;
        }
        top == free_end
    }

    /// The bytes of the page, as they go to the backing file.
    pub fn buffer(&self) -> (bytes: &[u8; PAGE_SIZE_USIZE])
        ensures
            bytes@ == self@,
    {
        &self.buffer
    }

    /// The bytes of the page as text, for showing them.
    pub fn text(&self) -> (text: String)
        ensures
            text@ == lossy_text(self@),
    {
        text_of(self.buffer.as_slice())
    }

    /// Whether this is a data page or an inner page.
    pub fn kind(&self) -> (t: PageType)
        ensures
            t == (if layout::page_type(self@) == PAGE_TYPE_LEAF {
                PageType::Leaf
            } else {
                PageType::Inner
            }),
    {
        PageType::from(self.page_type())
    }

    /// Records the page that holds the keys below the first separator.
    pub fn add_left_most(&mut self, left_most_page_id: PageId)
        ensures
            final(self)@ == splice(
                old(self)@,
                OFFSET_LEFT_MOST as int,
                le16(left_most_page_id as int),
            ),
            layout::left_most_page_id(final(self)@) == left_most_page_id,
            old(self).wf() ==> final(self).wf(),
    {
        self.set_left_most_page_id(left_most_page_id);
    }

    /// Number of bytes a record takes that holds `key` and a payload of the
    /// type `T`.
    pub fn slot_size<T: PagePayload>(key: &str) -> (size: PSize)
        requires
            RECORD_HEADER_SIZE + key.spec_bytes().len() + T::spec_size() <= u16::MAX,
        ensures
            size == RECORD_HEADER_SIZE + key.spec_bytes().len() + T::spec_size(),
    {
        (RECORD_HEADER_SIZE + key.as_bytes().len() + T::size()) as PSize
    }

    /// Adds a record that maps `key` to `ref_id`, which most often is the
    /// identifier of a page. The record is added whole or not at all.
    pub fn add_key_ref<T: PagePayload>(&mut self, key: &str, ref_id: T) -> (res: Result<
        (),
        PageError,
    >)
        requires
            old(self).wf(),
        ensures
            final(self).wf(),
            match res {
                Ok(()) => {
                    &&& record_fits(old(self)@, key.spec_bytes().len() as int)
                    &&& payload_room(old(self)@, key.spec_bytes().len() as int) >= T::spec_size()
                    &&& final(self)@ == page_with_record(
                        old(self)@,
                        encode_record(
                            T::spec_size() as int,
                            T::spec_kind(),
                            PayloadType::Str,
                            key.spec_bytes(),
                            ref_id.spec_payload_bytes(),
                        ),
                    )
                    &&& layout::num_of_slots(final(self)@) == layout::num_of_slots(old(self)@)
                        + 1
                    &&& layout::free_size(final(self)@) == layout::free_size(old(self)@) - (
                    SIZE_OF_SLOT_TABLE_ITEM + RECORD_HEADER_SIZE + key.spec_bytes().len()
                        + T::spec_size())
                    &&& spec_read_slot(final(self)@, layout::num_of_slots(old(self)@)) == Ok::<
                        RecordView,
                        PageError,
                    >(
                        RecordView {
                            key: key.spec_bytes(),
                            key_type: PayloadType::Str,
                            payload_head: ref_id.spec_payload_bytes(),
                            payload_type: T::spec_kind(),
                            payload_len: T::spec_size() as int,
                        },
                    )
                    &&& forall|i: int|
                        0 <= i < layout::num_of_slots(old(self)@) ==> #[trigger] spec_read_slot(
                            final(self)@,
                            i,
                        ) == spec_read_slot(old(self)@, i)
                },
                Err(e) => {
                    &&& e == PageError::NoSpace
                    &&& !record_fits(old(self)@, key.spec_bytes().len() as int) || payload_room(
                        old(self)@,
                        key.spec_bytes().len() as int,
                    ) < T::spec_size()
                    &&& final(self)@ == old(self)@
                },
            },
    {
        let key_bytes = key.as_bytes();
        let free = self.available_size() as usize;
        let fixed = RECORD_OVERHEAD + SIZE_OF_SLOT_TABLE_ITEM;
        if free < fixed + 1 || key_bytes.len() > free - fixed - 1 || T::size() > free - fixed
            - key_bytes.len() {
            return Err(PageError::NoSpace);
        }
        let bytes = ref_id.to_le_bytes();
        let mut payload = Payload::from_buffer(bytes.as_slice(), T::kind());
        let stored = self.append_record(key_bytes, PayloadType::Str, &mut payload);
        proof {
            assert(bytes@.skip(0).take(T::spec_size() as int) =~= bytes@);
        }
        match stored {
            Ok(_) => Ok(()),
            Err(e) => Err(e),
        }
    }

    /// Puts the bytes of a record below the record heap and returns where
    /// they start.
    fn add_slot(&mut self, slot: &Vec<u8>) -> (new_free_end: PSize)
        requires
            old(self).wf(),
            slot@.len() <= layout::free_size(old(self)@),
        ensures
            final(self)@ == record_placed(old(self)@, slot@),
            new_free_end == layout::free_end(old(self)@) - slot@.len(),
    {
        let free_end = self.free_end();
        let new_free_end = free_end - slot.len() as PSize;
        let base = new_free_end as usize;
        let mut i: usize = 0;
        while i < slot.len()
            invariant
                i <= slot.len(),
                base + slot.len() == free_end,
                free_end <= PAGE_SIZE,
                self@.len() == PAGE_SIZE,
                forall|j: int| 0 <= j < i ==> self@[base + j] == slot@[j],
                forall|j: int|
                    0 <= j < PAGE_SIZE && !(base <= j < base + i) ==> self@[j] == old(self)@[j],
            decreases slot.len() - i,
        {
            self.buffer[base + i] = slot[i];
            i += 1;
        }
        proof {
            assert(self@ =~= splice(old(self)@, base as int, slot@));
        }
        self.set_free_end(new_free_end);
        new_free_end
    }

    /// Lets the slot table grow by one entry that points to `new_free_end`.
    fn add_to_slot_table(&mut self, new_free_end: &PSize)
        requires
            old(self)@.len() == PAGE_SIZE,
            TOTAL_HEADER_SIZE <= layout::free_start(old(self)@),
            layout::free_start(old(self)@) + SIZE_OF_SLOT_TABLE_ITEM <= PAGE_SIZE,
            layout::num_of_slots(old(self)@) < u16::MAX,
        ensures
            final(self)@ == slot_added(old(self)@, *new_free_end as int),
    {
        let free_start = self.free_start();
        let slots = self.num_of_slots();
        Self::write_le(&mut self.buffer, free_start as usize, *new_free_end);
        self.set_free_start(free_start + SIZE_OF_SLOT_TABLE_ITEM as PSize);
        self.set_num_of_slots(slots + 1);
    }

    /// Adds the bytes of one record to the page: they go below the record
    /// heap, and a new last slot points to them.
    fn put_record(&mut self, slot: &Vec<u8>)
        requires
            old(self).wf(),
            1 <= slot@.len(),
            slot@.len() + SIZE_OF_SLOT_TABLE_ITEM <= layout::free_size(old(self)@),
        ensures
            final(self).wf(),
            final(self)@ == page_with_record(old(self)@, slot@),
            layout::num_of_slots(final(self)@) == layout::num_of_slots(old(self)@) + 1,
            layout::free_size(final(self)@) == layout::free_size(old(self)@) - (
            SIZE_OF_SLOT_TABLE_ITEM + slot@.len()),
    {
        proof {
            layout::lemma_record_placed(old(self)@, slot@);
            layout::lemma_page_with_record(old(self)@, slot@);
        }
        let new_free_end = self.add_slot(slot);
        self.add_to_slot_table(&new_free_end);
    }

    /// The bytes of a record with the given parts.
    fn record_bytes(
        payload_len: usize,
        payload_type: PayloadType,
        key: &[u8],
        key_type: PayloadType,
        payload_head: &Vec<u8>,
    ) -> (out: Vec<u8>)
        requires
            payload_len <= u16::MAX,
            key@.len() <= u16::MAX,
        ensures
            out@ == encode_record(
                payload_len as int,
                payload_type,
                key_type,
                key@,
                payload_head@,
            ),
            out@.len() == RECORD_HEADER_SIZE + key@.len() + payload_head@.len(),
    {
        let mut slot: Vec<u8> = Vec::new();
        slot.push((payload_len % 256) as u8);
        slot.push((payload_len / 256) as u8);
        slot.push(payload_type.tag());
        slot.push((key.len() % 256) as u8);
        slot.push((key.len() / 256) as u8);
        slot.push(key_type.tag());
        slot.extend_from_slice(key);
        slot.extend_from_slice(payload_head.as_slice());
        proof {
            assert(slot@ =~= encode_record(
                payload_len as int,
                payload_type,
                key_type,
                key@,
                payload_head@,
            ));
        }
        slot
    }

    /// The bytes of an overflow record with the given parts.
    fn overflow_bytes(remaining_len: usize, chunk: &Vec<u8>) -> (out: Vec<u8>)
        requires
            remaining_len <= u16::MAX,
        ensures
            out@ == encode_overflow(remaining_len as int, chunk@),
            out@.len() == OVERFLOW_HEADER_SIZE + chunk@.len(),
    {
        let mut slot: Vec<u8> = Vec::new();
        slot.push((remaining_len % 256) as u8);
        slot.push((remaining_len / 256) as u8);
        slot.extend_from_slice(chunk.as_slice());
        proof {
            assert(slot@ =~= encode_overflow(remaining_len as int, chunk@));
        }
        slot
    }

    /// Adds one record with the given key and as much of the payload as the
    /// page has room for, and moves the payload's read position behind what
    /// was stored. Returns how many payload bytes were stored; the caller
    /// stores the rest elsewhere. The record notes the length of the whole
    /// payload.
    pub fn append_record(&mut self, key: &[u8], key_type: PayloadType, payload: &mut Payload) -> (res:
        Result<usize, PageError>)
        requires
            old(self).wf(),
            old(payload).wf(),
        ensures
            final(self).wf(),
            final(payload).wf(),
            match res {
                Ok(stored) => {
                    &&& record_fits(old(self)@, key@.len() as int)
                    &&& old(payload).spec_len() <= u16::MAX
                    &&& stored == min_int(
                        old(payload).spec_len(),
                        payload_room(old(self)@, key@.len() as int),
                    )
                    &&& final(self)@ == page_with_record(
                        old(self)@,
                        encode_record(
                            old(payload).spec_len(),
                            old(payload).spec_type(),
                            key_type,
                            key@,
                            old(payload).remaining().take(stored as int),
                        ),
                    )
                    &&& old(payload).advanced(final(payload), stored as int)
                    &&& layout::num_of_slots(final(self)@) == layout::num_of_slots(old(self)@)
                        + 1
                    &&& layout::free_size(final(self)@) == layout::free_size(old(self)@) - (
                    SIZE_OF_SLOT_TABLE_ITEM + RECORD_HEADER_SIZE + key@.len() + stored)
                    &&& spec_read_slot(final(self)@, layout::num_of_slots(old(self)@)) == Ok::<
                        RecordView,
                        PageError,
                    >(
                        RecordView {
                            key: key@,
                            key_type,
                            payload_head: old(payload).remaining().take(stored as int),
                            payload_type: old(payload).spec_type(),
                            payload_len: old(payload).spec_len(),
                        },
                    )
                    &&& forall|i: int|
                        0 <= i < layout::num_of_slots(old(self)@) ==> #[trigger] spec_read_slot(
                            final(self)@,
                            i,
                        ) == spec_read_slot(old(self)@, i)
                },
                Err(e) => {
                    &&& final(self)@ == old(self)@
                    &&& old(payload).advanced(final(payload), 0)
                    &&& e == PageError::NoSpace || e == PageError::OutOfRange
                    &&& e == PageError::NoSpace <==> !record_fits(old(self)@, key@.len() as int)
                    &&& e == PageError::OutOfRange ==> old(payload).spec_len() > u16::MAX
                },
            },
    {
        let free = self.available_size() as usize;
        let fixed = RECORD_OVERHEAD + SIZE_OF_SLOT_TABLE_ITEM + 1;
        if free < fixed || key.len() > free - fixed {
            return Err(PageError::NoSpace);
        }
        let total = payload.len();
        if total > u16::MAX as usize {
            return Err(PageError::OutOfRange);
        }
        let room = free - RECORD_OVERHEAD - SIZE_OF_SLOT_TABLE_ITEM - key.len();
        let stored = if total < room {
            total
        } else {
            room
        };
        let mut head: Vec<u8> = vec![0u8; stored];
        payload.read(head.as_mut_slice());
        proof {
            assert(old(payload).remaining().take(0) =~= Seq::<u8>::empty());
            assert(head@ =~= old(payload).remaining().take(stored as int));
        }
        let slot = Self::record_bytes(total, payload.payload_type(), key, key_type, &head);
        proof {
            lemma_read_added_record(
                old(self)@,
                total as int,
                old(payload).spec_type(),
                key_type,
                key@,
                head@,
            );
            assert forall|i: int| 0 <= i < layout::num_of_slots(old(self)@) implies spec_read_slot(
                page_with_record(old(self)@, slot@),
                i,
            ) == spec_read_slot(old(self)@, i) by {
                lemma_read_older_record(old(self)@, slot@, i);
            }
        }
        self.put_record(&slot);
        Ok(stored)
    }

    /// Adds one overflow record that holds as much of the payload as the
    /// page has room for, and moves the payload's read position behind what
    /// was stored. Returns how many payload bytes were stored. The record
    /// notes how many bytes were left of the payload before.
    pub fn append_overflow(&mut self, payload: &mut Payload) -> (res: Result<usize, PageError>)
        requires
            old(self).wf(),
            old(payload).wf(),
        ensures
            final(self).wf(),
            final(payload).wf(),
            match res {
                Ok(stored) => {
                    &&& overflow_fits(old(self)@)
                    &&& old(payload).spec_len() <= u16::MAX
                    &&& stored == min_int(old(payload).spec_len(), overflow_room(old(self)@))
                    &&& final(self)@ == page_with_record(
                        old(self)@,
                        encode_overflow(
                            old(payload).spec_len(),
                            old(payload).remaining().take(stored as int),
                        ),
                    )
                    &&& old(payload).advanced(final(payload), stored as int)
                    &&& layout::num_of_slots(final(self)@) == layout::num_of_slots(old(self)@)
                        + 1
                    &&& layout::free_size(final(self)@) == layout::free_size(old(self)@) - (
                    SIZE_OF_SLOT_TABLE_ITEM + OVERFLOW_HEADER_SIZE + stored)
                    &&& layout::num_of_slots(old(self)@) == 0 && stored > 0
                        ==> spec_read_overflow(final(self)@) == Ok::<OverflowView, PageError>(
                        OverflowView {
                            remaining_len: old(payload).spec_len(),
                            chunk: old(payload).remaining().take(stored as int),
                        },
                    )
                },
                Err(e) => {
                    &&& final(self)@ == old(self)@
                    &&& old(payload).advanced(final(payload), 0)
                    &&& e == PageError::NoSpace || e == PageError::OutOfRange
                    &&& e == PageError::NoSpace <==> !overflow_fits(old(self)@)
                    &&& e == PageError::OutOfRange ==> old(payload).spec_len() > u16::MAX
                },
            },
    {
        let free = self.available_size() as usize;
        if free < OVERFLOW_HEADER_SIZE + SIZE_OF_SLOT_TABLE_ITEM + 1 {
            return Err(PageError::NoSpace);
        }
        let total = payload.len();
        if total > u16::MAX as usize {
            return Err(PageError::OutOfRange);
        }
        let room = free - OVERFLOW_HEADER_SIZE - SIZE_OF_SLOT_TABLE_ITEM;
        let stored = if total < room {
            total
        } else {
            room
        };
        let mut chunk: Vec<u8> = vec![0u8; stored];
        payload.read(chunk.as_mut_slice());
        proof {
            assert(old(payload).remaining().take(0) =~= Seq::<u8>::empty());
            assert(chunk@ =~= old(payload).remaining().take(stored as int));
        }
        let slot = Self::overflow_bytes(total, &chunk);
        proof {
            if layout::num_of_slots(old(self)@) == 0 && stored > 0 {
                lemma_read_added_overflow(old(self)@, total as int, chunk@);
            }
        }
        self.put_record(&slot);
        Ok(stored)
    }

    /// Reads the record in slot `index`, counted from zero in the order of
    /// insertion.
    pub fn read_slot(&self, index: usize) -> (res: Result<SlotRecord, PageError>)
        requires
            self.wf(),
        ensures
            match res {
                Ok(record) => spec_read_slot(self@, index as int) == Ok::<
                    RecordView,
                    PageError,
                >(record@),
                Err(e) => spec_read_slot(self@, index as int) == Err::<RecordView, PageError>(e),
            },
    {
        let n = self.num_of_slots() as usize;
        if index >= n {
            return Err(PageError::NotFound);
        }
        let start = Self::read_le(
            &self.buffer,
            TOTAL_HEADER_SIZE + SIZE_OF_SLOT_TABLE_ITEM * index,
        ) as usize;
        let end = if index == 0 {
            PAGE_SIZE_USIZE
        } else {
            Self::read_le(
                &self.buffer,
                TOTAL_HEADER_SIZE + SIZE_OF_SLOT_TABLE_ITEM * (index - 1),
            ) as usize
        };
        proof {
            assert(start == layout::slot_entry(self@, index as int));
            if index > 0 {
                assert(end == layout::slot_entry(self@, index - 1));
            }
        }
        if start + RECORD_HEADER_SIZE > end {
            return Err(PageError::CorruptChain);
        }
        let payload_len = Self::read_le(&self.buffer, start) as usize;
        let key_len = Self::read_le(&self.buffer, start + 3) as usize;
        let payload_type = match PayloadType::from_tag(self.buffer[start + 2]) {
            Some(t) => t,
            None => {
                return Err(PageError::CorruptChain);
            },
        };
        let key_type = match PayloadType::from_tag(self.buffer[start + 5]) {
            Some(t) => t,
            None => {
                return Err(PageError::CorruptChain);
            },
        };
        let key_start = start + RECORD_HEADER_SIZE;
        if key_start + key_len > end || end - (key_start + key_len) > payload_len {
            return Err(PageError::CorruptChain);
        }
        let key = self.copy_range(key_start, key_start + key_len);
        let payload_head = self.copy_range(key_start + key_len, end);
        Ok(SlotRecord { key, key_type, payload_head, payload_type, payload_len })
    }

    /// Reads the overflow record of a continuation page.
    pub fn read_overflow(&self) -> (res: Result<OverflowRecord, PageError>)
        requires
            self.wf(),
        ensures
            match res {
                Ok(record) => spec_read_overflow(self@) == Ok::<OverflowView, PageError>(
                    record@,
                ),
                Err(e) => spec_read_overflow(self@) == Err::<OverflowView, PageError>(e),
            },
    {
        if self.num_of_slots() != 1 {
            return Err(PageError::CorruptChain);
        }
        let start = Self::read_le(&self.buffer, TOTAL_HEADER_SIZE) as usize;
        proof {
            assert(start == layout::slot_entry(self@, 0));
        }
        if start + OVERFLOW_HEADER_SIZE >= PAGE_SIZE_USIZE {
            return Err(PageError::CorruptChain);
        }
        let remaining_len = Self::read_le(&self.buffer, start) as usize;
        if PAGE_SIZE_USIZE - (start + OVERFLOW_HEADER_SIZE) > remaining_len {
            return Err(PageError::CorruptChain);
        }
        let chunk = self.copy_range(start + OVERFLOW_HEADER_SIZE, PAGE_SIZE_USIZE);
        Ok(OverflowRecord { remaining_len, chunk })
    }

    /// A copy of the bytes from `from` up to, not including, `to`.
    fn copy_range(&self, from: usize, to: usize) -> (out: Vec<u8>)
        requires
            from <= to <= PAGE_SIZE,
        ensures
            out@ == self@.subrange(from as int, to as int),
    {
        slice_to_vec(slice_subrange(self.buffer.as_slice(), from, to))
    }

    /// Size of the gap between the slot table and the record heap.
    pub fn available_size(&self) -> (size: PSize)
        ensures
            size == layout::free_size(self@),
    {
        let free_end = self.free_end();
        let free_start = self.free_start();
        if free_end >= free_start {
            free_end - free_start
        } else {
            0
        }
    }

    /// Size of the gap between the slot table and the record heap.
    pub fn free_size(&self) -> (size: PSize)
        ensures
            size == layout::free_size(self@),
    {
        self.available_size()
    }

    /// The 16-bit little-endian number at `offset`.
    pub fn read_le(buf: &[u8; PAGE_SIZE_USIZE], offset: usize) -> (value: u16)
        requires
            offset + 2 <= PAGE_SIZE,
        ensures
            value == layout::u16_at(buf@, offset as int),
    {
        let low = buf[offset] as u16;
        let high = buf[offset + 1] as u16;
        low + 256 * high
    }

    /// Stores `value` at `offset` as a 16-bit little-endian number.
    pub fn write_le(buf: &mut [u8; PAGE_SIZE_USIZE], offset: usize, value: u16)
        requires
            offset + 2 <= PAGE_SIZE,
        ensures
            final(buf)@ == splice(old(buf)@, offset as int, le16(value as int)),
            layout::u16_at(final(buf)@, offset as int) == value,
    {
        buf[offset] = (value % 256) as u8;
        buf[offset + 1] = (value / 256) as u8;
        proof {
            assert(buf@ =~= splice(old(buf)@, offset as int, le16(value as int)));
        }
    }

    /// Returns the number of slots from the first two bytes in the page.
    pub fn num_of_slots(&self) -> (num: PSize)
        ensures
            num == layout::num_of_slots(self@),
    {
        Self::read_le(&self.buffer, OFFSET_NUM_OF_SLOTS)
    }

    fn set_num_of_slots(&mut self, num: PSize)
        ensures
            final(self)@ == splice(old(self)@, OFFSET_NUM_OF_SLOTS as int, le16(num as int)),
    {
        Self::write_le(&mut self.buffer, OFFSET_NUM_OF_SLOTS, num);
    }

    pub fn page_id(&self) -> (id: PageId)
        ensures
            id == layout::page_id(self@),
    {
        Self::read_le(&self.buffer, OFFSET_PAGE_ID)
    }

    pub fn set_page_id(&mut self, num: PageId)
        ensures
            final(self)@ == splice(old(self)@, OFFSET_PAGE_ID as int, le16(num as int)),
            layout::page_id(final(self)@) == num,
            old(self).wf() ==> final(self).wf(),
    {
        Self::write_le(&mut self.buffer, OFFSET_PAGE_ID, num);
        proof {
            if old(self).wf() {
                crate::record::lemma_link_keeps_records(
                    old(self)@,
                    OFFSET_PAGE_ID as int,
                    num as int,
                );
            }
        }
    }

    pub fn page_type(&self) -> (t: u8)
        ensures
            t == layout::page_type(self@),
    {
        self.buffer[OFFSET_PAGE_TYPE]
    }

    pub fn set_page_type(&mut self, num: u8)
        ensures
            final(self)@ == splice(old(self)@, OFFSET_PAGE_TYPE as int, seq![num]),
            layout::page_type(final(self)@) == num,
            old(self).wf() ==> final(self).wf(),
    {
        self.buffer[OFFSET_PAGE_TYPE] = num;
        proof {
            assert(self@ =~= splice(old(self)@, OFFSET_PAGE_TYPE as int, seq![num]));
            if old(self).wf() {
                assert(forall|i: int|
                    0 <= i < layout::num_of_slots(old(self)@) ==> layout::slot_entry(self@, i)
                        == layout::slot_entry(old(self)@, i));
            }
        }
    }

    pub fn flags(&self) -> (f: u8)
        ensures
            f == layout::flags(self@),
    {
        self.buffer[OFFSET_FLAGS]
    }

    pub fn set_flags(&mut self, num: u8)
        ensures
            final(self)@ == splice(old(self)@, OFFSET_FLAGS as int, seq![num]),
            layout::flags(final(self)@) == num,
            old(self).wf() ==> final(self).wf(),
    {
        self.buffer[OFFSET_FLAGS] = num;
        proof {
            assert(self@ =~= splice(old(self)@, OFFSET_FLAGS as int, seq![num]));
            if old(self).wf() {
                assert(forall|i: int|
                    0 <= i < layout::num_of_slots(old(self)@) ==> layout::slot_entry(self@, i)
                        == layout::slot_entry(old(self)@, i));
            }
        }
    }

    pub fn left_most_page_id(&self) -> (id: PageId)
        ensures
            id == layout::left_most_page_id(self@),
    {
        Self::read_le(&self.buffer, OFFSET_LEFT_MOST)
    }

    pub fn set_left_most_page_id(&mut self, num: PageId)
        ensures
            final(self)@ == splice(old(self)@, OFFSET_LEFT_MOST as int, le16(num as int)),
            layout::left_most_page_id(final(self)@) == num,
            old(self).wf() ==> final(self).wf(),
    {
        Self::write_le(&mut self.buffer, OFFSET_LEFT_MOST, num);
        proof {
            if old(self).wf() {
                crate::record::lemma_link_keeps_records(
                    old(self)@,
                    OFFSET_LEFT_MOST as int,
                    num as int,
                );
            }
        }
    }

    pub fn left_sibling(&self) -> (id: PageId)
        ensures
            id == layout::left_sibling(self@),
    {
        Self::read_le(&self.buffer, OFFSET_LEFT_SIBLING)
    }

    pub fn set_left_sibling(&mut self, num: PageId)
        ensures
            final(self)@ == splice(old(self)@, OFFSET_LEFT_SIBLING as int, le16(num as int)),
            layout::left_sibling(final(self)@) == num,
            old(self).wf() ==> final(self).wf(),
    {
        Self::write_le(&mut self.buffer, OFFSET_LEFT_SIBLING, num);
        proof {
            if old(self).wf() {
                crate::record::lemma_link_keeps_records(
                    old(self)@,
                    OFFSET_LEFT_SIBLING as int,
                    num as int,
                );
            }
        }
    }

    pub fn right_sibling(&self) -> (id: PageId)
        ensures
            id == layout::right_sibling(self@),
    {
        Self::read_le(&self.buffer, OFFSET_RIGHT_SIBLING)
    }

    pub fn set_right_sibling(&mut self, num: PageId)
        ensures
            final(self)@ == splice(old(self)@, OFFSET_RIGHT_SIBLING as int, le16(num as int)),
            layout::right_sibling(final(self)@) == num,
            old(self).wf() ==> final(self).wf(),
    {
        Self::write_le(&mut self.buffer, OFFSET_RIGHT_SIBLING, num);
        proof {
            if old(self).wf() {
                crate::record::lemma_link_keeps_records(
                    old(self)@,
                    OFFSET_RIGHT_SIBLING as int,
                    num as int,
                );
            }
        }
    }

    pub fn parent(&self) -> (id: PageId)
        ensures
            id == layout::parent(self@),
    {
        Self::read_le(&self.buffer, OFFSET_PARENT_PAGE_ID)
    }

    pub fn set_parent(&mut self, num: PageId)
        ensures
            final(self)@ == splice(old(self)@, OFFSET_PARENT_PAGE_ID as int, le16(num as int)),
            layout::parent(final(self)@) == num,
            old(self).wf() ==> final(self).wf(),
    {
        Self::write_le(&mut self.buffer, OFFSET_PARENT_PAGE_ID, num);
        proof {
            if old(self).wf() {
                crate::record::lemma_link_keeps_records(
                    old(self)@,
                    OFFSET_PARENT_PAGE_ID as int,
                    num as int,
                );
            }
        }
    }

    pub fn free_start(&self) -> (offset: PSize)
        ensures
            offset == layout::free_start(self@),
    {
        Self::read_le(&self.buffer, OFFSET_FREE_START)
    }

    fn set_free_start(&mut self, num: PSize)
        ensures
            final(self)@ == splice(old(self)@, OFFSET_FREE_START as int, le16(num as int)),
    {
        Self::write_le(&mut self.buffer, OFFSET_FREE_START, num);
    }

    pub fn free_end(&self) -> (offset: PSize)
        ensures
            offset == layout::free_end(self@),
    {
        Self::read_le(&self.buffer, OFFSET_FREE_END)
    }

    fn set_free_end(&mut self, num: PSize)
        ensures
            final(self)@ == splice(old(self)@, OFFSET_FREE_END as int, le16(num as int)),
    {
        Self::write_le(&mut self.buffer, OFFSET_FREE_END, num);
    }
}

} // verus!
