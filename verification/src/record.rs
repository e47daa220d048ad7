//! Records inside a page: how they are encoded and how a slot is read back.
use vstd::prelude::*;
use crate::errors::PageError;
use crate::layout::{
    free_end, free_size, free_start, le16, lemma_page_with_record, num_of_slots, page_wf,
    page_with_record, record_end, slot_entry, splice, u16_at, OFFSET_LEFT_MOST,
    OFFSET_LEFT_SIBLING, OFFSET_PAGE_ID, OFFSET_PARENT_PAGE_ID, OFFSET_RIGHT_SIBLING,
    OVERFLOW_HEADER_SIZE, PAGE_SIZE, RECORD_HEADER_SIZE, RECORD_OVERHEAD,
    SIZE_OF_SLOT_TABLE_ITEM,
};
use crate::types::{spec_from_tag, spec_tag, PayloadType};

verus! {

/// What a slot of a page holds: the key, and of the payload its type, its
/// full length and the leading bytes that are stored in this page.
pub struct RecordView {
    pub key: Seq<u8>,
    pub key_type: PayloadType,
    pub payload_head: Seq<u8>,
    pub payload_type: PayloadType,
    pub payload_len: int,
}

/// What the single slot of an overflow page holds: how many payload bytes
/// were still to be stored when the page was written, and those of them
/// that are stored in this page.
pub struct OverflowView {
    pub remaining_len: int,
    pub chunk: Seq<u8>,
}

/// The bytes of a record: payload length, payload type, key length, key
/// type, key, and the part of the payload that is stored with it.
pub open spec fn encode_record(
    payload_len: int,
    payload_type: PayloadType,
    key_type: PayloadType,
    key: Seq<u8>,
    payload_head: Seq<u8>,
) -> Seq<u8> {
    le16(payload_len) + seq![spec_tag(payload_type)] + le16(key.len() as int) + seq![
        spec_tag(key_type),
    ] + key + payload_head
}

/// The bytes of an overflow record: the payload length that was left, then
/// the bytes of it that are stored here.
pub open spec fn encode_overflow(remaining_len: int, chunk: Seq<u8>) -> Seq<u8> {
    le16(remaining_len) + chunk
}

/// Whether a record with a key of `key_len` bytes and at least one payload
/// byte may be added to `b`.
pub open spec fn record_fits(b: Seq<u8>, key_len: int) -> bool {
    free_size(b) >= RECORD_OVERHEAD + SIZE_OF_SLOT_TABLE_ITEM + key_len + 1
}

/// How many payload bytes a new record on `b` can hold beside a key of
/// `key_len` bytes.
pub open spec fn payload_room(b: Seq<u8>, key_len: int) -> int {
    free_size(b) - RECORD_OVERHEAD - SIZE_OF_SLOT_TABLE_ITEM - key_len
}

/// Whether an overflow record with at least one payload byte may be added
/// to `b`.
pub open spec fn overflow_fits(b: Seq<u8>) -> bool {
    free_size(b) >= OVERFLOW_HEADER_SIZE + SIZE_OF_SLOT_TABLE_ITEM + 1
}

/// How many payload bytes a new overflow record on `b` can hold.
pub open spec fn overflow_room(b: Seq<u8>) -> int {
    free_size(b) - OVERFLOW_HEADER_SIZE - SIZE_OF_SLOT_TABLE_ITEM
}

pub open spec fn min_int(a: int, b: int) -> int {
    if a <= b {
        a
    } else {
        b
    }
}

/// The record in slot `index` of page `b`, or why there is none: the slot
/// does not exist, or the bytes it points to are no record.
pub open spec fn spec_read_slot(b: Seq<u8>, index: int) -> Result<RecordView, PageError> {
    if index < 0 || index >= num_of_slots(b) {
        Err(PageError::NotFound)
    } else {
        let start = slot_entry(b, index);
        let end = record_end(b, index);
        if start + RECORD_HEADER_SIZE > end {
            Err(PageError::CorruptChain)
        } else {
            let payload_len = u16_at(b, start);
            let key_len = u16_at(b, start + 3);
            let key_start = start + RECORD_HEADER_SIZE;
            match (spec_from_tag(b[start + 2]), spec_from_tag(b[start + 5])) {
                (Some(payload_type), Some(key_type)) => {
                    if key_start + key_len > end || end - (key_start + key_len) > payload_len {
                        Err(PageError::CorruptChain)
                    } else {
                        Ok(
                            RecordView {
                                key: b.subrange(key_start, key_start + key_len),
                                key_type,
                                payload_head: b.subrange(key_start + key_len, end),
                                payload_type,
                                payload_len,
                            },
                        )
                    }
                },
                _ => Err(PageError::CorruptChain),
            }
        }
    }
}

/// The overflow record of page `b`, which must be its only record and hold
/// at least one payload byte and no more than were left.
pub open spec fn spec_read_overflow(b: Seq<u8>) -> Result<OverflowView, PageError> {
    if num_of_slots(b) != 1 {
        Err(PageError::CorruptChain)
    } else {
        let start = slot_entry(b, 0);
        let end = PAGE_SIZE as int;
        if start + OVERFLOW_HEADER_SIZE >= end {
            Err(PageError::CorruptChain)
        } else {
            let remaining_len = u16_at(b, start);
            if end - (start + OVERFLOW_HEADER_SIZE) > remaining_len {
                Err(PageError::CorruptChain)
            } else {
                Ok(
                    OverflowView {
                        remaining_len,
                        chunk: b.subrange(start + OVERFLOW_HEADER_SIZE, end),
                    },
                )
            }
        }
    }
}

/// How the parts of an encoded record lie in it.
pub proof fn lemma_encode_record_layout(
    payload_len: int,
    payload_type: PayloadType,
    key_type: PayloadType,
    key: Seq<u8>,
    head: Seq<u8>,
)
    requires
        0 <= payload_len <= u16::MAX,
        key.len() <= u16::MAX,
    ensures
        ({
            let rec = encode_record(payload_len, payload_type, key_type, key, head);
            &&& rec.len() == RECORD_HEADER_SIZE + key.len() + head.len()
            &&& u16_at(rec, 0) == payload_len
            &&& rec[2] == spec_tag(payload_type)
            &&& u16_at(rec, 3) == key.len()
            &&& rec[5] == spec_tag(key_type)
            &&& rec.subrange(6, 6 + key.len() as int) == key
            &&& rec.subrange(6 + key.len() as int, rec.len() as int) == head
        }),
{
    let rec = encode_record(payload_len, payload_type, key_type, key, head);
    assert(rec.subrange(6, 6 + key.len() as int) =~= key);
    assert(rec.subrange(6 + key.len() as int, rec.len() as int) =~= head);
}

/// A record that was added to a page is read back from the new last slot.
pub proof fn lemma_read_added_record(
    b: Seq<u8>,
    payload_len: int,
    payload_type: PayloadType,
    key_type: PayloadType,
    key: Seq<u8>,
    head: Seq<u8>,
)
    requires
        page_wf(b),
        0 <= payload_len <= u16::MAX,
        head.len() <= payload_len,
        RECORD_HEADER_SIZE + key.len() + head.len() + SIZE_OF_SLOT_TABLE_ITEM <= free_size(b),
    ensures
        spec_read_slot(
            page_with_record(b, encode_record(payload_len, payload_type, key_type, key, head)),
            num_of_slots(b),
        ) == Ok::<RecordView, PageError>(
            RecordView { key, key_type, payload_head: head, payload_type, payload_len },
        ),
{
    let rec = encode_record(payload_len, payload_type, key_type, key, head);
    let r = page_with_record(b, rec);
    let n = num_of_slots(b);
    let fe = free_end(b);
    let start = fe - rec.len();
    lemma_encode_record_layout(payload_len, payload_type, key_type, key, head);
    lemma_page_with_record(b, rec);
    crate::types::lemma_tag_round_trip(payload_type);
    crate::types::lemma_tag_round_trip(key_type);
    assert(slot_entry(r, n) == start);
    assert(record_end(r, n) == fe) by {
        if n > 0 {
            assert(slot_entry(r, n - 1) == slot_entry(b, n - 1));
        }
    }
    assert(forall|j: int| 0 <= j < rec.len() ==> r[start + j] == rec[j]) by {
        assert forall|j: int| 0 <= j < rec.len() implies r[start + j] == rec[j] by {
            assert(r.subrange(start, fe)[j] == r[start + j]);
        }
    }
    assert(r[start] == rec[0]);
    assert(r[start + 1] == rec[1]);
    assert(r[start + 2] == rec[2]);
    assert(r[start + 3] == rec[3]);
    assert(r[start + 4] == rec[4]);
    assert(r[start + 5] == rec[5]);
    assert(r.subrange(start + 6, start + 6 + key.len() as int) =~= rec.subrange(6, 6 + key.len() as int));
    assert(r.subrange(start + 6 + key.len() as int, fe) =~= rec.subrange(
        6 + key.len() as int,
        rec.len() as int,
    ));
}

/// Adding a record leaves what the older slots hold as it was.
pub proof fn lemma_read_older_record(b: Seq<u8>, rec: Seq<u8>, index: int)
    requires
        page_wf(b),
        1 <= rec.len(),
        rec.len() + SIZE_OF_SLOT_TABLE_ITEM <= free_size(b),
        0 <= index < num_of_slots(b),
    ensures
        spec_read_slot(page_with_record(b, rec), index) == spec_read_slot(b, index),
{
    let r = page_with_record(b, rec);
    lemma_page_with_record(b, rec);
    let start = slot_entry(b, index);
    let end = record_end(b, index);
    assert(slot_entry(r, index) == start);
    assert(record_end(r, index) == end) by {
        if index > 0 {
            assert(slot_entry(r, index - 1) == slot_entry(b, index - 1));
        }
    }
    assert(free_end(b) <= start < PAGE_SIZE);
    assert(end <= PAGE_SIZE) by {
        if index > 0 {
            assert(slot_entry(b, index - 1) < PAGE_SIZE);
        }
    }
    if start + RECORD_HEADER_SIZE <= end {
        assert(r[start] == b[start]);
        assert(r[start + 1] == b[start + 1]);
        assert(r[start + 2] == b[start + 2]);
        assert(r[start + 3] == b[start + 3]);
        assert(r[start + 4] == b[start + 4]);
        assert(r[start + 5] == b[start + 5]);
        let key_len = u16_at(b, start + 3);
        let key_start = start + RECORD_HEADER_SIZE;
        if key_start + key_len <= end {
            assert(r.subrange(key_start, key_start + key_len) =~= b.subrange(
                key_start,
                key_start + key_len,
            ));
            assert(r.subrange(key_start + key_len, end) =~= b.subrange(
                key_start + key_len,
                end,
            ));
        }
    }
}

/// An overflow record that was added to an empty page is read back.
pub proof fn lemma_read_added_overflow(b: Seq<u8>, remaining_len: int, chunk: Seq<u8>)
    requires
        page_wf(b),
        num_of_slots(b) == 0,
        1 <= chunk.len() <= remaining_len <= u16::MAX,
        OVERFLOW_HEADER_SIZE + chunk.len() + SIZE_OF_SLOT_TABLE_ITEM <= free_size(b),
    ensures
        spec_read_overflow(page_with_record(b, encode_overflow(remaining_len, chunk))) == Ok::<
            OverflowView,
            PageError,
        >(OverflowView { remaining_len, chunk }),
{
    let rec = encode_overflow(remaining_len, chunk);
    let r = page_with_record(b, rec);
    let fe = free_end(b);
    let start = fe - rec.len();
    lemma_page_with_record(b, rec);
    assert(fe == PAGE_SIZE);
    assert(slot_entry(r, 0) == start);
    assert(forall|j: int| 0 <= j < rec.len() ==> r[start + j] == rec[j]) by {
        assert forall|j: int| 0 <= j < rec.len() implies r[start + j] == rec[j] by {
            assert(r.subrange(start, fe)[j] == r[start + j]);
        }
    }
    assert(r[start] == rec[0]);
    assert(r[start + 1] == rec[1]);
    assert(r.subrange(start + 2, fe) =~= chunk);
}

/// Writing a link into the header changes neither the page invariant nor
/// what the slots hold.
pub proof fn lemma_link_keeps_records(b: Seq<u8>, off: int, v: int)
    requires
        page_wf(b),
        0 <= v <= u16::MAX,
        off == OFFSET_PAGE_ID || off == OFFSET_LEFT_MOST || off == OFFSET_LEFT_SIBLING || off
            == OFFSET_RIGHT_SIBLING || off == OFFSET_PARENT_PAGE_ID,
    ensures
        page_wf(splice(b, off, le16(v))),
        num_of_slots(splice(b, off, le16(v))) == num_of_slots(b),
        free_start(splice(b, off, le16(v))) == free_start(b),
        free_end(splice(b, off, le16(v))) == free_end(b),
        forall|i: int| spec_read_slot(splice(b, off, le16(v)), i) == spec_read_slot(b, i),
        spec_read_overflow(splice(b, off, le16(v))) == spec_read_overflow(b),
{
    let r = splice(b, off, le16(v));
    assert(forall|i: int|
        0 <= i < num_of_slots(b) ==> #[trigger] slot_entry(r, i) == slot_entry(b, i));
    assert forall|i: int| spec_read_slot(r, i) == spec_read_slot(b, i) by {
        if 0 <= i < num_of_slots(b) {
            let start = slot_entry(b, i);
            let end = record_end(b, i);
            assert(record_end(r, i) == end) by {
                if i > 0 {
                    assert(slot_entry(r, i - 1) == slot_entry(b, i - 1));
                }
            }
            assert(end <= PAGE_SIZE) by {
                if i > 0 {
                    assert(slot_entry(b, i - 1) < PAGE_SIZE);
                }
            }
            if start + RECORD_HEADER_SIZE <= end {
                let key_len = u16_at(b, start + 3);
                let key_start = start + RECORD_HEADER_SIZE;
                if key_start + key_len <= end {
                    assert(r.subrange(key_start, key_start + key_len) =~= b.subrange(
                        key_start,
                        key_start + key_len,
                    ));
                    assert(r.subrange(key_start + key_len, end) =~= b.subrange(
                        key_start + key_len,
                        end,
                    ));
                }
            }
        }
    }
    if num_of_slots(b) == 1 {
        let start = slot_entry(b, 0);
        assert(free_end(b) <= start < PAGE_SIZE);
        if start + OVERFLOW_HEADER_SIZE < PAGE_SIZE {
            assert(r.subrange(start + 2, PAGE_SIZE as int) =~= b.subrange(
                start + 2,
                PAGE_SIZE as int,
            ));
        }
    }
}

} // verus!
