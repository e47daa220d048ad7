//! Byte layout of a page: the header, the slot table growing upwards from the
//! header and the record heap growing downwards from the end of the page.
//!
//! Everything here is stated over plain byte sequences so that the same
//! definitions describe a page in memory and its image in the backing file.
use vstd::layout::{layout_of_primitives, size_of};
use vstd::prelude::*;

verus! {

/// Identifier of a page; `0` stands for "no page".
pub type PageId = u16;

/// Offset or length inside a page.
pub type PSize = u16;

pub const PAGE_SIZE: PSize = 4096;

pub const PAGE_SIZE_USIZE: usize = 4096;

/// The page id that denotes the absence of a link.
pub const NO_PAGE: PageId = 0;

pub const SIZE_NUM_OF_SLOTS: usize = 2;

pub const SIZE_PAGE_ID: usize = 2;

pub const SIZE_PAGE_TYPE: usize = 1;

pub const SIZE_FLAGS: usize = 1;

pub const SIZE_LEFT_MOST: usize = 2;

pub const SIZE_LEFT_SIBLING: usize = 2;

pub const SIZE_RIGHT_SIBLING: usize = 2;

pub const SIZE_PARENT_PAGE_ID: usize = 2;

pub const SIZE_FREE_START: usize = 2;

pub const SIZE_FREE_END: usize = 2;

/// Bytes at the end of the header that no field uses yet.
pub const SIZE_RESERVED: usize = 2;

pub const SIZE_OF_SLOT_TABLE_ITEM: usize = 2;

pub const TOTAL_HEADER_SIZE: usize = 20;

pub const OFFSET_NUM_OF_SLOTS: usize = 0;

pub const OFFSET_PAGE_ID: usize = 2;

pub const OFFSET_PAGE_TYPE: usize = 4;

pub const OFFSET_FLAGS: usize = 5;

pub const OFFSET_LEFT_MOST: usize = 6;

pub const OFFSET_LEFT_SIBLING: usize = 8;

pub const OFFSET_RIGHT_SIBLING: usize = 10;

pub const OFFSET_PARENT_PAGE_ID: usize = 12;

pub const OFFSET_FREE_START: usize = 14;

pub const OFFSET_FREE_END: usize = 16;

/// Bytes in front of the key inside a record: payload length, payload type,
/// key length, key type.
pub const RECORD_HEADER_SIZE: usize = 6;

/// Space set aside for the fixed part of a record when deciding whether and
/// how much of a payload fits.
pub const RECORD_OVERHEAD: usize = 8;

/// Bytes in front of the payload inside an overflow record.
pub const OVERFLOW_HEADER_SIZE: usize = 2;

/// Payload bytes that fit beside an empty key on an empty page.
pub const HEAD_CAPACITY: usize = 4066;

/// Payload bytes that fit into the overflow record of an empty page.
pub const OVERFLOW_CAPACITY: usize = 4072;

pub const PAGE_TYPE_LEAF: u8 = 0;

pub const PAGE_TYPE_INNER: u8 = 1;

/// The header fields follow one another without gaps and, together with the
/// reserved bytes, fill the header.
pub proof fn lemma_header_layout()
    ensures
        OFFSET_PAGE_ID == OFFSET_NUM_OF_SLOTS + SIZE_NUM_OF_SLOTS,
        OFFSET_PAGE_TYPE == OFFSET_PAGE_ID + SIZE_PAGE_ID,
        OFFSET_FLAGS == OFFSET_PAGE_TYPE + SIZE_PAGE_TYPE,
        OFFSET_LEFT_MOST == OFFSET_FLAGS + SIZE_FLAGS,
        OFFSET_LEFT_SIBLING == OFFSET_LEFT_MOST + SIZE_LEFT_MOST,
        OFFSET_RIGHT_SIBLING == OFFSET_LEFT_SIBLING + SIZE_LEFT_SIBLING,
        OFFSET_PARENT_PAGE_ID == OFFSET_RIGHT_SIBLING + SIZE_RIGHT_SIBLING,
        OFFSET_FREE_START == OFFSET_PARENT_PAGE_ID + SIZE_PARENT_PAGE_ID,
        OFFSET_FREE_END == OFFSET_FREE_START + SIZE_FREE_START,
        TOTAL_HEADER_SIZE == OFFSET_FREE_END + SIZE_FREE_END + SIZE_RESERVED,
        PAGE_SIZE == PAGE_SIZE_USIZE,
        HEAD_CAPACITY == PAGE_SIZE - TOTAL_HEADER_SIZE - RECORD_OVERHEAD - SIZE_OF_SLOT_TABLE_ITEM,
        OVERFLOW_CAPACITY == PAGE_SIZE - TOTAL_HEADER_SIZE - OVERFLOW_HEADER_SIZE
            - SIZE_OF_SLOT_TABLE_ITEM,
{
}

/// Every header field is as wide as the type of the value it stores.
pub proof fn lemma_field_widths()
    ensures
        SIZE_NUM_OF_SLOTS == size_of::<PSize>(),
        SIZE_PAGE_ID == size_of::<PageId>(),
        SIZE_PAGE_TYPE == size_of::<u8>(),
        SIZE_FLAGS == size_of::<u8>(),
        SIZE_LEFT_MOST == size_of::<PageId>(),
        SIZE_LEFT_SIBLING == size_of::<PageId>(),
        SIZE_RIGHT_SIBLING == size_of::<PageId>(),
        SIZE_PARENT_PAGE_ID == size_of::<PageId>(),
        SIZE_FREE_START == size_of::<PSize>(),
        SIZE_FREE_END == size_of::<PSize>(),
        SIZE_OF_SLOT_TABLE_ITEM == size_of::<PSize>(),
        RECORD_HEADER_SIZE == 2 * size_of::<u16>() + 2 * size_of::<u8>(),
        RECORD_OVERHEAD == 3 * size_of::<u16>() + 2 * size_of::<u8>(),
        OVERFLOW_HEADER_SIZE == size_of::<u16>(),
{
    broadcast use layout_of_primitives;

}

/// The 16-bit little-endian number stored at `off`.
pub open spec fn u16_at(b: Seq<u8>, off: int) -> int {
    b[off] as int + 256 * (b[off + 1] as int)
}

/// The two bytes that store `v` in little-endian order.
pub open spec fn le16(v: int) -> Seq<u8> {
    seq![(v % 256) as u8, (v / 256) as u8]
}

/// `b` with `data` written over the bytes from `off` on.
pub open spec fn splice(b: Seq<u8>, off: int, data: Seq<u8>) -> Seq<u8> {
    Seq::new(
        b.len(),
        |i: int|
            if off <= i < off + data.len() {
                data[i - off]
            } else {
                b[i]
            },
    )
}

pub open spec fn num_of_slots(b: Seq<u8>) -> int {
    u16_at(b, OFFSET_NUM_OF_SLOTS as int)
}

pub open spec fn page_id(b: Seq<u8>) -> int {
    u16_at(b, OFFSET_PAGE_ID as int)
}

pub open spec fn page_type(b: Seq<u8>) -> int {
    b[OFFSET_PAGE_TYPE as int] as int
}

pub open spec fn flags(b: Seq<u8>) -> int {
    b[OFFSET_FLAGS as int] as int
}

pub open spec fn left_most_page_id(b: Seq<u8>) -> int {
    u16_at(b, OFFSET_LEFT_MOST as int)
}

pub open spec fn left_sibling(b: Seq<u8>) -> int {
    u16_at(b, OFFSET_LEFT_SIBLING as int)
}

pub open spec fn right_sibling(b: Seq<u8>) -> int {
    u16_at(b, OFFSET_RIGHT_SIBLING as int)
}

pub open spec fn parent(b: Seq<u8>) -> int {
    u16_at(b, OFFSET_PARENT_PAGE_ID as int)
}

pub open spec fn free_start(b: Seq<u8>) -> int {
    u16_at(b, OFFSET_FREE_START as int)
}

pub open spec fn free_end(b: Seq<u8>) -> int {
    u16_at(b, OFFSET_FREE_END as int)
}

/// Size of the gap between the slot table and the record heap; zero where
/// the two have crossed.
pub open spec fn free_size(b: Seq<u8>) -> int {
    if free_end(b) >= free_start(b) {
        free_end(b) - free_start(b)
    } else {
        0
    }
}

/// The `i`-th entry of the slot table: where the `i`-th inserted record
/// starts.
pub open spec fn slot_entry(b: Seq<u8>, i: int) -> int {
    u16_at(b, TOTAL_HEADER_SIZE as int + SIZE_OF_SLOT_TABLE_ITEM as int * i)
}

/// One past the last byte of the `i`-th inserted record. Records are packed
/// downwards, so a record ends where its predecessor starts.
pub open spec fn record_end(b: Seq<u8>, i: int) -> int {
    if i <= 0 {
        PAGE_SIZE as int
    } else {
        slot_entry(b, i - 1)
    }
}

/// The invariant of a page: the header counters agree with one another, the
/// slot table points into the record heap, and the heap starts at the record
/// inserted last.
pub open spec fn page_wf(b: Seq<u8>) -> bool {
    &&& b.len() == PAGE_SIZE
    &&& TOTAL_HEADER_SIZE <= free_start(b) <= free_end(b) <= PAGE_SIZE
    &&& free_start(b) - TOTAL_HEADER_SIZE == num_of_slots(b) * SIZE_OF_SLOT_TABLE_ITEM
    &&& forall|i: int|
        0 <= i < num_of_slots(b) ==> free_end(b) <= #[trigger] slot_entry(b, i) < PAGE_SIZE
    &&& free_end(b) == record_end(b, num_of_slots(b))
}

/// A page of the given identity and type that holds no record and no link.
pub open spec fn empty_page(id: PageId, page_type: u8) -> Seq<u8> {
    let zero = Seq::new(PAGE_SIZE as nat, |i: int| 0u8);
    let b = splice(zero, OFFSET_PAGE_ID as int, le16(id as int));
    let b = splice(b, OFFSET_PAGE_TYPE as int, seq![page_type]);
    let b = splice(b, OFFSET_FREE_START as int, le16(TOTAL_HEADER_SIZE as int));
    splice(b, OFFSET_FREE_END as int, le16(PAGE_SIZE as int))
}

/// `b` after `rec` has been put below the record heap and the heap's start
/// moved down to it.
pub open spec fn record_placed(b: Seq<u8>, rec: Seq<u8>) -> Seq<u8> {
    let at = free_end(b) - rec.len();
    splice(splice(b, at, rec), OFFSET_FREE_END as int, le16(at))
}

/// `b` after the slot table has grown by one entry that points to `at`.
pub open spec fn slot_added(b: Seq<u8>, at: int) -> Seq<u8> {
    let b1 = splice(b, free_start(b), le16(at));
    let b2 = splice(
        b1,
        OFFSET_FREE_START as int,
        le16(free_start(b) + SIZE_OF_SLOT_TABLE_ITEM as int),
    );
    splice(b2, OFFSET_NUM_OF_SLOTS as int, le16(num_of_slots(b) + 1))
}

/// `b` with one more record: `rec` lies directly below the former heap and
/// a new last slot points to it.
pub open spec fn page_with_record(b: Seq<u8>, rec: Seq<u8>) -> Seq<u8> {
    slot_added(record_placed(b, rec), free_end(b) - rec.len())
}

/// An empty page meets the page invariant and its gap spans everything
/// behind the header.
pub proof fn lemma_empty_page(id: PageId, ty: u8)
    ensures
        page_wf(empty_page(id, ty)),
        num_of_slots(empty_page(id, ty)) == 0,
        page_id(empty_page(id, ty)) == id,
        page_type(empty_page(id, ty)) == ty,
        flags(empty_page(id, ty)) == 0,
        left_most_page_id(empty_page(id, ty)) == 0,
        left_sibling(empty_page(id, ty)) == 0,
        right_sibling(empty_page(id, ty)) == 0,
        parent(empty_page(id, ty)) == 0,
        free_start(empty_page(id, ty)) == TOTAL_HEADER_SIZE,
        free_end(empty_page(id, ty)) == PAGE_SIZE,
        free_size(empty_page(id, ty)) == PAGE_SIZE - TOTAL_HEADER_SIZE,
{
}

/// Putting a record below the heap moves the heap's start and nothing else
/// in the header.
pub proof fn lemma_record_placed(b: Seq<u8>, rec: Seq<u8>)
    requires
        page_wf(b),
        rec.len() <= free_size(b),
    ensures
        record_placed(b, rec).len() == PAGE_SIZE,
        free_start(record_placed(b, rec)) == free_start(b),
        num_of_slots(record_placed(b, rec)) == num_of_slots(b),
        free_end(record_placed(b, rec)) == free_end(b) - rec.len(),
{
}

/// What adding a record does to a page: the counters move by the record's
/// and a slot entry's size, the older slots and records stay, the new slot
/// points to the new record, and the page invariant is kept.
pub proof fn lemma_page_with_record(b: Seq<u8>, rec: Seq<u8>)
    requires
        page_wf(b),
        1 <= rec.len(),
        rec.len() + SIZE_OF_SLOT_TABLE_ITEM <= free_size(b),
    ensures
        page_wf(page_with_record(b, rec)),
        num_of_slots(page_with_record(b, rec)) == num_of_slots(b) + 1,
        free_start(page_with_record(b, rec)) == free_start(b) + SIZE_OF_SLOT_TABLE_ITEM,
        free_end(page_with_record(b, rec)) == free_end(b) - rec.len(),
        free_size(page_with_record(b, rec)) == free_size(b) - (SIZE_OF_SLOT_TABLE_ITEM
            + rec.len()),
        page_id(page_with_record(b, rec)) == page_id(b),
        page_type(page_with_record(b, rec)) == page_type(b),
        flags(page_with_record(b, rec)) == flags(b),
        left_most_page_id(page_with_record(b, rec)) == left_most_page_id(b),
        left_sibling(page_with_record(b, rec)) == left_sibling(b),
        right_sibling(page_with_record(b, rec)) == right_sibling(b),
        parent(page_with_record(b, rec)) == parent(b),
        forall|i: int|
            0 <= i < num_of_slots(b) ==> #[trigger] slot_entry(page_with_record(b, rec), i)
                == slot_entry(b, i),
        slot_entry(page_with_record(b, rec), num_of_slots(b)) == free_end(b) - rec.len(),
        page_with_record(b, rec).subrange(free_end(b) - rec.len(), free_end(b)) == rec,
        forall|j: int|
            free_end(b) <= j < PAGE_SIZE ==> #[trigger] page_with_record(b, rec)[j] == b[j],
{
    let n = num_of_slots(b);
    let fs = free_start(b);
    let fe = free_end(b);
    let at = fe - rec.len();
    let p = record_placed(b, rec);
    let r = page_with_record(b, rec);
    assert(free_start(p) == fs);
    assert(num_of_slots(p) == n);
    assert(free_end(p) == at);
    assert(forall|i: int| 0 <= i < n ==> slot_entry(r, i) == slot_entry(b, i));
    assert(slot_entry(r, n) == at);
    assert(r.subrange(at, fe) =~= rec);
}

/// `b` after the records `recs` have been added to it one after the other.
pub open spec fn with_records(b: Seq<u8>, recs: Seq<Seq<u8>>) -> Seq<u8>
    decreases recs.len(),
{
    if recs.len() == 0 {
        b
    } else {
        page_with_record(with_records(b, recs.drop_last()), recs.last())
    }
}

/// On a page that meets the page invariant the gap lies behind the header
/// and inside the page, and the slot table fills the bytes between the
/// header and the gap.
pub proof fn lemma_page_bounds(b: Seq<u8>)
    requires
        page_wf(b),
    ensures
        TOTAL_HEADER_SIZE <= free_start(b) <= free_end(b) <= PAGE_SIZE,
        free_start(b) - TOTAL_HEADER_SIZE == num_of_slots(b) * 2,
        free_size(b) == free_end(b) - free_start(b),
        0 <= num_of_slots(b) <= (PAGE_SIZE - TOTAL_HEADER_SIZE) / 2,
{
}

/// Adding records of one size takes the size of a record and of a slot
/// entry out of the gap for each of them.
pub proof fn lemma_equal_records_free_size(b: Seq<u8>, recs: Seq<Seq<u8>>, size: int)
    requires
        page_wf(b),
        1 <= size,
        forall|i: int| 0 <= i < recs.len() ==> (#[trigger] recs[i]).len() == size,
        recs.len() * (SIZE_OF_SLOT_TABLE_ITEM + size) <= free_size(b),
    ensures
        page_wf(with_records(b, recs)),
        num_of_slots(with_records(b, recs)) == num_of_slots(b) + recs.len(),
        free_size(with_records(b, recs)) == free_size(b) - recs.len() * (SIZE_OF_SLOT_TABLE_ITEM
            + size),
    decreases recs.len(),
{
    if recs.len() > 0 {
        let n = recs.len() as int;
        let step = SIZE_OF_SLOT_TABLE_ITEM as int + size;
        assert((n - 1) * step + step == n * step) by (nonlinear_arith);
        assert((n - 1) * step >= 0) by (nonlinear_arith)
            requires
                n >= 1,
                step >= 0,
        ;
        lemma_equal_records_free_size(b, recs.drop_last(), size);
        lemma_page_with_record(with_records(b, recs.drop_last()), recs.last());
    }
}

/// After `recs.len()` records of one size were added to an empty page, the
/// gap is what lies behind the header less the records and their slot
/// entries.
pub proof fn lemma_equal_records_on_empty_page(
    id: PageId,
    ty: u8,
    recs: Seq<Seq<u8>>,
    size: int,
)
    requires
        1 <= size,
        forall|i: int| 0 <= i < recs.len() ==> (#[trigger] recs[i]).len() == size,
        recs.len() * (SIZE_OF_SLOT_TABLE_ITEM + size) <= PAGE_SIZE - TOTAL_HEADER_SIZE,
    ensures
        page_wf(with_records(empty_page(id, ty), recs)),
        num_of_slots(with_records(empty_page(id, ty), recs)) == recs.len(),
        free_size(with_records(empty_page(id, ty), recs)) == PAGE_SIZE - TOTAL_HEADER_SIZE
            - recs.len() * (SIZE_OF_SLOT_TABLE_ITEM + size),
{
    lemma_empty_page(id, ty);
    lemma_equal_records_free_size(empty_page(id, ty), recs, size);
}

} // verus!
