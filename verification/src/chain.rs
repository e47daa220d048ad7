//! Overflow chains: how a payload that is too long for one page is spread
//! over a head page and continuation pages, and how it is gathered again.
use vstd::prelude::*;
use crate::errors::PageError;
use crate::layout::{
    empty_page, le16, lemma_empty_page, lemma_page_with_record, page_id, page_wf,
    page_with_record, right_sibling, splice, PageId, HEAD_CAPACITY, NO_PAGE,
    OFFSET_RIGHT_SIBLING, OVERFLOW_CAPACITY, PAGE_TYPE_LEAF,
};
use crate::record::{
    encode_overflow, encode_record, lemma_link_keeps_records, lemma_read_added_overflow,
    lemma_read_added_record, min_int, overflow_fits, overflow_room, payload_room, record_fits,
    spec_read_overflow, spec_read_slot, OverflowView, RecordView,
};
use crate::types::PayloadType;

verus! {

/// Payload bytes that fit beside a key of `key_len` bytes on an empty page.
pub open spec fn head_room(key_len: int) -> int {
    HEAD_CAPACITY - key_len
}

/// How many of `total` payload bytes the first `i + 1` pages of a chain
/// hold together.
pub open spec fn chain_cut(key_len: int, total: int, i: int) -> int {
    min_int(total, head_room(key_len) + i * 4072)
}

/// How many pages the chain of a payload of `total` bytes has.
pub open spec fn chain_len(key_len: int, total: int) -> int {
    if total <= head_room(key_len) {
        1
    } else {
        1 + (total - head_room(key_len) + 4071) / 4072
    }
}

/// The page that follows page `i` of a chain, or `NO_PAGE` behind the last.
pub open spec fn chain_next(first: PageId, len: int, i: int) -> PageId {
    if i + 1 < len {
        (first + i + 1) as PageId
    } else {
        NO_PAGE
    }
}

/// The identifier of page `i` of the chain that starts at page `first`.
pub open spec fn chain_id(first: PageId, i: int) -> PageId {
    (first + i) as PageId
}

/// The record on page `i` of the chain that stores `payload` under `key`.
pub open spec fn chain_record(
    key: Seq<u8>,
    payload_type: PayloadType,
    payload: Seq<u8>,
    i: int,
) -> Seq<u8> {
    let total = payload.len() as int;
    let key_len = key.len() as int;
    if i <= 0 {
        encode_record(
            total,
            payload_type,
            PayloadType::Str,
            key,
            payload.subrange(0, chain_cut(key_len, total, 0)),
        )
    } else {
        encode_overflow(
            total - chain_cut(key_len, total, i - 1),
            payload.subrange(chain_cut(key_len, total, i - 1), chain_cut(key_len, total, i)),
        )
    }
}

/// A page with its link to the next page of the chain set, if there is one.
pub open spec fn linked(b: Seq<u8>, next: PageId) -> Seq<u8> {
    if next == NO_PAGE {
        b
    } else {
        splice(b, OFFSET_RIGHT_SIBLING as int, le16(next as int))
    }
}

/// Page `i` of the chain that starts at page `first` and stores `payload`
/// under `key`.
pub open spec fn chain_page(
    first: PageId,
    key: Seq<u8>,
    payload_type: PayloadType,
    payload: Seq<u8>,
    i: int,
) -> Seq<u8> {
    linked(
        page_with_record(
            empty_page((first + i) as PageId, PAGE_TYPE_LEAF),
            chain_record(key, payload_type, payload, i),
        ),
        chain_next(first, chain_len(key.len() as int, payload.len() as int), i),
    )
}

/// `pages` together with the first `count` pages of the chain that starts at
/// page `first` and stores `payload` under `key`.
pub open spec fn with_chain_prefix(
    pages: Map<PageId, Seq<u8>>,
    first: PageId,
    key: Seq<u8>,
    payload_type: PayloadType,
    payload: Seq<u8>,
    count: int,
) -> Map<PageId, Seq<u8>> {
    Map::new(
        |id: PageId| pages.contains_key(id) || first <= id < first + count,
        |id: PageId|
            if first <= id < first + count {
                chain_page(first, key, payload_type, payload, id - first)
            } else {
                pages[id]
            },
    )
}

/// `pages` together with the chain that starts at page `first` and stores
/// `payload` under `key`.
pub open spec fn with_chain(
    pages: Map<PageId, Seq<u8>>,
    first: PageId,
    key: Seq<u8>,
    payload_type: PayloadType,
    payload: Seq<u8>,
) -> Map<PageId, Seq<u8>> {
    with_chain_prefix(
        pages,
        first,
        key,
        payload_type,
        payload,
        chain_len(key.len() as int, payload.len() as int),
    )
}

/// `head` followed by the bytes of `rest`, where there are any.
pub open spec fn prepend(head: Seq<u8>, rest: Result<Seq<u8>, PageError>) -> Result<
    Seq<u8>,
    PageError,
> {
    match rest {
        Ok(bytes) => Ok(head + bytes),
        Err(e) => Err(e),
    }
}

/// Whether `pages` holds every page of the chain that starts at page `first`
/// and stores `payload` under `key`.
pub open spec fn holds_chain(
    pages: Map<PageId, Seq<u8>>,
    first: PageId,
    key: Seq<u8>,
    payload_type: PayloadType,
    payload: Seq<u8>,
) -> bool {
    forall|i: int|
        0 <= i < chain_len(key.len() as int, payload.len() as int) ==> pages.contains_key(
            #[trigger] chain_id(first, i),
        ) && pages[chain_id(first, i)] == chain_page(first, key, payload_type, payload, i)
}

/// The payload bytes that the overflow chain from page `id` on holds, where
/// `remaining` bytes are expected, or why they cannot be gathered: a page is
/// missing, or the chain ends early or disagrees with what is expected.
pub open spec fn spec_gather(pages: Map<PageId, Seq<u8>>, id: PageId, remaining: int) -> Result<
    Seq<u8>,
    PageError,
>
    decreases remaining,
{
    if remaining <= 0 {
        Ok(Seq::empty())
    } else if id == NO_PAGE {
        Err(PageError::CorruptChain)
    } else if !pages.contains_key(id) {
        Err(PageError::NotFound)
    } else {
        match spec_read_overflow(pages[id]) {
            Err(e) => Err(e),
            Ok(record) => {
                if record.remaining_len != remaining || record.chunk.len() == 0 || record.chunk.len()
                    > remaining {
                    Err(PageError::CorruptChain)
                } else {
                    prepend(
                        record.chunk,
                        spec_gather(
                            pages,
                            right_sibling(pages[id]) as PageId,
                            remaining - record.chunk.len(),
                        ),
                    )
                }
            },
        }
    }
}

/// The whole payload of the record in slot `slot` of page `head`: the bytes
/// stored with the record, followed by those of the overflow chain.
pub open spec fn spec_read_payload(pages: Map<PageId, Seq<u8>>, head: PageId, slot: int) -> Result<
    Seq<u8>,
    PageError,
> {
    if !pages.contains_key(head) {
        Err(PageError::NotFound)
    } else {
        match spec_read_slot(pages[head], slot) {
            Err(e) => Err(e),
            Ok(record) => prepend(
                record.payload_head,
                spec_gather(
                    pages,
                    right_sibling(pages[head]) as PageId,
                    record.payload_len - record.payload_head.len(),
                ),
            ),
        }
    }
}

/// Whether a payload of `total` bytes under a key of `key_len` bytes can be
/// stored as a chain.
pub open spec fn chain_storable(key_len: int, total: int) -> bool {
    &&& 0 <= key_len
    &&& key_len + 1 <= head_room(0)
    &&& 0 <= total <= u16::MAX
}

/// The pages of a chain fill up one after the other: each but the last is
/// filled to its capacity, and the chain ends with the page that takes the
/// last byte.
pub proof fn lemma_chain_cuts(key_len: int, total: int, i: int)
    requires
        chain_storable(key_len, total),
        0 <= i,
    ensures
        0 <= chain_cut(key_len, total, i) <= total,
        chain_cut(key_len, total, i) == total <==> i + 1 >= chain_len(key_len, total),
        chain_cut(key_len, total, 0) <= head_room(key_len),
        i >= 1 ==> chain_cut(key_len, total, i - 1) <= chain_cut(key_len, total, i)
            <= chain_cut(key_len, total, i - 1) + OVERFLOW_CAPACITY,
        i >= 1 && i < chain_len(key_len, total) ==> chain_cut(key_len, total, i - 1)
            < chain_cut(key_len, total, i),
        1 <= chain_len(key_len, total) <= 18,
{
}

/// What page `i` of a chain holds: it meets the page invariant, carries its
/// own identifier and the link to its successor, and its one record is read
/// back as it was written.
pub proof fn lemma_chain_page(
    first: PageId,
    key: Seq<u8>,
    payload_type: PayloadType,
    payload: Seq<u8>,
    i: int,
)
    requires
        chain_storable(key.len() as int, payload.len() as int),
        0 <= i < chain_len(key.len() as int, payload.len() as int),
        first + chain_len(key.len() as int, payload.len() as int) <= u16::MAX + 1,
    ensures
        ({
            let page = chain_page(first, key, payload_type, payload, i);
            let key_len = key.len() as int;
            let total = payload.len() as int;
            &&& page_wf(page)
            &&& page_id(page) == first + i
            &&& right_sibling(page) == chain_next(first, chain_len(key_len, total), i)
            &&& i == 0 ==> spec_read_slot(page, 0) == Ok::<RecordView, PageError>(
                RecordView {
                    key,
                    key_type: PayloadType::Str,
                    payload_head: payload.subrange(0, chain_cut(key_len, total, 0)),
                    payload_type,
                    payload_len: total,
                },
            )
            &&& i >= 1 ==> spec_read_overflow(page) == Ok::<OverflowView, PageError>(
                OverflowView {
                    remaining_len: total - chain_cut(key_len, total, i - 1),
                    chunk: payload.subrange(
                        chain_cut(key_len, total, i - 1),
                        chain_cut(key_len, total, i),
                    ),
                },
            )
        }),
{
    let key_len = key.len() as int;
    let total = payload.len() as int;
    let id = (first + i) as PageId;
    let empty = empty_page(id, PAGE_TYPE_LEAF);
    let rec = chain_record(key, payload_type, payload, i);
    let unlinked = page_with_record(empty, rec);
    let next = chain_next(first, chain_len(key_len, total), i);
    lemma_empty_page(id, PAGE_TYPE_LEAF);
    lemma_chain_cuts(key_len, total, i);
    if i == 0 {
        let head = payload.subrange(0, chain_cut(key_len, total, 0));
        crate::record::lemma_encode_record_layout(
            total,
            payload_type,
            PayloadType::Str,
            key,
            head,
        );
        lemma_page_with_record(empty, rec);
        lemma_read_added_record(empty, total, payload_type, PayloadType::Str, key, head);
    } else {
        lemma_chain_cuts(key_len, total, i - 1);
        let chunk = payload.subrange(
            chain_cut(key_len, total, i - 1),
            chain_cut(key_len, total, i),
        );
        lemma_page_with_record(empty, rec);
        lemma_read_added_overflow(empty, total - chain_cut(key_len, total, i - 1), chunk);
    }
    if next != NO_PAGE {
        lemma_link_keeps_records(unlinked, OFFSET_RIGHT_SIBLING as int, next as int);
    }
}

/// The overflow pages of a chain, from page `j` on, give back the payload
/// bytes that the pages before `j` do not hold.
pub proof fn lemma_gather_chain(
    pages: Map<PageId, Seq<u8>>,
    first: PageId,
    key: Seq<u8>,
    payload_type: PayloadType,
    payload: Seq<u8>,
    j: int,
)
    requires
        chain_storable(key.len() as int, payload.len() as int),
        1 <= first,
        first + chain_len(key.len() as int, payload.len() as int) <= u16::MAX + 1,
        1 <= j <= chain_len(key.len() as int, payload.len() as int),
        holds_chain(pages, first, key, payload_type, payload),
    ensures
        spec_gather(
            pages,
            chain_next(first, chain_len(key.len() as int, payload.len() as int), j - 1),
            payload.len() - chain_cut(key.len() as int, payload.len() as int, j - 1),
        ) == Ok::<Seq<u8>, PageError>(
            payload.subrange(
                chain_cut(key.len() as int, payload.len() as int, j - 1),
                payload.len() as int,
            ),
        ),
    decreases chain_len(key.len() as int, payload.len() as int) - j,
{
    let key_len = key.len() as int;
    let total = payload.len() as int;
    let n = chain_len(key_len, total);
    let before = chain_cut(key_len, total, j - 1);
    lemma_chain_cuts(key_len, total, j - 1);
    if j == n {
        assert(before == total);
        assert(payload.subrange(before, total) =~= Seq::<u8>::empty());
    } else {
        let id = (first + j) as PageId;
        let here = chain_cut(key_len, total, j);
        lemma_chain_cuts(key_len, total, j);
        lemma_chain_page(first, key, payload_type, payload, j);
        lemma_gather_chain(pages, first, key, payload_type, payload, j + 1);
        assert(pages[chain_id(first, j)] == chain_page(first, key, payload_type, payload, j));
        let chunk = payload.subrange(before, here);
        assert(chunk.len() == here - before);
        assert(total - before - chunk.len() == total - here);
        assert(chunk + payload.subrange(here, total) =~= payload.subrange(before, total));
    }
}

/// A payload that was stored as a chain is read back whole from slot zero
/// of the chain's first page.
pub proof fn lemma_chain_reads_back(
    pages: Map<PageId, Seq<u8>>,
    first: PageId,
    key: Seq<u8>,
    payload_type: PayloadType,
    payload: Seq<u8>,
)
    requires
        chain_storable(key.len() as int, payload.len() as int),
        1 <= first,
        first + chain_len(key.len() as int, payload.len() as int) <= u16::MAX + 1,
        holds_chain(pages, first, key, payload_type, payload),
    ensures
        spec_read_payload(pages, first, 0) == Ok::<Seq<u8>, PageError>(payload),
{
    let key_len = key.len() as int;
    let total = payload.len() as int;
    lemma_chain_cuts(key_len, total, 0);
    lemma_chain_page(first, key, payload_type, payload, 0);
    lemma_gather_chain(pages, first, key, payload_type, payload, 1);
    assert(pages[chain_id(first, 0)] == chain_page(first, key, payload_type, payload, 0));
    let cut = chain_cut(key_len, total, 0);
    assert(payload.subrange(0, cut) + payload.subrange(cut, total) =~= payload);
}

/// Storing a chain behind the pages that are held keeps those pages as they
/// are, and every page of the set is well formed and held under its own
/// identifier.
pub proof fn lemma_with_chain(
    pages: Map<PageId, Seq<u8>>,
    first: PageId,
    key: Seq<u8>,
    payload_type: PayloadType,
    payload: Seq<u8>,
)
    requires
        chain_storable(key.len() as int, payload.len() as int),
        1 <= first,
        first + chain_len(key.len() as int, payload.len() as int) <= u16::MAX + 1,
        forall|id: PageId| #[trigger]
            pages.contains_key(id) ==> page_wf(pages[id]) && page_id(pages[id]) == id && 1 <= id
                < first,
    ensures
        holds_chain(
            with_chain(pages, first, key, payload_type, payload),
            first,
            key,
            payload_type,
            payload,
        ),
        forall|id: PageId| #[trigger]
            pages.contains_key(id) ==> with_chain(
                pages,
                first,
                key,
                payload_type,
                payload,
            ).contains_key(id) && with_chain(pages, first, key, payload_type, payload)[id]
                == pages[id],
        forall|id: PageId| #[trigger]
            with_chain(pages, first, key, payload_type, payload).contains_key(id) ==> {
                &&& page_wf(with_chain(pages, first, key, payload_type, payload)[id])
                &&& page_id(with_chain(pages, first, key, payload_type, payload)[id]) == id
                &&& 1 <= id < first + chain_len(key.len() as int, payload.len() as int)
            },
{
    let n = chain_len(key.len() as int, payload.len() as int);
    let all = with_chain(pages, first, key, payload_type, payload);
    assert forall|i: int| 0 <= i < n implies all.contains_key(#[trigger] chain_id(first, i))
        && all[chain_id(first, i)] == chain_page(first, key, payload_type, payload, i) by {
        assert(chain_id(first, i) - first == i);
    }
    assert forall|id: PageId| #[trigger] all.contains_key(id) implies page_wf(all[id])
        && page_id(all[id]) == id && 1 <= id < first + n by {
        if first <= id < first + n {
            lemma_chain_page(first, key, payload_type, payload, id - first);
        } else {
            assert(pages.contains_key(id));
        }
    }
}

/// The record that an empty page takes when a payload is stored under a
/// key is the first record of the payload's chain.
pub proof fn lemma_head_record(
    id: PageId,
    key: Seq<u8>,
    payload_type: PayloadType,
    payload: Seq<u8>,
)
    requires
        chain_storable(key.len() as int, payload.len() as int),
    ensures
        record_fits(empty_page(id, PAGE_TYPE_LEAF), key.len() as int),
        payload_room(empty_page(id, PAGE_TYPE_LEAF), key.len() as int) == head_room(
            key.len() as int,
        ),
        min_int(payload.len() as int, head_room(key.len() as int)) == chain_cut(
            key.len() as int,
            payload.len() as int,
            0,
        ),
        encode_record(
            payload.len() as int,
            payload_type,
            PayloadType::Str,
            key,
            payload.take(chain_cut(key.len() as int, payload.len() as int, 0)),
        ) == chain_record(key, payload_type, payload, 0),
{
    lemma_empty_page(id, PAGE_TYPE_LEAF);
    let cut = chain_cut(key.len() as int, payload.len() as int, 0);
    assert(payload.take(cut) =~= payload.subrange(0, cut));
}

/// The overflow record that an empty page takes when the first `i + 1`
/// pages of a chain did not hold the whole payload is the chain's next
/// record.
pub proof fn lemma_overflow_record(
    id: PageId,
    key: Seq<u8>,
    payload_type: PayloadType,
    payload: Seq<u8>,
    i: int,
)
    requires
        chain_storable(key.len() as int, payload.len() as int),
        0 <= i,
        chain_cut(key.len() as int, payload.len() as int, i) < payload.len(),
    ensures
        overflow_fits(empty_page(id, PAGE_TYPE_LEAF)),
        overflow_room(empty_page(id, PAGE_TYPE_LEAF)) == OVERFLOW_CAPACITY,
        i + 1 < chain_len(key.len() as int, payload.len() as int),
        chain_cut(key.len() as int, payload.len() as int, i) + min_int(
            payload.len() - chain_cut(key.len() as int, payload.len() as int, i),
            OVERFLOW_CAPACITY as int,
        ) == chain_cut(key.len() as int, payload.len() as int, i + 1),
        encode_overflow(
            payload.len() - chain_cut(key.len() as int, payload.len() as int, i),
            payload.skip(chain_cut(key.len() as int, payload.len() as int, i)).take(
                chain_cut(key.len() as int, payload.len() as int, i + 1) - chain_cut(
                    key.len() as int,
                    payload.len() as int,
                    i,
                ),
            ),
        ) == chain_record(key, payload_type, payload, i + 1),
{
    lemma_empty_page(id, PAGE_TYPE_LEAF);
    lemma_chain_cuts(key.len() as int, payload.len() as int, i);
    lemma_chain_cuts(key.len() as int, payload.len() as int, i + 1);
    let before = chain_cut(key.len() as int, payload.len() as int, i);
    let after = chain_cut(key.len() as int, payload.len() as int, i + 1);
    assert(payload.skip(before).take(after - before) =~= payload.subrange(before, after));
}

/// Taking page `count` of a chain in extends the pages held by that page.
pub proof fn lemma_chain_grows(
    pages: Map<PageId, Seq<u8>>,
    first: PageId,
    key: Seq<u8>,
    payload_type: PayloadType,
    payload: Seq<u8>,
    count: int,
)
    requires
        0 <= count,
        first + count <= u16::MAX,
    ensures
        with_chain_prefix(pages, first, key, payload_type, payload, count).insert(
            chain_id(first, count),
            chain_page(first, key, payload_type, payload, count),
        ) == with_chain_prefix(pages, first, key, payload_type, payload, count + 1),
        with_chain_prefix(pages, first, key, payload_type, payload, 0) == pages,
{
    assert(with_chain_prefix(pages, first, key, payload_type, payload, count).insert(
        chain_id(first, count),
        chain_page(first, key, payload_type, payload, count),
    ) =~= with_chain_prefix(pages, first, key, payload_type, payload, count + 1));
    assert(with_chain_prefix(pages, first, key, payload_type, payload, 0) =~= pages);
}

} // verus!
