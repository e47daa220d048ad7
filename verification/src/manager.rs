//! The page manager: hands out page identifiers, keeps the pages by
//! identifier, builds overflow chains and reads records across them.
use std::collections::HashMap;
use vstd::prelude::*;
use vstd::std_specs::hash::group_hash_axioms;
use vstd::string::StringSliceAdditionalSpecFns;
use crate::chain::{
    chain_cut, chain_len, chain_page, chain_record, chain_storable, lemma_chain_cuts,
    lemma_chain_grows, lemma_chain_reads_back, lemma_head_record, lemma_overflow_record,
    lemma_with_chain, prepend, spec_gather, spec_read_payload, with_chain, with_chain_prefix,
};
use crate::errors::PageError;
use crate::layout;
use crate::layout::{
    empty_page, le16, page_wf, page_with_record, splice, PageId, HEAD_CAPACITY, NO_PAGE,
    OFFSET_LEFT_MOST, OFFSET_LEFT_SIBLING, OFFSET_PARENT_PAGE_ID, OFFSET_RIGHT_SIBLING,
    OVERFLOW_CAPACITY, PAGE_SIZE, PAGE_SIZE_USIZE, PAGE_TYPE_INNER, PAGE_TYPE_LEAF,
    SIZE_PAGE_ID,
};
use crate::paging::SlottedPage;
use crate::record::{
    encode_overflow, encode_record, lemma_link_keeps_records, min_int, payload_room, record_fits,
};
use crate::types::{Payload, PayloadType};

verus! {

broadcast use group_hash_axioms;

/// One more than the largest page identifier.
pub const PAGE_ID_LIMIT: u32 = 65536;

/// The links a page can have to other pages; `NO_PAGE` where there is none.
#[derive(Clone, Copy, Debug, PartialEq, Eq, Structural)]
pub struct Links {
    pub left_most: PageId,
    pub left: PageId,
    pub right: PageId,
    pub parent: PageId,
}

/// Where the construction of a chain stands.
#[derive(Clone, Copy, Debug, PartialEq, Eq, Structural)]
pub enum ChainState {
    /// The first page, with the key, is to be written.
    WritingHead,
    /// Payload bytes are left for a further page.
    WritingOverflow,
    /// The whole payload is stored.
    Done,
}

impl ChainState {
    /// The state after a page has been written and `remaining` payload
    /// bytes are left.
    pub fn after_write(self, remaining: usize) -> (next: ChainState)
        ensures
            next == (if self == ChainState::Done || remaining == 0 {
                ChainState::Done
            } else {
                ChainState::WritingOverflow
            }),
    {
        match self {
            ChainState::Done => ChainState::Done,
            _ => if remaining == 0 {
                ChainState::Done
            } else {
                ChainState::WritingOverflow
            },
        }
    }
}

/// Where a page stands between memory and the backing file.
#[derive(Clone, Copy, Debug, PartialEq, Eq, Structural)]
pub enum PageState {
    /// Newly made and not changed since.
    Allocated,
    /// Changed since it was last written to the backing file.
    Dirty,
    /// The same as in the backing file.
    Clean,
    /// Not held any more.
    Evicted,
}

/// What can happen to a page that is held.
#[derive(Clone, Copy, Debug, PartialEq, Eq, Structural)]
pub enum PageEvent {
    /// Its header or its records were changed.
    Mutated,
    /// It was written to the backing file.
    Written,
    /// It is to be dropped from memory.
    Dropped,
}

/// The state that `event` takes a page in state `state` to; `None` where
/// the event is not allowed: nothing happens to a page that is not held, and
/// a page is dropped only when the backing file holds what it holds.
pub open spec fn spec_after(state: PageState, event: PageEvent) -> Option<PageState> {
    match (state, event) {
        (PageState::Evicted, _) => None,
        (_, PageEvent::Mutated) => Some(PageState::Dirty),
        (_, PageEvent::Written) => Some(PageState::Clean),
        (PageState::Clean, PageEvent::Dropped) => Some(PageState::Evicted),
        (_, PageEvent::Dropped) => None,
    }
}

/// Only a clean page can be dropped, and whatever was changed is dirty until
/// it is written.
pub proof fn lemma_page_lifecycle(state: PageState, event: PageEvent)
    ensures
        spec_after(state, PageEvent::Dropped) is Some <==> state == PageState::Clean,
        spec_after(state, event) == Some(PageState::Evicted) ==> state == PageState::Clean
            && event == PageEvent::Dropped,
        state != PageState::Evicted ==> spec_after(state, PageEvent::Mutated) == Some(
            PageState::Dirty,
        ) && spec_after(state, PageEvent::Written) == Some(PageState::Clean),
        spec_after(state, event) != Some(PageState::Allocated),
{
}

impl PageState {
    /// The state that `event` takes a page in this state to, if the event is
    /// allowed.
    pub fn after(self, event: PageEvent) -> (next: Option<PageState>)
        ensures
            next == spec_after(self, event),
    {
        match self {
            PageState::Evicted => None,
            PageState::Clean => match event {
                PageEvent::Mutated => Some(PageState::Dirty),
                PageEvent::Written => Some(PageState::Clean),
                PageEvent::Dropped => Some(PageState::Evicted),
            },
            _ => match event {
                PageEvent::Mutated => Some(PageState::Dirty),
                PageEvent::Written => Some(PageState::Clean),
                PageEvent::Dropped => None,
            },
        }
    }
}

/// Whether page `b` has room for an entry that maps a key of `key_len`
/// bytes to the identifier of a page.
pub open spec fn inner_entry_fits(b: Seq<u8>, key_len: int) -> bool {
    record_fits(b, key_len) && payload_room(b, key_len) >= SIZE_PAGE_ID
}

/// A page after its four links have been set.
pub open spec fn with_links(b: Seq<u8>, links: Links) -> Seq<u8> {
    let b = splice(b, OFFSET_LEFT_MOST as int, le16(links.left_most as int));
    let b = splice(b, OFFSET_LEFT_SIBLING as int, le16(links.left as int));
    let b = splice(b, OFFSET_RIGHT_SIBLING as int, le16(links.right as int));
    splice(b, OFFSET_PARENT_PAGE_ID as int, le16(links.parent as int))
}

/// The pages held after `page` was taken over under its own identifier.
pub open spec fn spec_write(pages: Map<PageId, Seq<u8>>, page: Seq<u8>) -> Map<PageId, Seq<u8>> {
    pages.insert(layout::page_id(page) as PageId, page)
}

/// The bytes of the page that is held under `id`, if one is.
pub open spec fn spec_read(pages: Map<PageId, Seq<u8>>, id: PageId) -> Option<Seq<u8>> {
    if pages.contains_key(id) {
        Some(pages[id])
    } else {
        None
    }
}

/// A page that was written is read back, byte for byte, under its
/// identifier, and the other pages are read as before.
pub proof fn lemma_write_then_read(pages: Map<PageId, Seq<u8>>, page: Seq<u8>, other: PageId)
    requires
        page_wf(page),
    ensures
        spec_read(spec_write(pages, page), layout::page_id(page) as PageId) == Some(page),
        other != layout::page_id(page) ==> spec_read(spec_write(pages, page), other) == spec_read(
            pages,
            other,
        ),
{
}

/// The pages of an index, by identifier, and the identifier that the next
/// new page gets.
#[derive(Debug)]
pub struct PageManager {
    cache: HashMap<PageId, CachedPage>,
    next_page_id: u32,
}

/// A page that is held, and where it stands.
#[derive(Debug)]
struct CachedPage {
    page: SlottedPage,
    state: PageState,
}

/// `states` with the `count` pages from `first` on in the state `state`.
pub open spec fn with_states(
    states: Map<PageId, PageState>,
    first: PageId,
    count: int,
    state: PageState,
) -> Map<PageId, PageState> {
    Map::new(
        |id: PageId| states.contains_key(id) || first <= id < first + count,
        |id: PageId|
            if first <= id < first + count {
                state
            } else {
                states[id]
            },
    )
}

/// Marking one more page extends the marked pages by that page.
pub proof fn lemma_states_grow(
    states: Map<PageId, PageState>,
    first: PageId,
    count: int,
    state: PageState,
)
    requires
        0 <= count,
        first + count <= u16::MAX,
    ensures
        with_states(states, first, count, state).insert((first + count) as PageId, state)
            == with_states(states, first, count + 1, state),
        with_states(states, first, 0, state) == states,
{
    assert(with_states(states, first, count, state).insert((first + count) as PageId, state)
        =~= with_states(states, first, count + 1, state));
    assert(with_states(states, first, 0, state) =~= states);
}

/// Well-formed pages stay so when a well-formed page is taken in under its
/// own identifier.
proof fn lemma_put_keeps_wf(before: PageManager, after: PageManager, id: PageId, state: PageState)
    requires
        before.wf(),
        id != NO_PAGE,
        state != PageState::Evicted,
        after.pages().contains_key(id),
        page_wf(after.pages()[id]),
        layout::page_id(after.pages()[id]) == id,
        after.pages() == before.pages().insert(id, after.pages()[id]),
        after.states() == before.states().insert(id, state),
        before.next_id() <= after.next_id() <= PAGE_ID_LIMIT,
        id < after.next_id(),
    ensures
        after.wf(),
{
    assert forall|other: PageId| #[trigger] after.pages().contains_key(other) implies page_wf(
        after.pages()[other],
    ) && layout::page_id(after.pages()[other]) == other && 1 <= other < after.next_id() by {
        if other != id {
            assert(before.pages().contains_key(other));
        }
    }
    assert forall|other: PageId|
        after.pages().contains_key(other) <==> #[trigger] after.states().contains_key(other) by {
        if other != id {
            assert(before.states().contains_key(other) <==> before.pages().contains_key(other));
        }
    }
    assert forall|other: PageId| #[trigger] after.states().contains_key(other) implies after.states()[other]
        != PageState::Evicted by {
        if other != id {
            assert(before.states().contains_key(other));
        }
    }
}

/// Well-formed pages stay so when a chain is stored behind them.
proof fn lemma_chain_keeps_wf(
    before: PageManager,
    after: PageManager,
    key: Seq<u8>,
    kind: PayloadType,
    bytes: Seq<u8>,
)
    requires
        before.wf(),
        chain_storable(key.len() as int, bytes.len() as int),
        before.next_id() + chain_len(key.len() as int, bytes.len() as int) <= PAGE_ID_LIMIT,
        after.next_id() == before.next_id() + chain_len(key.len() as int, bytes.len() as int),
        after.pages() == with_chain(
            before.pages(),
            before.next_id() as PageId,
            key,
            kind,
            bytes,
        ),
        after.states() == with_states(
            before.states(),
            before.next_id() as PageId,
            chain_len(key.len() as int, bytes.len() as int),
            PageState::Dirty,
        ),
    ensures
        after.wf(),
        spec_read_payload(after.pages(), before.next_id() as PageId, 0) == Ok::<
            Seq<u8>,
            PageError,
        >(bytes),
{
    let first = before.next_id() as PageId;
    lemma_with_chain(before.pages(), first, key, kind, bytes);
    lemma_chain_reads_back(after.pages(), first, key, kind, bytes);
    assert forall|id: PageId|
        after.pages().contains_key(id) <==> #[trigger] after.states().contains_key(id) by {
        assert(before.states().contains_key(id) <==> before.pages().contains_key(id));
    }
    assert forall|id: PageId| #[trigger] after.states().contains_key(id) implies after.states()[id]
        != PageState::Evicted by {
        if before.states().contains_key(id) {
        }
    }
}

impl PageManager {
    /// The bytes of every page that is held, by identifier.
    pub closed spec fn pages(&self) -> Map<PageId, Seq<u8>> {
        Map::new(|id: PageId| self.cache@.contains_key(id), |id: PageId| self.cache@[id].page@)
    }

    /// Where every page that is held stands, by identifier.
    pub closed spec fn states(&self) -> Map<PageId, PageState> {
        Map::new(|id: PageId| self.cache@.contains_key(id), |id: PageId| self.cache@[id].state)
    }

    /// Where the page `id` stands; a page that is not held is evicted.
    pub open spec fn spec_state(&self, id: PageId) -> PageState {
        if self.states().contains_key(id) {
            self.states()[id]
        } else {
            PageState::Evicted
        }
    }

    /// The identifier that the next new page gets; `PAGE_ID_LIMIT` once
    /// every identifier has been handed out.
    pub closed spec fn next_id(&self) -> int {
        self.next_page_id as int
    }

    /// The invariant of the manager: every page meets the page invariant and
    /// is held under its own identifier, which has been handed out and is
    /// not `NO_PAGE`.
    pub open spec fn wf(&self) -> bool {
        &&& 1 <= self.next_id() <= PAGE_ID_LIMIT
        &&& forall|id: PageId| #[trigger]
            self.pages().contains_key(id) ==> page_wf(self.pages()[id]) && layout::page_id(
                self.pages()[id],
            ) == id && 1 <= id < self.next_id()
        &&& forall|id: PageId|
            self.pages().contains_key(id) <==> #[trigger] self.states().contains_key(id)
        &&& forall|id: PageId| #[trigger]
            self.states().contains_key(id) ==> self.states()[id] != PageState::Evicted
    }

    /// A manager that holds no page; the first page gets the identifier 1.
    pub fn new() -> (manager: Self)
        ensures
            manager.wf(),
            manager.pages() == Map::<PageId, Seq<u8>>::empty(),
            manager.states() == Map::<PageId, PageState>::empty(),
            manager.next_id() == 1,
    {
        let manager = PageManager { cache: HashMap::new(), next_page_id: 1 };
        proof {
            assert(manager.pages() =~= Map::<PageId, Seq<u8>>::empty());
            assert(manager.states() =~= Map::<PageId, PageState>::empty());
        }
        manager
    }

    /// The identifier that the next new page gets.
    pub fn next_page_id(&self) -> (id: u32)
        ensures
            id == self.next_id(),
    {
        self.next_page_id
    }

    /// Whether the page is held.
    pub fn contains(&self, page_id: PageId) -> (held: bool)
        ensures
            held == self.pages().contains_key(page_id),
    {
        self.cache.contains_key(&page_id)
    }

    /// Holds `page` under `id` from now on, in the given state.
    fn put(&mut self, id: PageId, page: SlottedPage, state: PageState)
        ensures
            final(self).pages() == old(self).pages().insert(id, page@),
            final(self).states() == old(self).states().insert(id, state),
            final(self).next_id() == old(self).next_id(),
    {
        self.cache.insert(id, CachedPage { page, state });
        proof {
            assert(final(self).pages() =~= old(self).pages().insert(id, page@));
            assert(final(self).states() =~= old(self).states().insert(id, state));
        }
    }

    /// Where the page stands.
    pub fn state(&self, page_id: PageId) -> (state: PageState)
        ensures
            state == self.spec_state(page_id),
    {
        match self.cache.get(&page_id) {
            Some(entry) => entry.state,
            None => PageState::Evicted,
        }
    }

    /// The page with the given identifier, if it is held.
    pub fn read(&self, page_id: PageId) -> (page: Option<&SlottedPage>)
        ensures
            match page {
                Some(p) => spec_read(self.pages(), page_id) == Some(p@) && (self.wf() ==> p.wf()),
                None => spec_read(self.pages(), page_id) == None::<Seq<u8>>,
            },
    {
        match self.cache.get(&page_id) {
            Some(entry) => Some(&entry.page),
            None => None,
        }
    }

    /// Takes a page over that the backing file holds as it is, under its own
    /// identifier and in place of the page that was held under it. A page
    /// with the identifier `NO_PAGE` is not taken.
    pub fn write(&mut self, page: SlottedPage) -> (res: Result<(), PageError>)
        requires
            old(self).wf(),
            page.wf(),
        ensures
            final(self).wf(),
            match res {
                Ok(()) => {
                    &&& layout::page_id(page@) != NO_PAGE
                    &&& final(self).pages() == spec_write(old(self).pages(), page@)
                    &&& final(self).states() == old(self).states().insert(
                        layout::page_id(page@) as PageId,
                        PageState::Clean,
                    )
                    &&& final(self).next_id() == (if layout::page_id(page@) >= old(
                        self,
                    ).next_id() {
                        layout::page_id(page@) + 1
                    } else {
                        old(self).next_id()
                    })
                },
                Err(e) => {
                    &&& e == PageError::OutOfRange
                    &&& layout::page_id(page@) == NO_PAGE
                    &&& final(self).pages() == old(self).pages()
                    &&& final(self).states() == old(self).states()
                    &&& final(self).next_id() == old(self).next_id()
                },
            },
    {
        let id = page.page_id();
        if id == NO_PAGE {
            return Err(PageError::OutOfRange);
        }
        if id as u32 >= self.next_page_id {
            self.next_page_id = id as u32 + 1;
        }
        self.put(id, page, PageState::Clean);
        proof {
            lemma_put_keeps_wf(*old(self), *final(self), id, PageState::Clean);
        }
        Ok(())
    }

    /// Takes over the bytes of page `page_id` as they were read from the
    /// backing file, if they are the bytes of that page.
    pub fn install(&mut self, page_id: PageId, buffer: [u8; PAGE_SIZE_USIZE]) -> (res: Result<
        (),
        PageError,
    >)
        requires
            old(self).wf(),
        ensures
            final(self).wf(),
            match res {
                Ok(()) => {
                    &&& page_id != NO_PAGE
                    &&& page_wf(buffer@)
                    &&& layout::page_id(buffer@) == page_id
                    &&& final(self).pages() == old(self).pages().insert(page_id, buffer@)
                    &&& final(self).states() == old(self).states().insert(
                        page_id,
                        PageState::Clean,
                    )
                    &&& final(self).next_id() == (if page_id >= old(self).next_id() {
                        page_id + 1
                    } else {
                        old(self).next_id()
                    })
                },
                Err(e) => {
                    &&& final(self).pages() == old(self).pages()
                    &&& final(self).states() == old(self).states()
                    &&& final(self).next_id() == old(self).next_id()
                    &&& e == PageError::NotFound || e == PageError::CorruptChain
                    &&& e == PageError::NotFound <==> page_id == NO_PAGE
                    &&& e == PageError::CorruptChain <==> page_id != NO_PAGE && !(page_wf(buffer@)
                        && layout::page_id(buffer@) == page_id)
                },
            },
    {
        if page_id == NO_PAGE {
            return Err(PageError::NotFound);
        }
        match SlottedPage::new_from(buffer) {
            Err(e) => Err(e),
            Ok(page) => {
                if page.page_id() != page_id {
                    Err(PageError::CorruptChain)
                } else {
                    match self.write(page) {
                        Ok(()) => Ok(()),
                        Err(e) => Err(e),
                    }
                }
            },
        }
    }

    /// Forgets every page. The identifiers that were handed out stay so.
    pub fn clear(&mut self)
        requires
            old(self).wf(),
        ensures
            final(self).wf(),
            final(self).pages() == Map::<PageId, Seq<u8>>::empty(),
            final(self).states() == Map::<PageId, PageState>::empty(),
            final(self).next_id() == old(self).next_id(),
    {
        self.cache.clear();
        proof {
            assert(final(self).pages() =~= Map::<PageId, Seq<u8>>::empty());
            assert(final(self).states() =~= Map::<PageId, PageState>::empty());
        }
    }

    /// Drops the page from memory if the backing file holds what it holds.
    /// Says whether the page was dropped.
    pub fn evict(&mut self, page_id: PageId) -> (dropped: bool)
        requires
            old(self).wf(),
        ensures
            final(self).wf(),
            final(self).next_id() == old(self).next_id(),
            dropped == (spec_after(old(self).spec_state(page_id), PageEvent::Dropped) is Some),
            dropped ==> final(self).pages() == old(self).pages().remove(page_id),
            dropped ==> final(self).states() == old(self).states().remove(page_id),
            !dropped ==> final(self).pages() == old(self).pages(),
            !dropped ==> final(self).states() == old(self).states(),
    {
        let allowed = self.state(page_id).after(PageEvent::Dropped);
        match allowed {
            Some(_) => {
                self.cache.remove(&page_id);
                proof {
                    assert(final(self).pages() =~= old(self).pages().remove(page_id));
                    assert(final(self).states() =~= old(self).states().remove(page_id));
                }
                true
            },
            None => false,
        }
    }

    /// Notes that page `page_id` was written to the backing file as it is.
    pub fn flushed(&mut self, page_id: PageId) -> (res: Result<(), PageError>)
        requires
            old(self).wf(),
        ensures
            final(self).wf(),
            final(self).next_id() == old(self).next_id(),
            final(self).pages() == old(self).pages(),
            match res {
                Ok(()) => {
                    &&& old(self).pages().contains_key(page_id)
                    &&& final(self).states() == old(self).states().insert(
                        page_id,
                        PageState::Clean,
                    )
                },
                Err(e) => e == PageError::NotFound && !old(self).pages().contains_key(page_id)
                    && final(self).states() == old(self).states(),
            },
    {
        match self.cache.remove(&page_id) {
            None => {
                proof {
                    assert(final(self).pages() =~= old(self).pages());
                    assert(final(self).states() =~= old(self).states());
                }
                Err(PageError::NotFound)
            },
            Some(entry) => {
                assert(old(self).states().contains_key(page_id));
                let state = match entry.state.after(PageEvent::Written) {
                    Some(state) => state,
                    None => entry.state,
                };
                self.cache.insert(page_id, CachedPage { page: entry.page, state });
                proof {
                    assert(final(self).pages() =~= old(self).pages());
                    assert(final(self).states() =~= old(self).states().insert(
                        page_id,
                        PageState::Clean,
                    ));
                }
                Ok(())
            },
        }
    }

    /// Where page `page_id` starts in the backing file.
    pub fn file_offset(page_id: PageId) -> (offset: u64)
        ensures
            offset == page_id * PAGE_SIZE,
    {
        let size: u64 = PAGE_SIZE as u64;
        assert(page_id * size <= u64::MAX) by (nonlinear_arith)
            requires
                page_id <= u16::MAX,
                size == 4096,
        ;
        page_id as u64 * size
    }

    /// Where to read page `page_id` from a backing file of `file_len` bytes;
    /// `NotFound` where the file ends before the page does, and for
    /// `NO_PAGE`.
    pub fn locate(page_id: PageId, file_len: u64) -> (res: Result<u64, PageError>)
        ensures
            match res {
                Ok(offset) => page_id != NO_PAGE && offset == page_id * PAGE_SIZE && offset
                    + PAGE_SIZE <= file_len,
                Err(e) => e == PageError::NotFound && (page_id == NO_PAGE || page_id * PAGE_SIZE
                    + PAGE_SIZE > file_len),
            },
    {
        let offset = Self::file_offset(page_id);
        if page_id == NO_PAGE || offset + PAGE_SIZE as u64 > file_len {
            Err(PageError::NotFound)
        } else {
            Ok(offset)
        }
    }

    /// What is to be written to the backing file to make page `page_id`
    /// durable: the page, and where it starts in the file.
    pub fn flush(&self, page_id: PageId) -> (res: Result<(u64, &SlottedPage), PageError>)
        ensures
            match res {
                Ok((offset, page)) => {
                    &&& self.pages().contains_key(page_id)
                    &&& page@ == self.pages()[page_id]
                    &&& offset == page_id * PAGE_SIZE
                },
                Err(e) => e == PageError::NotFound && !self.pages().contains_key(page_id),
            },
    {
        match self.cache.get(&page_id) {
            Some(entry) => Ok((Self::file_offset(page_id), &entry.page)),
            None => Err(PageError::NotFound),
        }
    }

    /// Makes a new, empty inner page and returns its identifier.
    pub fn allocate_inner(&mut self) -> (res: Result<PageId, PageError>)
        requires
            old(self).wf(),
        ensures
            final(self).wf(),
            match res {
                Ok(id) => {
                    &&& old(self).next_id() < PAGE_ID_LIMIT
                    &&& id == old(self).next_id()
                    &&& final(self).next_id() == old(self).next_id() + 1
                    &&& final(self).pages() == old(self).pages().insert(
                        id,
                        empty_page(id, PAGE_TYPE_INNER),
                    )
                    &&& final(self).states() == old(self).states().insert(
                        id,
                        PageState::Allocated,
                    )
                },
                Err(e) => {
                    &&& e == PageError::OutOfRange
                    &&& old(self).next_id() == PAGE_ID_LIMIT
                    &&& final(self).pages() == old(self).pages()
                    &&& final(self).states() == old(self).states()
                    &&& final(self).next_id() == old(self).next_id()
                },
            },
    {
        if self.next_page_id >= PAGE_ID_LIMIT {
            return Err(PageError::OutOfRange);
        }
        let id = self.next_page_id as PageId;
        let page = SlottedPage::new_inner(id);
        self.next_page_id = self.next_page_id + 1;
        self.put(id, page, PageState::Allocated);
        proof {
            lemma_put_keeps_wf(*old(self), *final(self), id, PageState::Allocated);
        }
        Ok(id)
    }

    /// How many pages the chain of a payload of `total` bytes under a key of
    /// `key_len` bytes takes.
    fn pages_needed(key_len: usize, total: usize) -> (count: usize)
        requires
            chain_storable(key_len as int, total as int),
        ensures
            count == chain_len(key_len as int, total as int),
            1 <= count <= 18,
    {
        let room = HEAD_CAPACITY - key_len;
        if total <= room {
            1
        } else {
            1 + (total - room + (OVERFLOW_CAPACITY - 1)) / OVERFLOW_CAPACITY
        }
    }

    /// The first page of a chain: a new data page with the key and as much
    /// of the payload as fits beside it.
    fn head_page(id: PageId, key: &[u8], reader: &mut Payload) -> (page: SlottedPage)
        requires
            old(reader).wf(),
            chain_storable(key@.len() as int, old(reader).spec_len()),
        ensures
            final(reader).wf(),
            old(reader).advanced(
                final(reader),
                chain_cut(key@.len() as int, old(reader).spec_len(), 0),
            ),
            page@ == page_with_record(
                empty_page(id, PAGE_TYPE_LEAF),
                chain_record(key@, old(reader).spec_type(), old(reader).remaining(), 0),
            ),
    {
        let mut page = SlottedPage::new_leaf(id);
        proof {
            lemma_head_record(id, key@, reader.spec_type(), reader.remaining());
        }
        let _ = page.append_record(key, PayloadType::Str, reader);
        page
    }

    /// A further page of a chain: a new data page with as much of the
    /// payload as fits into its overflow record.
    fn overflow_page(id: PageId, reader: &mut Payload) -> (page: SlottedPage)
        requires
            old(reader).wf(),
            0 < old(reader).spec_len() <= u16::MAX,
        ensures
            final(reader).wf(),
            old(reader).advanced(
                final(reader),
                min_int(old(reader).spec_len(), OVERFLOW_CAPACITY as int),
            ),
            page@ == page_with_record(
                empty_page(id, PAGE_TYPE_LEAF),
                encode_overflow(
                    old(reader).spec_len(),
                    old(reader).remaining().take(
                        min_int(old(reader).spec_len(), OVERFLOW_CAPACITY as int),
                    ),
                ),
            ),
    {
        let mut page = SlottedPage::new_leaf(id);
        let _ = page.append_overflow(reader);
        page
    }

    /// Stores `payload` under `key` on a new data page and, where it does not
    /// fit there, on as many further new pages as it takes, each linked to
    /// the next. Returns the identifier of the first page. Either the whole
    /// chain is stored or nothing changes.
    #[verifier::rlimit(30)]
    pub fn allocate_leaf(&mut self, key: &str, payload: Payload) -> (res: Result<
        PageId,
        PageError,
    >)
        requires
            old(self).wf(),
            payload.wf(),
        ensures
            final(self).wf(),
            match res {
                Ok(head) => {
                    let pages = chain_len(key.spec_bytes().len() as int, payload.spec_len());
                    &&& chain_storable(key.spec_bytes().len() as int, payload.spec_len())
                    &&& old(self).next_id() + pages <= PAGE_ID_LIMIT
                    &&& head == old(self).next_id()
                    &&& final(self).next_id() == old(self).next_id() + pages
                    &&& final(self).pages() == with_chain(
                        old(self).pages(),
                        head,
                        key.spec_bytes(),
                        payload.spec_type(),
                        payload.remaining(),
                    )
                    &&& final(self).states() == with_states(
                        old(self).states(),
                        head,
                        pages,
                        PageState::Dirty,
                    )
                    &&& spec_read_payload(final(self).pages(), head, 0) == Ok::<
                        Seq<u8>,
                        PageError,
                    >(payload.remaining())
                },
                Err(e) => {
                    let key_len = key.spec_bytes().len() as int;
                    &&& final(self).pages() == old(self).pages()
                    &&& final(self).states() == old(self).states()
                    &&& final(self).next_id() == old(self).next_id()
                    &&& e == PageError::NoSpace || e == PageError::OutOfRange
                    &&& e == PageError::NoSpace <==> key_len + 1 > HEAD_CAPACITY
                    &&& e == PageError::OutOfRange <==> key_len + 1 <= HEAD_CAPACITY && (
                    payload.spec_len() > u16::MAX || old(self).next_id() + chain_len(
                        key_len,
                        payload.spec_len(),
                    ) > PAGE_ID_LIMIT)
                },
            },
    {
        let key_bytes = key.as_bytes();
        if key_bytes.len() >= HEAD_CAPACITY {
            return Err(PageError::NoSpace);
        }
        let mut reader = payload;
        let total = reader.len();
        if total > u16::MAX as usize {
            return Err(PageError::OutOfRange);
        }
        let count = Self::pages_needed(key_bytes.len(), total);
        if self.next_page_id as usize + count > PAGE_ID_LIMIT as usize {
            return Err(PageError::OutOfRange);
        }
        let ghost bytes = payload.remaining();
        let ghost key_seq = key.spec_bytes();
        let ghost kind = payload.spec_type();
        let ghost key_len = key_seq.len() as int;
        let head_id = self.next_page_id as PageId;
        let mut id = head_id;
        let mut page = Self::head_page(head_id, key_bytes, &mut reader);
        proof {
            lemma_chain_grows(old(self).pages(), head_id, key_seq, kind, bytes, 0);
            lemma_states_grow(old(self).states(), head_id, 0, PageState::Dirty);
            lemma_chain_cuts(key_len, total as int, 0);
        }
        let mut state = ChainState::WritingHead.after_write(reader.len());
        let ghost mut k: int = 0;
        while state == ChainState::WritingOverflow
            invariant
                old(self).wf(),
                payload.wf(),
                reader.wf(),
                bytes == payload.remaining(),
                key_seq == key.spec_bytes(),
                key_len == key_seq.len(),
                kind == payload.spec_type(),
                total == bytes.len(),
                chain_storable(key_len, total as int),
                count == chain_len(key_len, total as int),
                head_id == old(self).next_id(),
                head_id + count <= PAGE_ID_LIMIT,
                self.next_page_id == old(self).next_page_id,
                reader.spec_buffer() == payload.spec_buffer(),
                reader.spec_type() == kind,
                reader.spec_cursor() == payload.spec_cursor() + chain_cut(key_len, total as int, k),
                0 <= k < count,
                id == head_id + k,
                page@ == page_with_record(
                    empty_page(id, PAGE_TYPE_LEAF),
                    chain_record(key_seq, kind, bytes, k),
                ),
                self.pages() == with_chain_prefix(
                    old(self).pages(),
                    head_id,
                    key_seq,
                    kind,
                    bytes,
                    k,
                ),
                self.states() == with_states(old(self).states(), head_id, k, PageState::Dirty),
                state == ChainState::WritingOverflow || state == ChainState::Done,
                state == ChainState::WritingOverflow <==> chain_cut(key_len, total as int, k)
                    < total,
            decreases total - chain_cut(key_len, total as int, k),
        {
            let ghost before = chain_cut(key_len, total as int, k);
            proof {
                lemma_overflow_record((id + 1) as PageId, key_seq, kind, bytes, k);
                lemma_chain_grows(old(self).pages(), head_id, key_seq, kind, bytes, k);
                assert(reader.remaining() =~= bytes.skip(before));
            }
            let next_id: PageId = id + 1;
            let next_page = Self::overflow_page(next_id, &mut reader);
            page.set_right_sibling(next_id);
            assert(page@ == chain_page(head_id, key_seq, kind, bytes, k));
            self.put(id, page, PageState::Dirty);
            proof {
                lemma_states_grow(old(self).states(), head_id, k, PageState::Dirty);
                k = k + 1;
            }
            page = next_page;
            id = next_id;
            state = state.after_write(reader.len());
        }
        proof {
            lemma_chain_cuts(key_len, total as int, k);
            lemma_chain_grows(old(self).pages(), head_id, key_seq, kind, bytes, k);
            assert(page@ == chain_page(head_id, key_seq, kind, bytes, k));
        }
        self.put(id, page, PageState::Dirty);
        self.next_page_id = self.next_page_id + count as u32;
        proof {
            lemma_states_grow(old(self).states(), head_id, k, PageState::Dirty);
            lemma_chain_keeps_wf(*old(self), *self, key_seq, kind, bytes);
        }
        Ok(head_id)
    }

    /// Adds to the inner page `page_id` a record that maps `key` to the page
    /// `child_page_id`.
    pub fn insert_inner(&mut self, page_id: PageId, key: &str, child_page_id: PageId) -> (res:
        Result<(), PageError>)
        requires
            old(self).wf(),
        ensures
            final(self).wf(),
            final(self).next_id() == old(self).next_id(),
            match res {
                Ok(()) => {
                    &&& old(self).pages().contains_key(page_id)
                    &&& inner_entry_fits(old(self).pages()[page_id], key.spec_bytes().len() as int)
                    &&& final(self).pages() == old(self).pages().insert(
                        page_id,
                        page_with_record(
                            old(self).pages()[page_id],
                            encode_record(
                                2,
                                PayloadType::U16,
                                PayloadType::Str,
                                key.spec_bytes(),
                                le16(child_page_id as int),
                            ),
                        ),
                    )
                    &&& final(self).states() == old(self).states().insert(
                        page_id,
                        PageState::Dirty,
                    )
                },
                Err(e) => {
                    &&& final(self).pages() == old(self).pages()
                    &&& final(self).states() == old(self).states()
                    &&& e == PageError::NotFound || e == PageError::NoSpace
                    &&& e == PageError::NotFound <==> !old(self).pages().contains_key(page_id)
                    &&& e == PageError::NoSpace ==> !inner_entry_fits(
                        old(self).pages()[page_id],
                        key.spec_bytes().len() as int,
                    )
                },
            },
    {
        match self.cache.remove(&page_id) {
            None => {
                proof {
                    assert(final(self).pages() =~= old(self).pages());
                    assert(final(self).states() =~= old(self).states());
                }
                Err(PageError::NotFound)
            },
            Some(entry) => {
                assert(old(self).pages().contains_key(page_id));
                assert(old(self).states().contains_key(page_id));
                let mut page = entry.page;
                let added = page.add_key_ref(key, child_page_id);
                let state = match added {
                    Ok(()) => match entry.state.after(PageEvent::Mutated) {
                        Some(state) => state,
                        None => entry.state,
                    },
                    Err(_) => entry.state,
                };
                self.cache.insert(page_id, CachedPage { page, state });
                proof {
                    assert(final(self).pages() =~= old(self).pages().insert(page_id, page@));
                    assert(final(self).states() =~= old(self).states().insert(page_id, state));
                    if added is Ok {
                        layout::lemma_page_with_record(
                            old(self).pages()[page_id],
                            encode_record(
                                2,
                                PayloadType::U16,
                                PayloadType::Str,
                                key.spec_bytes(),
                                le16(child_page_id as int),
                            ),
                        );
                    }
                }
                added
            },
        }
    }

    /// Sets the four links of page `page_id`.
    pub fn link(&mut self, page_id: PageId, links: Links) -> (res: Result<(), PageError>)
        requires
            old(self).wf(),
        ensures
            final(self).wf(),
            final(self).next_id() == old(self).next_id(),
            match res {
                Ok(()) => {
                    &&& old(self).pages().contains_key(page_id)
                    &&& final(self).pages() == old(self).pages().insert(
                        page_id,
                        with_links(old(self).pages()[page_id], links),
                    )
                    &&& final(self).states() == old(self).states().insert(
                        page_id,
                        PageState::Dirty,
                    )
                },
                Err(e) => {
                    &&& e == PageError::NotFound
                    &&& !old(self).pages().contains_key(page_id)
                    &&& final(self).pages() == old(self).pages()
                    &&& final(self).states() == old(self).states()
                },
            },
    {
        match self.cache.remove(&page_id) {
            None => {
                proof {
                    assert(final(self).pages() =~= old(self).pages());
                    assert(final(self).states() =~= old(self).states());
                }
                Err(PageError::NotFound)
            },
            Some(entry) => {
                assert(old(self).pages().contains_key(page_id));
                assert(old(self).states().contains_key(page_id));
                let mut page = entry.page;
                let state = match entry.state.after(PageEvent::Mutated) {
                    Some(state) => state,
                    None => entry.state,
                };
                page.set_left_most_page_id(links.left_most);
                page.set_left_sibling(links.left);
                page.set_right_sibling(links.right);
                page.set_parent(links.parent);
                proof {
                    let b0 = old(self).pages()[page_id];
                    let b1 = splice(b0, OFFSET_LEFT_MOST as int, le16(links.left_most as int));
                    let b2 = splice(b1, OFFSET_LEFT_SIBLING as int, le16(links.left as int));
                    let b3 = splice(b2, OFFSET_RIGHT_SIBLING as int, le16(links.right as int));
                    lemma_link_keeps_records(b0, OFFSET_LEFT_MOST as int, links.left_most as int);
                    lemma_link_keeps_records(b1, OFFSET_LEFT_SIBLING as int, links.left as int);
                    lemma_link_keeps_records(b2, OFFSET_RIGHT_SIBLING as int, links.right as int);
                    lemma_link_keeps_records(b3, OFFSET_PARENT_PAGE_ID as int, links.parent as int);
                }
                self.cache.insert(page_id, CachedPage { page, state });
                proof {
                    assert(final(self).pages() =~= old(self).pages().insert(page_id, page@));
                    assert(final(self).states() =~= old(self).states().insert(
                        page_id,
                        PageState::Dirty,
                    ));
                }
                Ok(())
            },
        }
    }

    /// Reads the whole payload of the record in slot `slot_index` of page
    /// `head_page_id`, following the overflow chain where the payload does
    /// not end on that page.
    pub fn read_payload(&self, head_page_id: PageId, slot_index: usize) -> (res: Result<
        Vec<u8>,
        PageError,
    >)
        requires
            self.wf(),
        ensures
            match res {
                Ok(bytes) => spec_read_payload(self.pages(), head_page_id, slot_index as int)
                    == Ok::<Seq<u8>, PageError>(bytes@),
                Err(e) => spec_read_payload(self.pages(), head_page_id, slot_index as int)
                    == Err::<Seq<u8>, PageError>(e),
            },
    {
        let head = match self.cache.get(&head_page_id) {
            Some(entry) => &entry.page,
            None => {
                return Err(PageError::NotFound);
            },
        };
        assert(self.pages().contains_key(head_page_id));
        let record = match head.read_slot(slot_index) {
            Ok(record) => record,
            Err(e) => {
                return Err(e);
            },
        };
        let total = record.payload_len;
        let mut out = record.payload_head;
        let mut next = head.right_sibling();
        let ghost wanted = spec_read_payload(self.pages(), head_page_id, slot_index as int);
        while out.len() < total
            invariant
                self.wf(),
                out@.len() <= total,
                wanted == spec_read_payload(self.pages(), head_page_id, slot_index as int),
                wanted == prepend(out@, spec_gather(self.pages(), next, total - out@.len())),
            decreases total - out.len(),
        {
            if next == NO_PAGE {
                return Err(PageError::CorruptChain);
            }
            let page = match self.cache.get(&next) {
                Some(entry) => &entry.page,
                None => {
                    return Err(PageError::NotFound);
                },
            };
            assert(self.pages().contains_key(next));
            let overflow = match page.read_overflow() {
                Ok(overflow) => overflow,
                Err(e) => {
                    return Err(e);
                },
            };
            let left = total - out.len();
            if overflow.remaining_len != left || overflow.chunk.len() == 0
                || overflow.chunk.len() > left {
                return Err(PageError::CorruptChain);
            }
            let ghost before = out@;
            let ghost here = next;
            out.extend_from_slice(overflow.chunk.as_slice());
            next = page.right_sibling();
            proof {
                let rest = spec_gather(self.pages(), next, total - out@.len());
                assert(spec_gather(self.pages(), here, left as int) == prepend(
                    overflow.chunk@,
                    rest,
                ));
                if rest is Ok {
                    assert(before + (overflow.chunk@ + rest->Ok_0) =~= out@ + rest->Ok_0);
                }
            }
        }
        proof {
            assert(out@ + Seq::<u8>::empty() =~= out@);
        }
        Ok(out)
    }
}

} // verus!
