//! A store of fixed-size pages, addressed by page number, that remembers which
//! pages were written since they were last handed out for flushing.

use vstd::prelude::*;
use std::collections::HashMap;
use indexmap::IndexSet;

verus! {

broadcast use vstd::std_specs::hash::group_hash_axioms;

/// The size of a page in bytes: 1024 of block bits, 2048 of tree bits and 256
/// of summary.
pub const PAGE_SIZE: usize = 3328;

/// `indexmap::IndexSet`: a set that keeps the order in which its values came.
/// Nothing is known of it but what the three functions below say.
#[verifier::external_type_specification]
#[verifier::external_body]
#[verifier::reject_recursive_types(T)]
#[verifier::reject_recursive_types(S)]
pub struct ExIndexSet<T, S>(IndexSet<T, S>);

/// The values that an `IndexSet` holds, in the order in which they were
/// inserted.
pub uninterp spec fn spec_in_order(set: IndexSet<u64>) -> Seq<u64>;

/// `IndexSet::new`: a set that holds nothing.
#[verifier::external_body]
fn order_new() -> (r: IndexSet<u64>)
    ensures
        spec_in_order(r) == Seq::<u64>::empty(),
{
    IndexSet::new()
}

/// `IndexSet::insert`: a value that the set holds already leaves the set and
/// its order as they were, and the call returns `false`; a new value goes to the
/// end, and the call returns `true`.
#[verifier::external_body]
fn order_insert(set: &mut IndexSet<u64>, value: u64) -> (r: bool)
    ensures
        r == !spec_in_order(*old(set)).contains(value),
        spec_in_order(*final(set)) == if r {
            spec_in_order(*old(set)).push(value)
        } else {
            spec_in_order(*old(set))
        },
{
    set.insert(value)
}

/// `IndexSet::pop`: takes the last value out and returns it, the others
/// staying in their order; `None` from an empty set.
#[verifier::external_body]
fn order_pop(set: &mut IndexSet<u64>) -> (r: Option<u64>)
    ensures
        match r {
            Some(v) => spec_in_order(*old(set)).len() > 0 && v == spec_in_order(*old(set)).last()
                && spec_in_order(*final(set)) == spec_in_order(*old(set)).drop_last(),
            None => spec_in_order(*old(set)).len() == 0 && spec_in_order(*final(set))
                == spec_in_order(*old(set)),
        },
{
    set.pop()
}

/// A page of zeros.
pub open spec fn spec_blank_page() -> Seq<u8> {
    Seq::new(PAGE_SIZE as nat, |i: int| 0u8)
}

/// The byte at `byte_num` of page `page_num`; zero where there is no such
/// page.
pub open spec fn spec_page_byte(pages: Map<u64, Seq<u8>>, page_num: u64, byte_num: int) -> u8 {
    if pages.contains_key(page_num) {
        pages[page_num][byte_num]
    } else {
        0
    }
}

/// The pages after `value` was written at `byte_num` of page `page_num`, the
/// page being made of zeros first if it was absent.
pub open spec fn spec_write(pages: Map<u64, Seq<u8>>, page_num: u64, byte_num: int, value: u8) -> Map<
    u64,
    Seq<u8>,
> {
    if pages.contains_key(page_num) {
        pages.insert(page_num, pages[page_num].update(byte_num, value))
    } else {
        pages.insert(page_num, spec_blank_page().update(byte_num, value))
    }
}

/// The dirty queue after page `page_num` was marked.
pub open spec fn spec_mark(dirty: Seq<u64>, page_num: u64) -> Seq<u64> {
    if dirty.contains(page_num) {
        dirty
    } else {
        dirty.push(page_num)
    }
}

/// What a pager holds: its pages, and the queue of the pages to flush.
pub struct PagerState {
    pub pages: Map<u64, Seq<u8>>,
    pub dirty: Seq<u64>,
}

/// Pages of `page_size` bytes by number, with the queue of those that were
/// written since they were last flushed.
pub struct Pager {
    map: HashMap<u64, Vec<u8>>,
    updated: IndexSet<u64>,
    page_size: usize,
}

impl Pager {
    /// What the pager holds.
    pub open spec fn state(&self) -> PagerState {
        PagerState { pages: self.pages(), dirty: self.dirty() }
    }

    /// The pages that are present, by page number.
    pub closed spec fn pages(&self) -> Map<u64, Seq<u8>> {
        Map::new(|k: u64| self.map@.contains_key(k), |k: u64| self.map@[k]@)
    }

    /// The numbers of the pages written since they were last popped, oldest
    /// first.
    pub closed spec fn dirty(&self) -> Seq<u64> {
        spec_in_order(self.updated)
    }

    /// The size of a page that the pager was made with.
    pub closed spec fn spec_page_size(&self) -> nat {
        self.page_size as nat
    }

    /// Every page has the page size, and every dirty page is present, once.
    pub open spec fn wf(&self) -> bool {
        &&& self.spec_page_size() == PAGE_SIZE
        &&& self.pages().dom().finite()
        &&& forall|k: u64| #[trigger]
            self.pages().contains_key(k) ==> self.pages()[k].len() == PAGE_SIZE
        &&& self.dirty().no_duplicates()
        &&& forall|i: int|
            0 <= i < self.dirty().len() ==> self.pages().contains_key(#[trigger] self.dirty()[i])
    }

    proof fn lemma_dom(&self)
        ensures
            self.pages().dom() == self.map@.dom(),
            self.pages().dom().finite(),
    {
        assert(self.pages().dom() =~= self.map@.dom());
    }

    /// A pager without pages.
    pub fn new() -> (r: Pager)
        ensures
            r.wf(),
            r.pages() == Map::<u64, Seq<u8>>::empty(),
            r.dirty() == Seq::<u64>::empty(),
    {
        let r = Pager { map: HashMap::new(), updated: order_new(), page_size: PAGE_SIZE };
        proof {
            r.lemma_dom();
            assert(r.pages() =~= Map::<u64, Seq<u8>>::empty());
        }
        r
    }

    /// The page with the number `index`, if it is present.
    pub fn get(&self, index: u64) -> (r: Option<&Vec<u8>>)
        ensures
            match r {
                Some(page) => self.pages().contains_key(index) && page@ == self.pages()[index],
                None => !self.pages().contains_key(index),
            },
    {
        self.map.get(&index)
    }

    /// Writes one byte. Nothing happens, and `false` is returned, where the
    /// byte has that value already, an absent page counting as zeros;
    /// otherwise the page is marked dirty.
    pub fn set(&mut self, page_num: u64, byte_num: usize, value: u8) -> (changed: bool)
        requires
            old(self).wf(),
            byte_num < PAGE_SIZE,
        ensures
            final(self).wf(),
            changed == (spec_page_byte(old(self).pages(), page_num, byte_num as int) != value),
            changed ==> final(self).pages() == spec_write(
                old(self).pages(),
                page_num,
                byte_num as int,
                value,
            ) && final(self).dirty() == spec_mark(old(self).dirty(), page_num),
            !changed ==> final(self).pages() == old(self).pages() && final(self).dirty() == old(
                self,
            ).dirty(),
    {
        let ghost before = self.pages();
        proof {
            if self.map@.contains_key(page_num) {
                assert(self.pages().contains_key(page_num));
            }
        }
        let present = match self.map.get(&page_num) {
            Some(page) => {
                if page[byte_num] == value {
                    return false;
                }
                true
            },
            None => {
                if value == 0 {
                    return false;
                }
                false
            },
        };
        let mut page = if present {
            match self.map.remove(&page_num) {
                Some(page) => page,
                None => Vec::new(),
            }
        } else {
            blank_page()
        };
        page.set(byte_num, value);
        self.map.insert(page_num, page);
        let fresh = order_insert(&mut self.updated, page_num);
        proof {
            self.lemma_dom();
            assert(self.pages() =~= spec_write(before, page_num, byte_num as int, value));
            let d = self.dirty();
            let d0 = old(self).dirty();
            if fresh {
                assert forall|i: int, j: int| 0 <= i < d.len() && 0 <= j < d.len() && i != j implies d[i]
                    != d[j] by {
                    if i == d0.len() {
                        assert(!d0.contains(page_num));
                        assert(d0[j] != page_num);
                    } else if j == d0.len() {
                        assert(d0[i] != page_num);
                    }
                }
            }
            assert forall|i: int| 0 <= i < d.len() implies self.pages().contains_key(
                #[trigger] d[i],
            ) by {
                if i < d0.len() {
                    assert(old(self).pages().contains_key(d0[i]));
                }
            }
        }
        true
    }

    /// Installs a whole page, and does not mark it dirty.
    pub fn insert(&mut self, index: u64, value: Vec<u8>)
        requires
            old(self).wf(),
            value.len() == PAGE_SIZE,
        ensures
            final(self).wf(),
            final(self).pages() == old(self).pages().insert(index, value@),
            final(self).dirty() == old(self).dirty(),
    {
        self.map.insert(index, value);
        proof {
            self.lemma_dom();
            assert(self.pages() =~= old(self).pages().insert(index, value@));
            assert forall|i: int| 0 <= i < self.dirty().len() implies self.pages().contains_key(
                #[trigger] self.dirty()[i],
            ) by {
                assert(old(self).pages().contains_key(old(self).dirty()[i]));
            }
        }
    }

    /// The size of a page in bytes.
    pub fn get_page_size(&self) -> (r: usize)
        requires
            self.wf(),
        ensures
            r == PAGE_SIZE,
    {
        self.page_size
    }

    /// The number of pages that are present.
    pub fn len(&self) -> (r: usize)
        ensures
            r == self.pages().dom().len(),
    {
        proof {
            self.lemma_dom();
        }
        self.map.len()
    }

    /// A pager with the same pages and nothing to flush.
    pub fn snapshot(&self) -> (r: Pager)
        requires
            self.wf(),
        ensures
            r.wf(),
            r.pages() == self.pages(),
            r.dirty() == Seq::<u64>::empty(),
    {
        let r = Pager { map: self.map.clone(), updated: order_new(), page_size: self.page_size };
        proof {
            self.lemma_dom();
            r.lemma_dom();
            assert(r.pages() =~= self.pages());
        }
        r
    }

    /// The pages that are present, each with its number, in no particular
    /// order.
    pub fn iter(&self) -> (r: Vec<(u64, Vec<u8>)>)
        ensures
            r@.len() == self.pages().dom().len(),
            forall|i: int|
                0 <= i < r@.len() ==> self.pages().contains_key((#[trigger] r@[i]).0)
                    && r@[i].1@ == self.pages()[r@[i].0],
            forall|i: int, j: int|
                0 <= i < j < r@.len() ==> (#[trigger] r@[i]).0 != (#[trigger] r@[j]).0,
    {
        let mut result: Vec<(u64, Vec<u8>)> = Vec::new();
        proof {
            self.lemma_dom();
        }
        for pair in it: self.map.iter()
            invariant
                result@.len() == it.index@,
                forall|i: int|
                    0 <= i < result@.len() ==> self.pages().contains_key((#[trigger] result@[i]).0)
                        && result@[i].1@ == self.pages()[result@[i].0],
                forall|i: int|
                    0 <= i < result@.len() ==> (#[trigger] result@[i]).0 == *it.seq()[i].0,
                it.seq().no_duplicates(),
                forall|i: int|
                    0 <= i < it.seq().len() ==> self.map@.contains_key(*(#[trigger] it.seq()[i]).0)
                        && self.map@[*it.seq()[i].0] == *it.seq()[i].1,
        {
            let (index, page) = pair;
            let mut bytes: Vec<u8> = Vec::with_capacity(page.len());
            let mut j: usize = 0;
            while j < page.len()
                invariant
                    j <= page@.len(),
                    bytes@ == page@.subrange(0, j as int),
                decreases page@.len() - j,
            {
                bytes.push(page[j]);
                j += 1;
                assert(bytes@ =~= page@.subrange(0, j as int));
            }
            assert(page@.subrange(0, page@.len() as int) =~= page@);
            result.push((*index, bytes));
        }
        result
    }

    /// Takes the page that was marked dirty last out of the queue and
    /// returns its number.
    pub fn last_updated(&mut self) -> (r: Option<u64>)
        requires
            old(self).wf(),
        ensures
            final(self).wf(),
            final(self).pages() == old(self).pages(),
            match r {
                Some(page_num) => old(self).dirty().len() > 0 && page_num == old(
                    self,
                ).dirty().last() && final(self).dirty() == old(self).dirty().drop_last()
                    && old(self).pages().contains_key(page_num),
                None => old(self).dirty().len() == 0 && final(self).dirty() == old(self).dirty(),
            },
    {
        let r = order_pop(&mut self.updated);
        proof {
            let d0 = old(self).dirty();
            if r.is_some() {
                assert(old(self).pages().contains_key(d0[d0.len() - 1]));
                assert forall|i: int| 0 <= i < self.dirty().len() implies self.pages().contains_key(
                    #[trigger] self.dirty()[i],
                ) by {
                    assert(old(self).pages().contains_key(d0[i]));
                }
            }
        }
        r
    }
}

/// A new page of zeros.
fn blank_page() -> (r: Vec<u8>)
    ensures
        r@ == spec_blank_page(),
{
    let mut page: Vec<u8> = Vec::with_capacity(PAGE_SIZE);
    while page.len() < PAGE_SIZE
        invariant
            page.len() <= PAGE_SIZE,
            forall|i: int| 0 <= i < page.len() ==> page[i] == 0u8,
        decreases PAGE_SIZE - page.len(),
    {
        page.push(0);
    }
    assert(page@ =~= spec_blank_page());
    page
}

/// A finite set of numbers below `n` has at most `n` members.
pub proof fn lemma_bounded_len(s: Set<u64>, n: nat)
    requires
        s.finite(),
        forall|k: u64| s.contains(k) ==> k < n,
    ensures
        s.len() <= n,
    decreases n,
{
    if n == 0 {
        assert(s =~= Set::<u64>::empty());
    } else if n > u64::MAX + 1 {
        lemma_bounded_len(s, (n - 1) as nat);
    } else {
        let last = (n - 1) as u64;
        lemma_bounded_len(s.remove(last), (n - 1) as nat);
    }
}

} // verus!
