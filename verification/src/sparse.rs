//! A window onto the pages of a pager, read and written bit by bit.
//!
//! A window is a byte offset into each page and a size in bytes. Its byte
//! number `k` is byte `offset + k % size` of page `k / size`, and its bit
//! number `n` is bit `n % 8` of its byte `n / 8`, counted from the least
//! significant. What lies in an absent page reads as zero.

use vstd::prelude::*;
use vstd::arithmetic::div_mod::{lemma_div_denominator, lemma_fundamental_div_mod, lemma_mod_bound};
use crate::pager::{Pager, PagerState, PAGE_SIZE, spec_page_byte, spec_write, spec_mark};

verus! {

/// A window that lies within a page.
pub open spec fn spec_window(offset: nat, size: nat) -> bool {
    0 < size && offset + size <= PAGE_SIZE
}

/// Two windows of a page that share no byte.
pub open spec fn spec_apart(offset: nat, size: nat, offset2: nat, size2: nat) -> bool {
    offset + size <= offset2 || offset2 + size2 <= offset
}

/// Every page has the page size.
pub open spec fn spec_full_pages(pages: Map<u64, Seq<u8>>) -> bool {
    forall|p: u64| #[trigger] pages.contains_key(p) ==> pages[p].len() == PAGE_SIZE
}

/// The page that holds byte `k` of a window.
pub open spec fn spec_page_of(size: nat, k: nat) -> u64 {
    (k / size) as u64
}

/// Byte `k` of the window.
pub open spec fn spec_byte(pages: Map<u64, Seq<u8>>, offset: nat, size: nat, k: nat) -> u8 {
    if k / size <= u64::MAX {
        spec_page_byte(pages, spec_page_of(size, k), (offset + k % size) as int)
    } else {
        0
    }
}

/// The bit of a byte that stands for bit `n` of a window.
pub open spec fn spec_mask(n: nat) -> u8 {
    1u8 << ((n % 8) as u8)
}

/// Bit `n` of the window.
pub open spec fn spec_bit(pages: Map<u64, Seq<u8>>, offset: nat, size: nat, n: nat) -> bool {
    spec_byte(pages, offset, size, n / 8) & spec_mask(n) != 0
}

/// The pages after `value` was written to byte `k` of the window: the same
/// pages where the byte had that value already.
pub open spec fn spec_set_byte(
    pages: Map<u64, Seq<u8>>,
    offset: nat,
    size: nat,
    k: nat,
    value: u8,
) -> Map<u64, Seq<u8>> {
    if spec_byte(pages, offset, size, k) == value {
        pages
    } else {
        spec_write(pages, spec_page_of(size, k), (offset + k % size) as int, value)
    }
}

/// A byte with the bit for `n` set to `value`.
pub open spec fn spec_with_bit(byte: u8, n: nat, value: bool) -> u8 {
    if value {
        byte | spec_mask(n)
    } else {
        byte & !spec_mask(n)
    }
}

/// The pages after bit `n` of the window was set to `value`.
pub open spec fn spec_set_bit(
    pages: Map<u64, Seq<u8>>,
    offset: nat,
    size: nat,
    n: nat,
    value: bool,
) -> Map<u64, Seq<u8>> {
    spec_set_byte(
        pages,
        offset,
        size,
        n / 8,
        spec_with_bit(spec_byte(pages, offset, size, n / 8), n, value),
    )
}

/// The dirty queue after a write to byte `k` of a window that changed the
/// pages, or did not.
pub open spec fn spec_dirty_after(dirty: Seq<u64>, size: nat, k: nat, changed: bool) -> Seq<u64> {
    if changed {
        spec_mark(dirty, spec_page_of(size, k))
    } else {
        dirty
    }
}

/// What a pager holds after `value` was written to byte `k` of the window.
pub open spec fn spec_put_byte(st: PagerState, offset: nat, size: nat, k: nat, value: u8) -> PagerState {
    PagerState {
        pages: spec_set_byte(st.pages, offset, size, k, value),
        dirty: spec_dirty_after(st.dirty, size, k, spec_byte(st.pages, offset, size, k) != value),
    }
}

/// What a pager holds after bit `n` of the window was set to `value`.
pub open spec fn spec_put_bit(st: PagerState, offset: nat, size: nat, n: nat, value: bool) -> PagerState {
    PagerState {
        pages: spec_set_bit(st.pages, offset, size, n, value),
        dirty: spec_dirty_after(st.dirty, size, n / 8, spec_bit(st.pages, offset, size, n) != value),
    }
}

proof fn lemma_bits(b: u8, o: u8, p: u8)
    by (bit_vector)
    requires
        o < 8,
        p < 8,
    ensures
        ((b | (1u8 << o)) & (1u8 << o)) != 0,
        ((b & !(1u8 << o)) & (1u8 << o)) == 0,
        o != p ==> ((b | (1u8 << o)) & (1u8 << p)) == (b & (1u8 << p)),
        o != p ==> ((b & !(1u8 << o)) & (1u8 << p)) == (b & (1u8 << p)),
        ((b | (1u8 << o)) == b) == ((b & (1u8 << o)) != 0),
        ((b & !(1u8 << o)) == b) == ((b & (1u8 << o)) == 0),
        (0u8 & (1u8 << o)) == 0,
{
}

/// Setting a bit of a byte gives that bit its value and leaves the other
/// seven; the byte changes where the bit does.
pub proof fn lemma_with_bit(byte: u8, n: nat, value: bool, m: nat)
    ensures
        (spec_with_bit(byte, n, value) & spec_mask(m) != 0) == if m % 8 == n % 8 {
            value
        } else {
            byte & spec_mask(m) != 0
        },
        (spec_with_bit(byte, n, value) == byte) == ((byte & spec_mask(n) != 0) == value),
        0u8 & spec_mask(m) == 0,
{
    lemma_bits(byte, (n % 8) as u8, (m % 8) as u8);
    lemma_bits(byte, (m % 8) as u8, (n % 8) as u8);
}

/// A write to one byte of a window changes that byte and no other byte of
/// that window, nor any byte of a window apart from it, and keeps the pages
/// whole.
pub proof fn lemma_set_byte(
    pages: Map<u64, Seq<u8>>,
    offset: nat,
    size: nat,
    k: nat,
    value: u8,
    offset2: nat,
    size2: nat,
    k2: nat,
)
    requires
        spec_full_pages(pages),
        spec_window(offset, size),
        spec_window(offset2, size2),
        k / size <= u64::MAX,
        (offset2 == offset && size2 == size) || spec_apart(offset, size, offset2, size2),
    ensures
        spec_full_pages(spec_set_byte(pages, offset, size, k, value)),
        spec_byte(spec_set_byte(pages, offset, size, k, value), offset2, size2, k2) == if offset2
            == offset && size2 == size && k2 == k {
            value
        } else {
            spec_byte(pages, offset2, size2, k2)
        },
        forall|p: u64| #[trigger]
            spec_set_byte(pages, offset, size, k, value).contains_key(p) <==> pages.contains_key(p)
                || (p == spec_page_of(size, k) && spec_byte(pages, offset, size, k) != value),
{
    let new = spec_set_byte(pages, offset, size, k, value);
    let page = spec_page_of(size, k);
    let pos = (offset + k % size) as int;
    lemma_mod_bound(k as int, size as int);
    lemma_mod_bound(k2 as int, size2 as int);
    lemma_fundamental_div_mod(k as int, size as int);
    lemma_fundamental_div_mod(k2 as int, size2 as int);
    if spec_byte(pages, offset, size, k) != value {
        assert(new.contains_key(page));
        if k2 / size2 <= u64::MAX {
            let page2 = spec_page_of(size2, k2);
            let pos2 = (offset2 + k2 % size2) as int;
            if page2 == page && pos2 == pos {
                assert(offset2 == offset && size2 == size);
                assert(k2 == k);
            }
        }
    }
}

/// Setting a bit of a window gives that bit its value, leaves the other bits
/// of the window and the bytes of any window apart from it, and keeps the pages
/// whole.
pub proof fn lemma_set_bit(
    pages: Map<u64, Seq<u8>>,
    offset: nat,
    size: nat,
    n: nat,
    value: bool,
    m: nat,
)
    requires
        spec_full_pages(pages),
        spec_window(offset, size),
        n <= u64::MAX,
    ensures
        spec_full_pages(spec_set_bit(pages, offset, size, n, value)),
        spec_bit(spec_set_bit(pages, offset, size, n, value), offset, size, m) == if m == n {
            value
        } else {
            spec_bit(pages, offset, size, m)
        },
        (spec_set_bit(pages, offset, size, n, value) == pages) == (spec_bit(
            pages,
            offset,
            size,
            n,
        ) == value),
{
    let byte = spec_byte(pages, offset, size, n / 8);
    let nb = spec_with_bit(byte, n, value);
    lemma_set_byte(pages, offset, size, n / 8, nb, offset, size, m / 8);
    lemma_with_bit(byte, n, value, m);
    lemma_with_bit(byte, n, value, n);
    assert((n / 8) / size <= u64::MAX) by (nonlinear_arith)
        requires
            n <= u64::MAX,
            size > 0,
    ;
    let new = spec_set_bit(pages, offset, size, n, value);
    if nb != byte {
        lemma_set_byte(pages, offset, size, n / 8, nb, offset, size, n / 8);
        assert(spec_byte(new, offset, size, n / 8) == nb);
        assert(new != pages);
    }
}

/// Setting a bit of one window leaves the bytes of a window apart from it.
pub proof fn lemma_set_bit_apart(
    pages: Map<u64, Seq<u8>>,
    offset: nat,
    size: nat,
    n: nat,
    value: bool,
    offset2: nat,
    size2: nat,
    k2: nat,
)
    requires
        spec_full_pages(pages),
        spec_window(offset, size),
        spec_window(offset2, size2),
        spec_apart(offset, size, offset2, size2),
        n <= u64::MAX,
    ensures
        spec_byte(spec_set_bit(pages, offset, size, n, value), offset2, size2, k2) == spec_byte(
            pages,
            offset2,
            size2,
            k2,
        ),
{
    let byte = spec_byte(pages, offset, size, n / 8);
    let nb = spec_with_bit(byte, n, value);
    assert((n / 8) / size <= u64::MAX) by (nonlinear_arith)
        requires
            n <= u64::MAX,
            size > 0,
    ;
    lemma_set_byte(pages, offset, size, n / 8, nb, offset2, size2, k2);
}

/// Reads the byte that holds bit `index` of a window of `pager`.
pub fn get_byte_in(pager: &Pager, offset: usize, size: usize, index: u64) -> (r: u8)
    requires
        pager.wf(),
        spec_window(offset as nat, size as nat),
    ensures
        r == spec_byte(pager.pages(), offset as nat, size as nat, (index / 8) as nat),
{
    let k = index / 8;
    let page_num = index / (size as u64 * 8);
    proof {
        lemma_div_denominator(index as int, 8, size as int);
        lemma_mod_bound(k as int, size as int);
    }
    let byte_num = offset + (k % (size as u64)) as usize;
    match pager.get(page_num) {
        None => 0,
        Some(page) => page[byte_num],
    }
}

/// Writes the byte that holds bit `index` of a window of `pager`, and says
/// whether that changed anything.
pub fn set_byte_in(pager: &mut Pager, offset: usize, size: usize, index: u64, value: u8) -> (changed:
    bool)
    requires
        old(pager).wf(),
        spec_window(offset as nat, size as nat),
    ensures
        final(pager).wf(),
        changed == (spec_byte(old(pager).pages(), offset as nat, size as nat, (index / 8) as nat)
            != value),
        final(pager).pages() == spec_set_byte(
            old(pager).pages(),
            offset as nat,
            size as nat,
            (index / 8) as nat,
            value,
        ),
        final(pager).dirty() == spec_dirty_after(
            old(pager).dirty(),
            size as nat,
            (index / 8) as nat,
            changed,
        ),
        final(pager).state() == spec_put_byte(
            old(pager).state(),
            offset as nat,
            size as nat,
            (index / 8) as nat,
            value,
        ),
{
    let k = index / 8;
    let page_num = index / (size as u64 * 8);
    proof {
        lemma_div_denominator(index as int, 8, size as int);
        lemma_mod_bound(k as int, size as int);
    }
    let byte_num = offset + (k % (size as u64)) as usize;
    pager.set(page_num, byte_num, value)
}

/// Reads bit `index` of a window of `pager`.
pub fn get_in(pager: &Pager, offset: usize, size: usize, index: u64) -> (r: bool)
    requires
        pager.wf(),
        spec_window(offset as nat, size as nat),
    ensures
        r == spec_bit(pager.pages(), offset as nat, size as nat, index as nat),
{
    let byte = get_byte_in(pager, offset, size, index);
    let o = (index & 7) as u8;
    proof {
        assert(index & 7 == index % 8) by (bit_vector);
    }
    byte & (1u8 << o) != 0
}

/// Sets bit `index` of a window of `pager`, and says whether that changed
/// it.
pub fn set_in(pager: &mut Pager, offset: usize, size: usize, index: u64, value: bool) -> (changed:
    bool)
    requires
        old(pager).wf(),
        spec_window(offset as nat, size as nat),
    ensures
        final(pager).wf(),
        changed == (spec_bit(old(pager).pages(), offset as nat, size as nat, index as nat)
            != value),
        final(pager).pages() == spec_set_bit(
            old(pager).pages(),
            offset as nat,
            size as nat,
            index as nat,
            value,
        ),
        final(pager).dirty() == spec_dirty_after(
            old(pager).dirty(),
            size as nat,
            (index / 8) as nat,
            changed,
        ),
        final(pager).state() == spec_put_bit(
            old(pager).state(),
            offset as nat,
            size as nat,
            index as nat,
            value,
        ),
{
    let byte = get_byte_in(pager, offset, size, index);
    let o = (index & 7) as u8;
    proof {
        assert(index & 7 == index % 8) by (bit_vector);
        lemma_with_bit(byte, index as nat, value, index as nat);
    }
    let mask = 1u8 << o;
    let next = if value {
        byte | mask
    } else {
        byte & !mask
    };
    set_byte_in(pager, offset, size, index, next)
}

/// A window onto the pages of a pager of its own.
pub struct SparseBitfield {
    pub pager: Pager,
    pub offset: usize,
    pub size: usize,
}

impl SparseBitfield {
    /// The pager is well formed, and the window lies within a page.
    pub open spec fn wf(&self) -> bool {
        self.pager.wf() && spec_window(self.offset as nat, self.size as nat)
    }

    /// Byte `k` of the window.
    pub open spec fn spec_byte(&self, k: nat) -> u8 {
        spec_byte(self.pager.pages(), self.offset as nat, self.size as nat, k)
    }

    /// Bit `n` of the window.
    pub open spec fn spec_get(&self, n: nat) -> bool {
        spec_bit(self.pager.pages(), self.offset as nat, self.size as nat, n)
    }

    /// The window of the block bits, on a new pager.
    pub fn new() -> (r: SparseBitfield)
        ensures
            r.wf(),
            r.offset == 0,
            r.size == 1024,
            r.pager.pages() == Map::<u64, Seq<u8>>::empty(),
            r.pager.dirty() == Seq::<u64>::empty(),
    {
        SparseBitfield { pager: Pager::new(), offset: 0, size: 1024 }
    }

    /// The window of `size` bytes at `offset` of the pages of `pager`.
    pub fn with_pager(pager: Pager, offset: usize, size: usize) -> (r: SparseBitfield)
        ensures
            r.pager == pager,
            r.offset == offset,
            r.size == size,
    {
        SparseBitfield { pager, offset, size }
    }

    /// Whether bit `index` of the window is set.
    pub fn get(&self, index: u64) -> (r: bool)
        requires
            self.wf(),
        ensures
            r == self.spec_get(index as nat),
    {
        get_in(&self.pager, self.offset, self.size, index)
    }

    /// Sets bit `index` of the window to `value`, and says whether that changed
    /// it.
    pub fn set(&mut self, index: u64, value: bool) -> (changed: bool)
        requires
            old(self).wf(),
        ensures
            final(self).wf(),
            final(self).offset == old(self).offset,
            final(self).size == old(self).size,
            changed == (old(self).spec_get(index as nat) != value),
            final(self).pager.pages() == spec_set_bit(
                old(self).pager.pages(),
                old(self).offset as nat,
                old(self).size as nat,
                index as nat,
                value,
            ),
            final(self).pager.dirty() == spec_dirty_after(
                old(self).pager.dirty(),
                old(self).size as nat,
                (index / 8) as nat,
                changed,
            ),
            forall|n: nat|
                final(self).spec_get(n) == if n == index {
                    value
                } else {
                    old(self).spec_get(n)
                },
    {
        proof {
            assert forall|n: nat|
                spec_bit(
                    spec_set_bit(
                        self.pager.pages(),
                        self.offset as nat,
                        self.size as nat,
                        index as nat,
                        value,
                    ),
                    self.offset as nat,
                    self.size as nat,
                    n,
                ) == if n == index {
                    value
                } else {
                    self.spec_get(n)
                } by {
                lemma_set_bit(
                    self.pager.pages(),
                    self.offset as nat,
                    self.size as nat,
                    index as nat,
                    value,
                    n,
                );
            }
        }
        set_in(&mut self.pager, self.offset, self.size, index, value)
    }

    /// The byte of the window that holds bit `index`.
    pub fn get_byte(&self, index: u64) -> (r: u8)
        requires
            self.wf(),
        ensures
            r == self.spec_byte((index / 8) as nat),
    {
        get_byte_in(&self.pager, self.offset, self.size, index)
    }

    /// Writes the byte of the window that holds bit `index`, and says whether
    /// that changed it.
    pub fn set_byte(&mut self, index: u64, value: u8) -> (changed: bool)
        requires
            old(self).wf(),
        ensures
            final(self).wf(),
            final(self).offset == old(self).offset,
            final(self).size == old(self).size,
            changed == (old(self).spec_byte((index / 8) as nat) != value),
            final(self).pager.pages() == spec_set_byte(
                old(self).pager.pages(),
                old(self).offset as nat,
                old(self).size as nat,
                (index / 8) as nat,
                value,
            ),
            final(self).pager.dirty() == spec_dirty_after(
                old(self).pager.dirty(),
                old(self).size as nat,
                (index / 8) as nat,
                changed,
            ),
    {
        set_byte_in(&mut self.pager, self.offset, self.size, index, value)
    }

    /// The number of pages times the bits of a page.
    pub fn len(&self) -> (r: u64)
        requires
            self.pager.pages().dom().len() * PAGE_SIZE * 8 <= u64::MAX,
        ensures
            r == self.pager.pages().dom().len() * PAGE_SIZE * 8,
    {
        let pages = self.pager.len() as u64;
        assert(pages * 3328 <= u64::MAX) by (nonlinear_arith)
            requires
                pages * 3328 * 8 <= u64::MAX,
                pages >= 0,
        ;
        pages * (PAGE_SIZE as u64) * 8
    }

    /// The number of pages that are present.
    pub fn pages(&self) -> (r: u64)
        ensures
            r == self.pager.pages().dom().len(),
    {
        self.pager.len() as u64
    }
}

} // verus!
