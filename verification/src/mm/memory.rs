//! Physical memory as the kernel sees it through the direct map: a run of
//! 64-bit words that begins at a page boundary.
//!
//! Page tables and the heap's free lists live in this memory; every access
//! the kernel makes to them goes through the functions here.

use vstd::prelude::*;
use crate::mm::buddy::{BuddyState, page_free};
use crate::mm::pmm::PhysAddr;
use crate::mm::vmm::DIRECT_MAP_SIZE;

verus! {

/// Number of 64-bit words in one page frame.
pub const WORDS_PER_FRAME: usize = 512;

/// A run of physical memory, word by word.
pub struct PhysMemory {
    /// Physical address of the first word.
    base: u64,
    /// The contents.
    words: Vec<u64>,
}

impl PhysMemory {
    /// Physical address of the first byte.
    pub closed spec fn base(&self) -> int {
        self.base as int
    }

    /// Number of bytes.
    pub closed spec fn size(&self) -> int {
        8 * (self.words@.len() as int)
    }

    /// The word that holds the byte at `addr`.
    pub closed spec fn word(&self, addr: int) -> u64 {
        self.words@[(addr - self.base) / 8]
    }

    /// The memory begins and ends at a page boundary, within what the direct
    /// map reaches.
    pub open spec fn wf(&self) -> bool {
        &&& self.base() >= 0
        &&& self.base() % 4096 == 0
        &&& self.size() % 4096 == 0
        &&& self.size() >= 0
        &&& self.base() + self.size() <= DIRECT_MAP_SIZE
    }

    /// Whether the byte at `addr` is in this memory.
    pub open spec fn contains(&self, addr: int) -> bool {
        self.base() <= addr < self.base() + self.size()
    }

    /// Whether `addr` is the address of a word of this memory.
    pub open spec fn contains_word(&self, addr: int) -> bool {
        self.contains(addr) && addr % 8 == 0
    }

    /// Whether `addr` is the base of a page frame of this memory.
    pub open spec fn contains_frame(&self, addr: int) -> bool {
        addr % 4096 == 0 && self.base() <= addr && addr + 4096 <= self.base() + self.size()
    }

    /// Whether every frame that is free in `pmm` lies in this memory.
    pub open spec fn backs(&self, pmm: BuddyState) -> bool {
        forall|p: int|
            0 <= p && #[trigger] page_free(pmm.free, p) ==> self.contains_frame(
                pmm.mem_start + 4096 * p,
            )
    }

    /// Same extent as `other`, and the same words but for those in
    /// `[lo, hi)`.
    pub open spec fn same_outside(&self, other: &PhysMemory, lo: int, hi: int) -> bool {
        &&& self.base() == other.base()
        &&& self.size() == other.size()
        &&& forall|a: int|
            self.contains_word(a) && !(lo <= a < hi) ==> #[trigger] self.word(a) == other.word(a)
    }

    /// The byte at `addr`, as the little-endian word that holds it gives it.
    pub open spec fn byte(&self, addr: int) -> u8 {
        ((self.word(addr - addr % 8) >> ((8 * (addr % 8)) as u64)) & 0xFF) as u8
    }

    /// Memory of `frames` zeroed page frames at `base`; `None` where `base`
    /// is no page boundary, the end lies above what the direct map
    /// reaches, or the number of words does not fit the machine word.
    pub fn new(base: u64, frames: usize) -> (r: Option<Self>)
        ensures
            r.is_some() <==> (base % 4096 == 0 && base + 4096 * frames <= DIRECT_MAP_SIZE && 512
                * frames <= usize::MAX),
            r matches Some(m) ==> m.wf() && m.base() == base && m.size() == 4096 * frames
                && forall|a: int| m.contains_word(a) ==> #[trigger] m.word(a) == 0,
    {
        if base % 4096 != 0 || base > DIRECT_MAP_SIZE {
            return None;
        }
        if frames as u64 > (DIRECT_MAP_SIZE - base) / 4096 || frames > usize::MAX / WORDS_PER_FRAME {
            return None;
        }
        let m = Self { base, words: vec![0u64; frames * WORDS_PER_FRAME] };
        assert forall|a: int| m.contains_word(a) implies #[trigger] m.word(a) == 0 by {
            let k = (a - m.base) / 8;
            assert(0 <= k < m.words@.len());
        }
        Some(m)
    }

    /// Takes `words` as the memory that begins at `base`; `None` under the
    /// conditions of `new`, or where `words` is not a whole number of
    /// frames.
    pub fn from_words(base: u64, words: Vec<u64>) -> (r: Option<Self>)
        ensures
            r.is_some() <==> (base % 4096 == 0 && words@.len() % 512 == 0 && base + 8
                * words@.len() <= DIRECT_MAP_SIZE),
            r matches Some(m) ==> m.wf() && m.base() == base && m.size() == 8 * words@.len()
                && forall|a: int|
                m.contains_word(a) ==> #[trigger] m.word(a) == words@[(a - base) / 8],
    {
        if base % 4096 != 0 || base > DIRECT_MAP_SIZE {
            return None;
        }
        if words.len() % WORDS_PER_FRAME != 0 || words.len() as u64 > (DIRECT_MAP_SIZE - base) / 8 {
            return None;
        }
        Some(Self { base, words })
    }

    /// Whether `addr` is the base of a page frame of this memory.
    pub fn has_frame(&self, addr: PhysAddr) -> (r: bool)
        requires
            self.wf(),
        ensures
            r == self.contains_frame(addr.0 as int),
    {
        if addr.0 % 4096 != 0 || addr.0 < self.base {
            return false;
        }
        let first: u64 = (addr.0 - self.base) / 8;
        let len: u64 = self.words.len() as u64;
        first <= len && len - first >= WORDS_PER_FRAME as u64
    }

    /// Index of the word that holds the byte at `addr`.
    fn index_of(&self, addr: u64) -> (r: usize)
        requires
            self.wf(),
            self.contains(addr as int),
        ensures
            r == (addr - self.base) / 8,
            r < self.words@.len(),
    {
        let k: u64 = (addr - self.base) / 8;
        let len: usize = self.words.len();
        assert(k < len);
        k as usize
    }

    /// Reads the word at `addr`.
    pub fn read(&self, addr: PhysAddr) -> (r: u64)
        requires
            self.wf(),
            self.contains_word(addr.0 as int),
        ensures
            r == self.word(addr.0 as int),
    {
        let i: usize = self.index_of(addr.0);
        self.words[i]
    }

    /// Writes the word at `addr`.
    pub fn write(&mut self, addr: PhysAddr, value: u64)
        requires
            old(self).wf(),
            old(self).contains_word(addr.0 as int),
        ensures
            final(self).wf(),
            final(self).word(addr.0 as int) == value,
            final(self).same_outside(old(self), addr.0 as int, addr.0 + 8),
    {
        let i: usize = self.index_of(addr.0);
        self.words[i] = value;
        proof {
            assert forall|a: int|
                self.contains_word(a) && !(addr.0 <= a < addr.0 + 8) implies #[trigger] self.word(a)
                == old(self).word(a) by {
                lemma_word_index_distinct(self.base as int, a, addr.0 as int);
            }
        }
    }

    /// Fills the page frame at `frame` with zeroes.
    pub fn zero_frame(&mut self, frame: PhysAddr)
        requires
            old(self).wf(),
            old(self).contains_frame(frame.0 as int),
        ensures
            final(self).wf(),
            final(self).same_outside(old(self), frame.0 as int, frame.0 + 4096),
            forall|a: int|
                frame.0 <= a < frame.0 + 4096 && a % 8 == 0 ==> #[trigger] final(self).word(a) == 0,
    {
        let first: usize = self.index_of(frame.0);
        let len: usize = self.words.len();
        let mut i: usize = 0;
        while i < WORDS_PER_FRAME
            invariant
                i <= WORDS_PER_FRAME,
                len == self.words@.len(),
                self.wf(),
                self.base == old(self).base,
                self.words@.len() == old(self).words@.len(),
                first == (frame.0 - self.base) / 8,
                first + WORDS_PER_FRAME <= self.words@.len(),
                forall|k: int|
                    0 <= k < first || first + i <= k < self.words@.len() ==> self.words@[k] == old(
                        self,
                    ).words@[k],
                forall|k: int| first <= k < first + i ==> self.words@[k] == 0,
            decreases WORDS_PER_FRAME - i,
        {
            self.words[first + i] = 0;
            i += 1;
        }
        proof {
            assert forall|a: int|
                self.contains_word(a) && !(frame.0 <= a < frame.0 + 4096) implies #[trigger] self.word(
                a,
            ) == old(self).word(a) by {
                let k = (a - self.base) / 8;
                assert(k < first || k >= first + 512);
            }
            assert forall|a: int|
                frame.0 <= a < frame.0 + 4096 && a % 8 == 0 implies #[trigger] self.word(a)
                == 0 by {
                let k = (a - self.base) / 8;
                assert(first <= k < first + 512);
            }
        }
    }

    /// Reads the byte at `addr`.
    pub fn read_byte(&self, addr: PhysAddr) -> (r: u8)
        requires
            self.wf(),
            self.contains(addr.0 as int),
        ensures
            r == self.byte(addr.0 as int),
    {
        let offset: u64 = addr.0 % 8;
        let i: usize = self.index_of(addr.0);
        let word: u64 = self.words[i];
        assert((addr.0 - addr.0 % 8 - self.base) / 8 == (addr.0 - self.base) / 8);
        let shifted: u64 = (word >> (8 * offset)) & 0xFF;
        assert(shifted <= 0xFF) by (bit_vector)
            requires
                shifted == (word >> (8 * offset)) & 0xFF,
        ;
        shifted as u8
    }
}

/// Two different words of a memory have different indices.
pub proof fn lemma_word_index_distinct(base: int, a: int, b: int)
    requires
        base % 8 == 0,
        a % 8 == 0,
        b % 8 == 0,
        a != b,
    ensures
        (a - base) / 8 != (b - base) / 8,
{
}

/// Every byte of a zero word is zero.
pub proof fn lemma_zero_word_bytes(k: u64)
    requires
        k < 8,
    ensures
        (((0u64 >> ((8 * k) as u64)) & 0xFF) as u8) == 0u8,
{
    assert((((0u64 >> ((8 * k) as u64)) & 0xFF) as u8) == 0u8) by (bit_vector)
        requires
            k < 8,
    ;
}

/// In a frame whose words are zero every byte is zero.
pub proof fn lemma_zero_frame_bytes(mem: &PhysMemory, frame: int, a: int)
    requires
        frame % 4096 == 0,
        frame <= a < frame + 4096,
        forall|w: int| frame <= w < frame + 4096 && w % 8 == 0 ==> #[trigger] mem.word(w) == 0,
    ensures
        mem.byte(a) == 0,
{
    let k = a % 8;
    let w = a - k;
    assert(w % 8 == 0);
    assert(frame <= w);
    assert(mem.word(w) == 0);
    lemma_zero_word_bytes(k as u64);
    assert((8 * (a % 8)) as u64 == (8 * (k as u64)) as u64);
}

} // verus!
