//! A fixed-capacity bitmap, one bit per block index.

use vstd::prelude::*;
use vstd::std_specs::bits::axiom_u64_trailing_zeros;

verus! {

/// Number of bits a bitmap holds.
pub const BITMAP_BITS: usize = 1024 * 1024;

/// Number of 64-bit words behind a bitmap.
pub const BITMAP_WORDS: usize = 16384;

/// Whether bit `b` of `w` is set.
pub open spec fn word_bit(w: u64, b: u64) -> bool {
    w & (1u64 << b) != 0
}

proof fn lemma_or_bit(w: u64, b: u64)
    requires
        b < 64,
    ensures
        forall|c: u64| c < 64 ==> #[trigger] word_bit(w | (1u64 << b), c) == (c == b || word_bit(w, c)),
{
    assert forall|c: u64| c < 64 implies #[trigger] word_bit(w | (1u64 << b), c) == (c == b
        || word_bit(w, c)) by {
        assert(((w | (1u64 << b)) & (1u64 << c) != 0) == (c == b || (w & (1u64 << c) != 0)))
            by (bit_vector)
            requires
                b < 64,
                c < 64,
        ;
    }
}

proof fn lemma_clear_bit(w: u64, b: u64)
    requires
        b < 64,
    ensures
        forall|c: u64| c < 64 ==> #[trigger] word_bit(w & !(1u64 << b), c) == (c != b && word_bit(w, c)),
{
    assert forall|c: u64| c < 64 implies #[trigger] word_bit(w & !(1u64 << b), c) == (c != b
        && word_bit(w, c)) by {
        assert(((w & !(1u64 << b)) & (1u64 << c) != 0) == (c != b && (w & (1u64 << c) != 0)))
            by (bit_vector)
            requires
                b < 64,
                c < 64,
        ;
    }
}

proof fn lemma_zero_word()
    ensures
        forall|c: u64| c < 64 ==> !#[trigger] word_bit(0u64, c),
{
    assert forall|c: u64| c < 64 implies !#[trigger] word_bit(0u64, c) by {
        assert(0u64 & (1u64 << c) == 0) by (bit_vector);
    }
}

/// The lowest set bit of a non-zero word is where its trailing zeros end.
proof fn lemma_lowest_bit(w: u64)
    requires
        w != 0,
    ensures
        w.trailing_zeros() < 64,
        word_bit(w, w.trailing_zeros() as u64),
        forall|c: u64| c < w.trailing_zeros() ==> !#[trigger] word_bit(w, c),
{
    axiom_u64_trailing_zeros(w);
    let t = w.trailing_zeros() as u64;
    assert(word_bit(w, t)) by {
        assert((w >> t) & 1u64 == 1u64);
        assert((w >> t) & 1u64 == 1u64 ==> w & (1u64 << t) != 0) by (bit_vector)
            requires
                t < 64,
        ;
    }
    assert forall|c: u64| c < t implies !#[trigger] word_bit(w, c) by {
        assert((w >> c) & 1u64 == 0u64);
        assert((w >> c) & 1u64 == 0u64 ==> w & (1u64 << c) == 0) by (bit_vector)
            requires
                c < 64,
        ;
    }
}

/// One bit per index below `BITMAP_BITS`, and a limit that callers keep above
/// every index they have set.
pub struct Bitmap {
    bits: Vec<u64>,
    len: usize,
}

impl Bitmap {
    /// Whether the bit at `idx` is set. No bit outside the capacity is.
    pub closed spec fn is_set(&self, idx: int) -> bool {
        0 <= idx < BITMAP_BITS && word_bit(self.bits@[idx / 64], (idx % 64) as u64)
    }

    /// The indices whose bit is set.
    pub open spec fn view(&self) -> Set<int> {
        Set::new(|i: int| self.is_set(i))
    }

    /// The limit below which `find_free` looks.
    pub closed spec fn limit(&self) -> nat {
        self.len as nat
    }

    /// The backing store has its full size.
    pub closed spec fn well_formed(&self) -> bool {
        self.bits@.len() == BITMAP_WORDS
    }

    /// An empty bitmap with limit zero.
    pub fn new() -> (r: Self)
        ensures
            r.well_formed(),
            r.limit() == 0,
            r@ == Set::<int>::empty(),
    {
        let r = Self { bits: vec![0u64; BITMAP_WORDS], len: 0 };
        proof {
            lemma_zero_word();
            assert forall|i: int| !r.is_set(i) by {
                if 0 <= i < BITMAP_BITS {
                    assert(r.bits@[i / 64] == 0u64);
                }
            }
            assert(r@ =~= Set::<int>::empty());
        }
        r
    }

    /// Reads the bit at `idx`.
    pub fn get(&self, idx: usize) -> (r: bool)
        requires
            self.well_formed(),
            idx < BITMAP_BITS,
        ensures
            r == self@.contains(idx as int),
    {
        let b: u64 = (idx % 64) as u64;
        self.bits[idx / 64] & (1u64 << b) != 0
    }

    /// Writes the bit at `idx`; the limit stays as it is.
    pub fn set(&mut self, idx: usize, val: bool)
        requires
            old(self).well_formed(),
            idx < BITMAP_BITS,
        ensures
            final(self).well_formed(),
            final(self).limit() == old(self).limit(),
            val ==> final(self)@ == old(self)@.insert(idx as int),
            !val ==> final(self)@ == old(self)@.remove(idx as int),
    {
        let b: u64 = (idx % 64) as u64;
        let w: u64 = self.bits[idx / 64];
        let n: u64 = if val {
            w | (1u64 << b)
        } else {
            w & !(1u64 << b)
        };
        self.bits[idx / 64] = n;
        proof {
            lemma_or_bit(w, b);
            lemma_clear_bit(w, b);
            assert forall|i: int| self.is_set(i) == (if i == idx {
                val
            } else {
                old(self).is_set(i)
            }) by {
                if 0 <= i < BITMAP_BITS {
                    let c = (i % 64) as u64;
                    if i / 64 == idx / 64 {
                        assert(self.bits@[i / 64] == n);
                        assert(word_bit(n, c) == (if c == b {
                            val
                        } else {
                            word_bit(w, c)
                        }));
                    } else {
                        assert(self.bits@[i / 64] == old(self).bits@[i / 64]);
                    }
                }
            }
            if val {
                assert(self@ =~= old(self)@.insert(idx as int));
            } else {
                assert(self@ =~= old(self)@.remove(idx as int));
            }
        }
    }

    /// Raises the limit to `at_least` if it is lower.
    pub fn raise_limit(&mut self, at_least: usize)
        ensures
            final(self).limit() == (if old(self).limit() >= at_least {
                old(self).limit()
            } else {
                at_least as nat
            }),
            final(self)@ == old(self)@,
            final(self).well_formed() == old(self).well_formed(),
    {
        if self.len < at_least {
            self.len = at_least;
        }
        proof {
            assert forall|i: int| self.is_set(i) == old(self).is_set(i) by {}
            assert(self@ =~= old(self)@);
        }
    }

    /// The limit.
    pub fn len(&self) -> (r: usize)
        ensures
            r == self.limit(),
    {
        self.len
    }

    /// The lowest set bit, if it lies below the limit.
    pub fn find_free(&self) -> (r: Option<usize>)
        requires
            self.well_formed(),
        ensures
            match r {
                Some(i) => self@.contains(i as int) && i < self.limit() && forall|j: int|
                    0 <= j < i ==> !self@.contains(j),
                None => forall|j: int| 0 <= j < self.limit() ==> !self@.contains(j),
            },
    {
        let mut i: usize = 0;
        while i < BITMAP_WORDS
            invariant
                self.well_formed(),
                i <= BITMAP_WORDS,
                forall|j: int| 0 <= j < self.limit() && j < 64 * i ==> !self.is_set(j),
            decreases BITMAP_WORDS - i,
        {
            let word: u64 = self.bits[i];
            if word != 0 {
                proof {
                    lemma_lowest_bit(word);
                }
                let bit: usize = word.trailing_zeros() as usize;
                let idx: usize = i * 64 + bit;
                assert(idx / 64 == i && idx % 64 == bit);
                if idx < self.len {
                    assert forall|j: int| 0 <= j < idx implies !self.is_set(j) by {
                        if j >= 64 * i {
                            assert(j / 64 == i as int);
                            assert(!word_bit(word, (j % 64) as u64));
                        }
                    }
                    return Some(idx);
                }
                assert forall|j: int| 0 <= j < self.limit() && j < 64 * (i + 1) implies !self.is_set(
                    j,
                ) by {
                    if j >= 64 * i {
                        assert(j / 64 == i as int);
                        assert(!word_bit(word, (j % 64) as u64));
                    }
                }
            } else {
                proof {
                    lemma_zero_word();
                }
                assert forall|j: int| 0 <= j < self.limit() && j < 64 * (i + 1) implies !self.is_set(
                    j,
                ) by {
                    if j >= 64 * i {
                        assert(j / 64 == i as int);
                        assert(!word_bit(word, (j % 64) as u64));
                    }
                }
            }
            i += 1;
        }
        None
    }
}

} // verus!
