//! A table tracking extant allocations: a sparse two-level bitmap over an
//! integer key space, conceptually a set of `usize` keys.
//!
//! A key `i` decomposes into a root segment, a word offset and a bit offset.
//! The root directory maps a root segment to a leaf; a leaf is a fixed-size
//! array of words holding one presence bit per key of its span.

use vstd::prelude::*;
use vstd::arithmetic::div_mod::lemma_fundamental_div_mod;

verus! {

/// Bit width of one bitmap word.
pub const WORD_BITS: usize = 64;

/// Number of presence bits covered by one leaf (2^23, one mebibyte of bits).
pub const LEAF_LEN: usize = 0x80_0000;

/// Number of words in one leaf's bitmap (`LEAF_LEN / WORD_BITS`, 2^17).
pub const WORDS_PER_LEAF: usize = 0x2_0000;

/// Largest root segment any `usize` key can decompose to.
pub const MAX_SEG: usize = usize::MAX / LEAF_LEN;

/// Bit offset of key `i` within its bitmap word.
pub open spec fn spec_bit(i: usize) -> u64 {
    (i % 64) as u64
}

/// Word offset of key `i` within its leaf.
pub open spec fn spec_word(i: usize) -> int {
    (i as int / 64) % (WORDS_PER_LEAF as int)
}

/// Root segment of key `i`: which leaf the key belongs to.
pub open spec fn spec_seg(i: usize) -> int {
    (i as int / 64) / (WORDS_PER_LEAF as int)
}

/// The key that decomposes into the triple `(seg, word, bit)`.
pub open spec fn spec_key(seg: int, word: int, bit: int) -> int {
    (seg * (WORDS_PER_LEAF as int) + word) * 64 + bit
}

/// Decomposing a key and reassembling the triple gives the key back, and the
/// triple's components are in range.
pub proof fn lemma_key_decompose(i: usize)
    ensures
        spec_key(spec_seg(i), spec_word(i), spec_bit(i) as int) == i,
        spec_bit(i) < 64,
        0 <= spec_word(i) < WORDS_PER_LEAF,
        0 <= spec_seg(i) <= MAX_SEG,
{
    let w = WORDS_PER_LEAF as int;
    lemma_fundamental_div_mod(i as int, 64);
    lemma_fundamental_div_mod(i as int / 64, w);
    assert(spec_key(spec_seg(i), spec_word(i), spec_bit(i) as int) == i);
    // The segment bound: seg * LEAF_LEN <= i <= usize::MAX = MAX_SEG * LEAF_LEN + r.
    lemma_fundamental_div_mod(usize::MAX as int, LEAF_LEN as int);
    assert(spec_seg(i) * (LEAF_LEN as int) <= i);
    assert(spec_seg(i) <= MAX_SEG);
}

/// Two distinct keys differ in at least one component of their decomposition.
pub proof fn lemma_key_injective(a: usize, b: usize)
    requires
        spec_seg(a) == spec_seg(b),
        spec_word(a) == spec_word(b),
        spec_bit(a) == spec_bit(b),
    ensures
        a == b,
{
    lemma_key_decompose(a);
    lemma_key_decompose(b);
}

/// Every bit of a zero word reads zero.
proof fn lemma_zero_word_bits()
    by (bit_vector)
    ensures
        forall|b: u64| #[trigger] ((0u64 >> b) & 1u64) == 0u64,
{
}

/// Testing a bit through a mask agrees with testing it through a shift.
proof fn lemma_mask_test(w: u64, b: u64)
    by (bit_vector)
    requires
        b < 64,
    ensures
        (w & (1u64 << b) != 0) == ((w >> b) & 1u64 == 1u64),
{
}

/// Or-ing a one-bit mask into a word sets that bit and leaves the others.
proof fn lemma_or_mask(w: u64, b: u64, b2: u64)
    by (bit_vector)
    requires
        b < 64,
        b2 < 64,
    ensures
        ((w | (1u64 << b)) >> b) & 1u64 == 1u64,
        b2 != b ==> ((w | (1u64 << b)) >> b2) & 1u64 == (w >> b2) & 1u64,
{
}

/// And-not of a one-bit mask clears that bit and leaves the others.
proof fn lemma_and_not_mask(w: u64, b: u64, b2: u64)
    by (bit_vector)
    requires
        b < 64,
        b2 < 64,
    ensures
        ((w & !(1u64 << b)) >> b) & 1u64 == 0u64,
        b2 != b ==> ((w & !(1u64 << b)) >> b2) & 1u64 == (w >> b2) & 1u64,
{
}

/// Fixed-size bitmap of `LEAF_LEN` presence bits covering a contiguous span
/// of the key space. Created zero-filled on the first `set` in its span and
/// kept for the life of the registry.
pub struct Leaf {
    bitmap: Vec<u64>,
}

impl Leaf {
    /// The leaf's bitmap has its full fixed size.
    pub closed spec fn wf(self) -> bool {
        self.bitmap@.len() == WORDS_PER_LEAF
    }

    /// The words of the bitmap.
    pub closed spec fn words(self) -> Seq<u64> {
        self.bitmap@
    }

    /// Whether bit `bit` of word `word` is set.
    pub closed spec fn bit_set(self, word: int, bit: u64) -> bool {
        (self.bitmap@[word] >> bit) & 1u64 == 1u64
    }

    /// A fresh, zero-filled leaf: no bit is set.
    pub fn new() -> (r: Self)
        ensures
            r.wf(),
            forall|w: int| 0 <= w < WORDS_PER_LEAF ==> r.words()[w] == 0u64,
            forall|w: int, b: u64| 0 <= w < WORDS_PER_LEAF ==> !r.bit_set(w, b),
    {
        let mut bitmap: Vec<u64> = Vec::new();
        while bitmap.len() < WORDS_PER_LEAF
            invariant
                bitmap@.len() <= WORDS_PER_LEAF,
                forall|w: int| 0 <= w < bitmap@.len() ==> bitmap@[w] == 0u64,
            decreases WORDS_PER_LEAF - bitmap@.len(),
        {
            bitmap.push(0u64);
        }
        proof {
            lemma_zero_word_bits();
        }
        Leaf { bitmap }
    }

    /// Read the word at `word`.
    pub fn load(&self, word: usize) -> (w: u64)
        requires
            self.wf(),
            word < WORDS_PER_LEAF,
        ensures
            w == self.words()[word as int],
    {
        self.bitmap[word]
    }

    /// Or `mask` into the word at `word`; return the previous word.
    pub fn fetch_or(&mut self, word: usize, mask: u64) -> (prev: u64)
        requires
            old(self).wf(),
            word < WORDS_PER_LEAF,
        ensures
            final(self).wf(),
            prev == old(self).words()[word as int],
            final(self).words() == old(self).words().update(word as int, prev | mask),
    {
        let w = &mut self.bitmap[word];
        let prev = *w;
        *w = prev | mask;
        prev
    }

    /// Clear the bits of `mask` in the word at `word`; return the previous
    /// word.
    pub fn fetch_and_not(&mut self, word: usize, mask: u64) -> (prev: u64)
        requires
            old(self).wf(),
            word < WORDS_PER_LEAF,
        ensures
            final(self).wf(),
            prev == old(self).words()[word as int],
            final(self).words() == old(self).words().update(word as int, prev & !mask),
    {
        let w = &mut self.bitmap[word];
        let prev = *w;
        *w = prev & !mask;
        prev
    }
}

/// Whether `n` is a power of two.
pub open spec fn is_pow2(n: int) -> bool
    decreases n,
{
    if n <= 0 {
        false
    } else if n == 1 {
        true
    } else {
        n % 2 == 0 && is_pow2(n / 2)
    }
}

/// Sorted sparse directory mapping a root segment to its leaf. The backing
/// array has power-of-two capacity; only the first `num_leaves` slots are
/// live, and they are strictly sorted by segment.
pub struct Root {
    leaves: Vec<Option<(usize, Leaf)>>,
    num_leaves: usize,
}

impl Root {
    /// Capacity of the directory's backing array.
    pub closed spec fn cap(self) -> int {
        self.leaves@.len() as int
    }

    /// Number of live entries.
    pub closed spec fn num(self) -> int {
        self.num_leaves as int
    }

    /// Segment of the live entry at index `j`.
    pub closed spec fn entry_seg(self, j: int) -> int {
        self.leaves@[j].unwrap().0 as int
    }

    /// Leaf of the live entry at index `j`.
    pub closed spec fn entry_leaf(self, j: int) -> Leaf {
        self.leaves@[j].unwrap().1
    }

    /// The live prefix is strictly sorted by segment, every live slot is
    /// occupied by a well-formed leaf, and the slots past it are empty.
    pub closed spec fn entries_ok(self) -> bool {
        &&& self.num() <= self.cap()
        &&& (forall|j: int| 0 <= j < self.num() ==> self.leaves@[j] is Some)
        &&& (forall|j: int| 0 <= j < self.num() ==> (#[trigger] self.entry_leaf(j)).wf())
        &&& (forall|j: int| 0 <= j < self.num() ==> 0 <= #[trigger] self.entry_seg(j) <= MAX_SEG)
        &&& (forall|j: int, k: int|
            0 <= j < k < self.num() ==> #[trigger] self.entry_seg(j) < #[trigger] self.entry_seg(k))
        &&& (forall|j: int| self.num() <= j < self.cap() ==> self.leaves@[j] is None)
    }

    /// Capacity discipline: zero until the first insertion, then eight, then
    /// doubling, always a power of two and never more than a doubling ahead
    /// of the number of entries.
    pub closed spec fn cap_ok(self) -> bool {
        ||| (self.cap() == 0 && self.num() == 0)
        ||| (self.cap() == 8 && self.num() <= 8)
        ||| (is_pow2(self.cap()) && self.cap() > 8 && 8 < self.num() <= self.cap()
            && self.cap() < 2 * self.num())
    }

    /// Directory well-formedness.
    pub closed spec fn wf(self) -> bool {
        self.entries_ok() && self.cap_ok()
    }

    /// Whether some live entry covers segment `seg`.
    pub closed spec fn has_seg(self, seg: int) -> bool {
        exists|j: int| 0 <= j < self.num() && self.entry_seg(j) == seg
    }

    /// Index of the live entry covering segment `seg`.
    pub closed spec fn seg_idx(self, seg: int) -> int {
        choose|j: int| 0 <= j < self.num() && self.entry_seg(j) == seg
    }

    /// The leaf covering segment `seg`.
    pub closed spec fn leaf_for(self, seg: int) -> Leaf {
        self.entry_leaf(self.seg_idx(seg))
    }

    /// The bitmap word at offset `word` of the leaf covering segment `seg`.
    pub open spec fn word_at(self, seg: int, word: int) -> u64 {
        self.leaf_for(seg).words()[word]
    }

    /// Whether the presence bit of key `i` is set.
    pub open spec fn contains_key(self, i: usize) -> bool {
        self.has_seg(spec_seg(i)) && self.leaf_for(spec_seg(i)).bit_set(spec_word(i), spec_bit(i))
    }

    /// The set of keys whose presence bit is set.
    pub open spec fn key_set(self) -> Set<usize> {
        Set::new(|i: usize| self.contains_key(i))
    }

    /// The set of segments with a live entry.
    pub open spec fn seg_set(self) -> Set<usize> {
        Set::new(|s: usize| self.has_seg(s as int))
    }

    /// The set of segments among the first `n` live entries.
    pub closed spec fn prefix_seg_set(self, n: int) -> Set<usize> {
        Set::new(|s: usize| exists|j: int| 0 <= j < n && self.entry_seg(j) == s)
    }

    /// A strictly sorted prefix holds as many distinct segments as entries.
    proof fn lemma_prefix_count(self, n: int)
        requires
            self.entries_ok(),
            0 <= n <= self.num(),
        ensures
            self.prefix_seg_set(n).finite(),
            self.prefix_seg_set(n).len() == n,
        decreases n,
    {
        if n == 0 {
            assert(self.prefix_seg_set(0) =~= Set::<usize>::empty());
        } else {
            self.lemma_prefix_count(n - 1);
            let s_new = self.entry_seg(n - 1) as usize;
            assert(self.prefix_seg_set(n) =~= self.prefix_seg_set(n - 1).insert(s_new)) by {
                assert forall|s: usize| self.prefix_seg_set(n).contains(s) implies self
                    .prefix_seg_set(n - 1).insert(s_new).contains(s) by {
                    let j = choose|j: int| 0 <= j < n && self.entry_seg(j) == s;
                    if j < n - 1 {
                        assert(self.prefix_seg_set(n - 1).contains(s));
                    }
                }
                assert forall|s: usize| self.prefix_seg_set(n - 1).insert(s_new).contains(
                    s,
                ) implies self.prefix_seg_set(n).contains(s) by {
                    if s == s_new {
                        assert(self.entry_seg(n - 1) == s);
                    } else {
                        let j = choose|j: int| 0 <= j < n - 1 && self.entry_seg(j) == s;
                        assert(0 <= j < n && self.entry_seg(j) == s);
                    }
                }
            }
            assert(!self.prefix_seg_set(n - 1).contains(s_new)) by {
                if self.prefix_seg_set(n - 1).contains(s_new) {
                    let j = choose|j: int| 0 <= j < n - 1 && self.entry_seg(j) == s_new;
                    assert(self.entry_seg(j) < self.entry_seg(n - 1));
                }
            }
            vstd::set::axiom_set_insert_finite(self.prefix_seg_set(n - 1), s_new);
            vstd::set::axiom_set_insert_len(self.prefix_seg_set(n - 1), s_new);
        }
    }

    /// Sortedness makes the index of a segment unique.
    proof fn lemma_seg_idx_is(self, j: int)
        requires
            self.entries_ok(),
            0 <= j < self.num(),
        ensures
            self.has_seg(self.entry_seg(j)),
            self.seg_idx(self.entry_seg(j)) == j,
    {
        let s = self.entry_seg(j);
        assert(self.has_seg(s));
        let j2 = self.seg_idx(s);
        assert(0 <= j2 < self.num() && self.entry_seg(j2) == s);
        if j2 < j {
            assert(self.entry_seg(j2) < self.entry_seg(j));
        } else if j < j2 {
            assert(self.entry_seg(j) < self.entry_seg(j2));
        }
    }

    /// In a strictly sorted directory each segment is at least its index.
    proof fn lemma_sorted_lower(self, j: int)
        requires
            self.entries_ok(),
            0 <= j < self.num(),
        ensures
            self.entry_seg(j) >= j,
        decreases j,
    {
        if j > 0 {
            self.lemma_sorted_lower(j - 1);
            assert(self.entry_seg(j - 1) < self.entry_seg(j));
        }
    }

    /// The directory can never hold more entries than there are segments.
    proof fn lemma_num_bound(self)
        requires
            self.entries_ok(),
        ensures
            self.num() <= MAX_SEG + 1,
    {
        if self.num() > 0 {
            self.lemma_sorted_lower(self.num() - 1);
        }
    }

    /// An empty directory.
    pub fn new() -> (r: Self)
        ensures
            r.wf(),
            r.num() == 0,
            r.cap() == 0,
            forall|i: usize| !r.contains_key(i),
    {
        Root { leaves: Vec::new(), num_leaves: 0 }
    }

    /// Index of the first live entry whose segment is not below `seg`
    /// (`num_leaves` if there is none), by binary search on the sorted
    /// prefix.
    #[verifier::loop_isolation(false)]
    fn lower_bound(&self, seg: usize) -> (p: usize)
        requires
            self.entries_ok(),
        ensures
            p <= self.num(),
            forall|j: int| 0 <= j < p ==> self.entry_seg(j) < seg,
            forall|j: int| p <= j < self.num() ==> self.entry_seg(j) >= seg,
    {
        let mut lo: usize = 0;
        let mut hi: usize = self.num_leaves;
        while lo < hi
            invariant
                lo <= hi <= self.num(),
                forall|j: int| 0 <= j < lo ==> self.entry_seg(j) < seg,
                forall|j: int| hi <= j < self.num() ==> self.entry_seg(j) >= seg,
            decreases hi - lo,
        {
            let mid = lo + (hi - lo) / 2;
            let entry_seg = match &self.leaves[mid] {
                Some(e) => e.0,
                None => {
                    proof {
                        assert(false);
                    }
                    0
                },
            };
            assert(entry_seg == self.entry_seg(mid as int));
            if entry_seg < seg {
                lo = mid + 1;
            } else {
                hi = mid;
            }
        }
        lo
    }

    /// Find the bitmap word at offset `bitmap_i` of the leaf covering
    /// segment `root_i`, if that leaf exists.
    pub fn get_bitmap(&self, root_i: usize, bitmap_i: usize) -> (r: Option<&u64>)
        requires
            self.wf(),
            bitmap_i < WORDS_PER_LEAF,
        ensures
            match r {
                Some(w) => self.has_seg(root_i as int) && *w == self.word_at(
                    root_i as int,
                    bitmap_i as int,
                ),
                None => !self.has_seg(root_i as int),
            },
    {
        let p = self.lower_bound(root_i);
        if p == self.num_leaves {
            assert(!self.has_seg(root_i as int));
            return None;
        }
        match &self.leaves[p] {
            Some(e) => {
                if e.0 == root_i {
                    proof {
                        self.lemma_seg_idx_is(p as int);
                        assert(self.entry_leaf(p as int).wf());
                        assert(e.1 == self.entry_leaf(p as int));
                    }
                    Some(&e.1.bitmap[bitmap_i])
                } else {
                    assert(!self.has_seg(root_i as int)) by {
                        if self.has_seg(root_i as int) {
                            let j = self.seg_idx(root_i as int);
                            assert(0 <= j < self.num() && self.entry_seg(j) == root_i);
                            if j > p {
                                assert(self.entry_seg(p as int) < self.entry_seg(j));
                            }
                        }
                    }
                    None
                }
            },
            None => {
                proof {
                    assert(false);
                }
                None
            },
        }
    }
    /// The next capacity never overflows: the directory cannot outgrow the
    /// segment space, which is a tiny fraction of `usize`.
    proof fn lemma_cap_room(self)
        requires
            self.entries_ok(),
        ensures
            2 * self.num() + 2 <= usize::MAX,
    {
        self.lemma_num_bound();
        lemma_fundamental_div_mod(usize::MAX as int, LEAF_LEN as int);
        assert(usize::MAX >= 0xffff_ffffusize);
    }

    /// Replace the backing array by one of the next capacity, moving the
    /// live entries across.
    #[verifier::loop_isolation(false)]
    fn grow(&mut self)
        requires
            old(self).entries_ok(),
            old(self).num() == old(self).cap(),
        ensures
            final(self).entries_ok(),
            final(self).num() == old(self).num(),
            final(self).cap() == if old(self).cap() == 0 {
                8int
            } else {
                2 * old(self).cap()
            },
            forall|j: int| 0 <= j < old(self).num() ==> final(self).leaves@[j] == old(
                self,
            ).leaves@[j],
    {
        proof {
            self.lemma_cap_room();
        }
        let new_cap: usize = if self.leaves.len() == 0 {
            8
        } else {
            self.leaves.len() * 2
        };
        let mut new_leaves: Vec<Option<(usize, Leaf)>> = Vec::new();
        while new_leaves.len() < new_cap
            invariant
                new_leaves@.len() <= new_cap,
                forall|t: int| 0 <= t < new_leaves@.len() ==> new_leaves@[t] is None,
            decreases new_cap - new_leaves@.len(),
        {
            new_leaves.push(None);
        }
        let mut j: usize = 0;
        while j < self.num_leaves
            invariant
                j <= old(self).num(),
                self.num_leaves == old(self).num_leaves,
                self.leaves@.len() == old(self).leaves@.len(),
                new_leaves@.len() == new_cap,
                forall|t: int| 0 <= t < j ==> new_leaves@[t] == old(self).leaves@[t],
                forall|t: int| j <= t < new_cap ==> new_leaves@[t] is None,
                forall|t: int|
                    j <= t < old(self).leaves@.len() ==> self.leaves@[t] == old(self).leaves@[t],
            decreases old(self).num() - j,
        {
            core::mem::swap(&mut self.leaves[j], &mut new_leaves[j]);
            j = j + 1;
        }
        self.leaves = new_leaves;
        proof {
            assert forall|t: int| 0 <= t < self.num() implies self.leaves@[t] == old(
                self,
            ).leaves@[t] by {}
            assert forall|t: int| 0 <= t < self.num() implies self.entry_seg(t) == old(
                self,
            ).entry_seg(t) && self.entry_leaf(t) == old(self).entry_leaf(t) by {}
        }
    }

    /// Insert a fresh zero leaf for segment `root_i` at position `p` of the
    /// live prefix, keeping the prefix strictly sorted. No presence bit
    /// changes.
    fn insert_leaf_at(&mut self, p: usize, root_i: usize)
        requires
            old(self).entries_ok(),
            old(self).num() < old(self).cap(),
            root_i <= MAX_SEG,
            p <= old(self).num(),
            forall|j: int| 0 <= j < p ==> old(self).entry_seg(j) < root_i,
            forall|j: int| p <= j < old(self).num() ==> old(self).entry_seg(j) > root_i,
        ensures
            final(self).entries_ok(),
            final(self).num() == old(self).num() + 1,
            final(self).cap() == old(self).cap(),
            final(self).entry_seg(p as int) == root_i,
            final(self).has_seg(root_i as int),
            forall|k: usize| final(self).contains_key(k) == old(self).contains_key(k),
            final(self).seg_set() == old(self).seg_set().insert(root_i),
    {
        let leaf = Leaf::new();
        self.leaves.insert(p, Some((root_i, leaf)));
        self.leaves.pop();
        proof {
            old(self).lemma_cap_room();
        }
        self.num_leaves = self.num_leaves + 1;
        proof {
            let pre = *old(self);
            let post = *self;
            // The backing array: unchanged below `p`, the new entry at `p`,
            // the old entries shifted one up above it.
            assert forall|t: int| 0 <= t < post.cap() implies post.leaves@[t] == (if t < p {
                pre.leaves@[t]
            } else if t == p {
                Some((root_i, leaf))
            } else {
                pre.leaves@[t - 1]
            }) by {}
            assert forall|j: int| 0 <= j < post.num() implies post.leaves@[j] is Some by {}
            assert forall|j: int| 0 <= j < post.num() implies (#[trigger] post.entry_leaf(
                j,
            )).wf() by {
                if j < p {
                    assert(pre.entry_leaf(j).wf());
                } else if j > p {
                    assert(pre.entry_leaf(j - 1).wf());
                }
            }
            assert forall|j: int|
                0 <= j < post.num() implies 0 <= #[trigger] post.entry_seg(j) <= MAX_SEG by {
                if j < p {
                    assert(pre.entry_seg(j) <= MAX_SEG);
                } else if j > p {
                    assert(pre.entry_seg(j - 1) <= MAX_SEG);
                }
            }
            assert forall|j: int, k: int|
                0 <= j < k < post.num() implies #[trigger] post.entry_seg(j)
                < #[trigger] post.entry_seg(k) by {
                if k < p {
                    assert(pre.entry_seg(j) < pre.entry_seg(k));
                } else if j < p && k == p {
                    assert(pre.entry_seg(j) < root_i);
                } else if j < p && k > p {
                    assert(pre.entry_seg(j) < root_i);
                    assert(pre.entry_seg(k - 1) > root_i);
                } else if j == p {
                    assert(pre.entry_seg(k - 1) > root_i);
                } else {
                    assert(pre.entry_seg(j - 1) < pre.entry_seg(k - 1));
                }
            }
            assert forall|j: int| post.num() <= j < post.cap() implies post.leaves@[j]
                is None by {}
            assert(post.entries_ok());
            self.lemma_seg_idx_is(p as int);
            // No presence bit changes: the new leaf is all zero, every other
            // leaf keeps its position's contents.
            assert forall|k: usize| post.contains_key(k) == pre.contains_key(k) by {
                lemma_key_decompose(k);
                let s = spec_seg(k);
                if s == root_i {
                    assert(!pre.has_seg(s));
                    assert(post.seg_idx(s) == p);
                    assert(!post.leaf_for(s).bit_set(spec_word(k), spec_bit(k)));
                } else {
                    if pre.has_seg(s) {
                        let j = pre.seg_idx(s);
                        pre.lemma_seg_idx_is(j);
                        let j2: int = if j < p { j } else { j + 1 };
                        assert(post.entry_seg(j2) == s);
                        assert(post.entry_leaf(j2) == pre.entry_leaf(j));
                        post.lemma_seg_idx_is(j2);
                    } else {
                        assert(!post.has_seg(s)) by {
                            if post.has_seg(s) {
                                let j2 = post.seg_idx(s);
                                post.lemma_seg_idx_is(j2);
                                if j2 < p {
                                    assert(pre.entry_seg(j2) == s);
                                } else if j2 > p {
                                    assert(pre.entry_seg(j2 - 1) == s);
                                }
                            }
                        }
                    }
                }
            }
            // The segment set gains exactly `root_i`.
            assert forall|s: usize| post.seg_set().contains(s) == pre.seg_set().insert(
                root_i,
            ).contains(s) by {
                if s == root_i {
                } else {
                    if pre.has_seg(s as int) {
                        let j = pre.seg_idx(s as int);
                        pre.lemma_seg_idx_is(j);
                        let j2: int = if j < p { j } else { j + 1 };
                        assert(post.entry_seg(j2) == s);
                        post.lemma_seg_idx_is(j2);
                    } else if post.has_seg(s as int) {
                        let j2 = post.seg_idx(s as int);
                        post.lemma_seg_idx_is(j2);
                        if j2 < p {
                            assert(pre.entry_seg(j2) == s);
                        } else if j2 > p {
                            assert(pre.entry_seg(j2 - 1) == s);
                        }
                    }
                }
            }
            assert(post.seg_set() =~= pre.seg_set().insert(root_i));
        }
    }

    /// Find the live entry covering segment `root_i`, inserting a fresh zero
    /// leaf for it (growing the backing array first if it is full) when
    /// there is none. Returns the entry's index. Called on the write path
    /// only.
    pub fn get_or_insert_leaf(&mut self, root_i: usize) -> (idx: usize)
        requires
            old(self).wf(),
            root_i <= MAX_SEG,
        ensures
            final(self).wf(),
            idx < final(self).num(),
            final(self).entry_seg(idx as int) == root_i,
            final(self).seg_idx(root_i as int) == idx,
            final(self).has_seg(root_i as int),
            forall|k: usize| final(self).contains_key(k) == old(self).contains_key(k),
            final(self).seg_set() == old(self).seg_set().insert(root_i),
            old(self).has_seg(root_i as int) ==> *final(self) == *old(self),
            !old(self).has_seg(root_i as int) ==> final(self).num() == old(self).num() + 1
                && final(self).cap() == (if old(self).num() < old(self).cap() {
                old(self).cap()
            } else if old(self).cap() == 0 {
                8int
            } else {
                2 * old(self).cap()
            }),
    {
        let p = self.lower_bound(root_i);
        if p < self.num_leaves {
            let hit = match &self.leaves[p] {
                Some(e) => e.0 == root_i,
                None => {
                    proof {
                        assert(false);
                    }
                    false
                },
            };
            if hit {
                proof {
                    self.lemma_seg_idx_is(p as int);
                    assert(self.seg_set() =~= self.seg_set().insert(root_i));
                }
                return p;
            }
        }
        proof {
            assert forall|j: int| p <= j < self.num() implies self.entry_seg(j) > root_i by {
                if j > p {
                    assert(self.entry_seg(p as int) < self.entry_seg(j));
                }
            }
            assert(!self.has_seg(root_i as int));
        }
        if self.num_leaves == self.leaves.len() {
            self.grow();
            proof {
                assert forall|j: int| 0 <= j < self.num() implies self.entry_seg(j) == old(
                    self,
                ).entry_seg(j) by {}
            }
        }
        let ghost mid = *self;
        self.insert_leaf_at(p, root_i);
        proof {
            let pre = *old(self);
            assert(self.num() == mid.num() + 1 && self.cap() == mid.cap());
            if pre.num() < pre.cap() {
                assert(mid == pre);
            } else if pre.cap() == 0 {
                assert(mid.cap() == 8 && mid.num() == 0);
            } else if pre.cap() == 8 {
                assert(mid.cap() == 16 && mid.num() == 8);
                reveal_with_fuel(is_pow2, 5);
                assert(is_pow2(16));
            } else {
                assert(mid.cap() == 2 * pre.cap() && mid.num() == pre.num());
                assert(is_pow2(2 * pre.cap())) by {
                    assert((2 * pre.cap()) % 2 == 0);
                    assert((2 * pre.cap()) / 2 == pre.cap());
                }
            }
            assert(self.cap_ok());
        }
        p
    }

    /// Two directories with the same live segments in the same order locate
    /// every segment at the same index.
    proof fn lemma_idx_transfer(a: Root, b: Root, s: int)
        requires
            a.entries_ok(),
            b.entries_ok(),
            a.num() == b.num(),
            forall|j: int| 0 <= j < a.num() ==> a.entry_seg(j) == b.entry_seg(j),
            a.has_seg(s),
        ensures
            b.has_seg(s),
            b.seg_idx(s) == a.seg_idx(s),
    {
        let j = a.seg_idx(s);
        assert(0 <= j < a.num() && a.entry_seg(j) == s);
        a.lemma_seg_idx_is(j);
        b.lemma_seg_idx_is(j);
    }

    /// Set presence bit `bit` of word `bitmap_i` of the leaf covering
    /// segment `root_i`, creating the leaf if need be. Exactly the keys
    /// decomposing to that position become present; every other key keeps
    /// its state.
    pub fn set_bit(&mut self, root_i: usize, bitmap_i: usize, bit: u64)
        requires
            old(self).wf(),
            root_i <= MAX_SEG,
            bitmap_i < WORDS_PER_LEAF,
            bit < 64,
        ensures
            final(self).wf(),
            forall|k: usize|
                final(self).contains_key(k) == (old(self).contains_key(k) || (spec_seg(k)
                    == root_i && spec_word(k) == bitmap_i && spec_bit(k) == bit)),
            final(self).seg_set() == old(self).seg_set().insert(root_i),
            old(self).has_seg(root_i as int) ==> final(self).num() == old(self).num()
                && final(self).cap() == old(self).cap(),
            !old(self).has_seg(root_i as int) ==> final(self).num() == old(self).num() + 1
                && final(self).cap() == (if old(self).num() < old(self).cap() {
                old(self).cap()
            } else if old(self).cap() == 0 {
                8int
            } else {
                2 * old(self).cap()
            }),
    {
        let idx = self.get_or_insert_leaf(root_i);
        let ghost mid = *self;
        let mask = 1u64 << bit;
        let ghost prev_word = mid.entry_leaf(idx as int).words()[bitmap_i as int];
        match &mut self.leaves[idx] {
            Some(e) => {
                let prev = e.1.fetch_or(bitmap_i, mask);
            },
            None => {
                proof {
                    assert(false);
                }
            },
        }
        proof {
            let post = *self;
            assert(post.leaves@[idx as int].unwrap().0 == root_i);
            assert(post.entry_leaf(idx as int).words() == mid.entry_leaf(idx as int).words()
                .update(bitmap_i as int, prev_word | mask));
            assert forall|t: int| 0 <= t < post.cap() && t != idx implies post.leaves@[t]
                == mid.leaves@[t] by {}
            assert forall|t: int| 0 <= t < post.num() implies post.entry_seg(t) == mid.entry_seg(
                t,
            ) by {}
            assert forall|t: int| 0 <= t < post.num() implies (#[trigger] post.entry_leaf(
                t,
            )).wf() by {
                if t != idx {
                    assert(mid.entry_leaf(t).wf());
                }
            }
            assert(post.entries_ok());
            assert(post.cap_ok());
            // Which keys are present afterwards.
            assert forall|k: usize|
                post.contains_key(k) == (mid.contains_key(k) || (spec_seg(k) == root_i
                    && spec_word(k) == bitmap_i && spec_bit(k) == bit)) by {
                lemma_key_decompose(k);
                let s = spec_seg(k);
                if s == root_i {
                    Self::lemma_idx_transfer(mid, post, s);
                    assert(post.seg_idx(s) == idx);
                    assert(post.leaf_for(s) == post.entry_leaf(idx as int));
                    assert(mid.leaf_for(s) == mid.entry_leaf(idx as int));
                    if spec_word(k) == bitmap_i {
                        lemma_or_mask(prev_word, bit, spec_bit(k));
                    } else {
                        assert(post.leaf_for(s).words()[spec_word(k)] == mid.leaf_for(
                            s,
                        ).words()[spec_word(k)]);
                    }
                } else {
                    if mid.has_seg(s) {
                        Self::lemma_idx_transfer(mid, post, s);
                        assert(mid.seg_idx(s) != idx);
                        assert(post.leaf_for(s) == mid.leaf_for(s));
                    } else {
                        assert(!post.has_seg(s)) by {
                            if post.has_seg(s) {
                                Self::lemma_idx_transfer(post, mid, s);
                            }
                        }
                    }
                }
            }
            // The segment set is untouched by the bit operation.
            assert forall|s: usize| post.seg_set().contains(s) == mid.seg_set().contains(
                s,
            ) by {
                if mid.has_seg(s as int) {
                    Self::lemma_idx_transfer(mid, post, s as int);
                } else if post.has_seg(s as int) {
                    Self::lemma_idx_transfer(post, mid, s as int);
                }
            }
            assert(post.seg_set() =~= mid.seg_set());
        }
    }

    /// Clear presence bit `bit` of word `bitmap_i` of the leaf covering
    /// segment `root_i`, if that leaf exists, and report whether the bit was
    /// set. Exactly the keys decomposing to that position become absent;
    /// every other key keeps its state. The directory itself is unchanged.
    pub fn clear_bit(&mut self, root_i: usize, bitmap_i: usize, bit: u64) -> (was: bool)
        requires
            old(self).wf(),
            bitmap_i < WORDS_PER_LEAF,
            bit < 64,
        ensures
            final(self).wf(),
            was == (old(self).has_seg(root_i as int) && ((old(self).word_at(
                root_i as int,
                bitmap_i as int,
            ) >> bit) & 1u64 == 1u64)),
            forall|k: usize|
                final(self).contains_key(k) == (old(self).contains_key(k) && !(spec_seg(k)
                    == root_i && spec_word(k) == bitmap_i && spec_bit(k) == bit)),
            final(self).seg_set() == old(self).seg_set(),
            final(self).num() == old(self).num(),
            final(self).cap() == old(self).cap(),
    {
        let p = self.lower_bound(root_i);
        let hit = p < self.num_leaves && match &self.leaves[p] {
            Some(e) => e.0 == root_i,
            None => {
                proof {
                    assert(false);
                }
                false
            },
        };
        if !hit {
            proof {
                assert(!self.has_seg(root_i as int)) by {
                    if self.has_seg(root_i as int) {
                        let j = self.seg_idx(root_i as int);
                        assert(0 <= j < self.num() && self.entry_seg(j) == root_i);
                        if p < self.num() && j > p {
                            assert(self.entry_seg(p as int) < self.entry_seg(j));
                        }
                    }
                }
                assert forall|k: usize|
                    self.contains_key(k) == (self.contains_key(k) && !(spec_seg(k) == root_i
                        && spec_word(k) == bitmap_i && spec_bit(k) == bit)) by {
                    if spec_seg(k) == root_i {
                        assert(!self.contains_key(k));
                    }
                }
            }
            return false;
        }
        proof {
            self.lemma_seg_idx_is(p as int);
        }
        let mask = 1u64 << bit;
        let ghost mid = *self;
        let ghost prev_word = mid.entry_leaf(p as int).words()[bitmap_i as int];
        let prev = match &mut self.leaves[p] {
            Some(e) => e.1.fetch_and_not(bitmap_i, mask),
            None => {
                proof {
                    assert(false);
                }
                0
            },
        };
        proof {
            let post = *self;
            assert(prev == prev_word);
            assert(post.leaves@[p as int].unwrap().0 == root_i);
            assert(post.entry_leaf(p as int).words() == mid.entry_leaf(p as int).words().update(
                bitmap_i as int,
                prev_word & !mask,
            ));
            assert forall|t: int| 0 <= t < post.cap() && t != p implies post.leaves@[t]
                == mid.leaves@[t] by {}
            assert forall|t: int| 0 <= t < post.num() implies post.entry_seg(t) == mid.entry_seg(
                t,
            ) by {}
            assert forall|t: int| 0 <= t < post.num() implies (#[trigger] post.entry_leaf(
                t,
            )).wf() by {
                if t != p {
                    assert(mid.entry_leaf(t).wf());
                }
            }
            assert(post.entries_ok());
            assert(post.cap_ok());
            assert(mid.seg_idx(root_i as int) == p);
            assert(mid.word_at(root_i as int, bitmap_i as int) == prev_word);
            lemma_mask_test(prev_word, bit);
            assert forall|k: usize|
                post.contains_key(k) == (mid.contains_key(k) && !(spec_seg(k) == root_i
                    && spec_word(k) == bitmap_i && spec_bit(k) == bit)) by {
                lemma_key_decompose(k);
                let s = spec_seg(k);
                if s == root_i {
                    Self::lemma_idx_transfer(mid, post, s);
                    assert(post.seg_idx(s) == p);
                    assert(post.leaf_for(s) == post.entry_leaf(p as int));
                    assert(mid.leaf_for(s) == mid.entry_leaf(p as int));
                    if spec_word(k) == bitmap_i {
                        lemma_and_not_mask(prev_word, bit, spec_bit(k));
                    } else {
                        assert(post.leaf_for(s).words()[spec_word(k)] == mid.leaf_for(
                            s,
                        ).words()[spec_word(k)]);
                    }
                } else {
                    if mid.has_seg(s) {
                        Self::lemma_idx_transfer(mid, post, s);
                        assert(mid.seg_idx(s) != p);
                        assert(post.leaf_for(s) == mid.leaf_for(s));
                    } else {
                        assert(!post.has_seg(s)) by {
                            if post.has_seg(s) {
                                Self::lemma_idx_transfer(post, mid, s);
                            }
                        }
                    }
                }
            }
            assert forall|s: usize| post.seg_set().contains(s) == mid.seg_set().contains(
                s,
            ) by {
                if mid.has_seg(s as int) {
                    Self::lemma_idx_transfer(mid, post, s as int);
                } else if post.has_seg(s as int) {
                    Self::lemma_idx_transfer(post, mid, s as int);
                }
            }
            assert(post.seg_set() =~= mid.seg_set());
        }
        (prev & mask) != 0
    }
}

/// The registry of extant allocations: a set of `usize` keys, stored as a
/// sparse two-level bitmap. The facade decomposes a key and routes the bit
/// operation to the right leaf.
pub struct AllocMap {
    root: Root,
}

impl View for AllocMap {
    type V = Set<usize>;

    /// The abstract state: the set of keys that are present.
    closed spec fn view(&self) -> Set<usize> {
        self.root.key_set()
    }
}

/// The root segment of key `i`, as a key-space value.
pub open spec fn spec_seg_of(i: usize) -> usize {
    spec_seg(i) as usize
}

impl AllocMap {
    /// The registry's invariant.
    pub closed spec fn wf(self) -> bool {
        self.root.wf()
    }

    /// Number of live directory entries: one per root segment ever set.
    pub closed spec fn spec_num_entries(self) -> int {
        self.root.num()
    }

    /// Capacity of the directory's backing array.
    pub closed spec fn spec_capacity(self) -> int {
        self.root.cap()
    }

    /// The set of root segments with a live directory entry.
    pub closed spec fn segments(self) -> Set<usize> {
        self.root.seg_set()
    }

    /// An empty registry: no key present, no directory entry, no backing
    /// array.
    pub fn new() -> (r: Self)
        ensures
            r.wf(),
            r@ == Set::<usize>::empty(),
            r.segments() == Set::<usize>::empty(),
            r.spec_num_entries() == 0,
            r.spec_capacity() == 0,
    {
        let r = AllocMap { root: Root::new() };
        proof {
            assert(r@ =~= Set::<usize>::empty());
            assert(r.segments() =~= Set::<usize>::empty());
        }
        r
    }

    /// Decompose a key into root segment, word offset and bit offset.
    #[inline]
    fn expand_index(i: usize) -> (r: (usize, usize, u64))
        ensures
            r.0 == spec_seg(i),
            r.1 == spec_word(i),
            r.2 == spec_bit(i),
            r.0 <= MAX_SEG,
            r.1 < WORDS_PER_LEAF,
            r.2 < 64,
    {
        let bit = (i % 64) as u64;
        let bitmap_i = i / 64;
        let root_i = bitmap_i / WORDS_PER_LEAF;
        let bitmap_i = bitmap_i % WORDS_PER_LEAF;
        proof {
            lemma_key_decompose(i);
        }
        (root_i, bitmap_i, bit)
    }

    /// Presence query: whether key `i` is in the registry.
    #[inline]
    pub fn get(&self, i: usize) -> (r: bool)
        requires
            self.wf(),
        ensures
            r == self@.contains(i),
    {
        let (root_i, bitmap_i, bit) = Self::expand_index(i);
        let word = match self.root.get_bitmap(root_i, bitmap_i) {
            Some(w) => *w,
            None => {
                return false;
            },
        };
        proof {
            lemma_mask_test(word, bit);
        }
        (word & (1u64 << bit)) != 0
    }

    /// Mark key `i` present. Idempotent; every other key keeps its state.
    #[inline]
    pub fn set(&mut self, i: usize)
        requires
            old(self).wf(),
        ensures
            final(self).wf(),
            final(self)@ == old(self)@.insert(i),
            final(self).segments() == old(self).segments().insert(spec_seg_of(i)),
            old(self).segments().contains(spec_seg_of(i)) ==> final(self).spec_num_entries()
                == old(self).spec_num_entries() && final(self).spec_capacity() == old(
                self,
            ).spec_capacity(),
            !old(self).segments().contains(spec_seg_of(i)) ==> final(self).spec_num_entries()
                == old(self).spec_num_entries() + 1 && final(self).spec_capacity() == (if old(
                self,
            ).spec_num_entries() < old(self).spec_capacity() {
                old(self).spec_capacity()
            } else if old(self).spec_capacity() == 0 {
                8int
            } else {
                2 * old(self).spec_capacity()
            }),
    {
        let (root_i, bitmap_i, bit) = Self::expand_index(i);
        self.root.set_bit(root_i, bitmap_i, bit);
        proof {
            assert forall|k: usize|
                self.root.contains_key(k) == (old(self).root.contains_key(k) || k == i) by {
                if spec_seg(k) == root_i && spec_word(k) == bitmap_i && spec_bit(k) == bit {
                    lemma_key_injective(k, i);
                }
            }
            assert(self@ =~= old(self)@.insert(i));
        }
    }

    /// Atomically clear key `i` and report whether it was present. Every
    /// other key keeps its state; the directory is unchanged.
    #[inline]
    pub fn test_and_clear(&mut self, i: usize) -> (r: bool)
        requires
            old(self).wf(),
        ensures
            final(self).wf(),
            r == old(self)@.contains(i),
            final(self)@ == old(self)@.remove(i),
            final(self).segments() == old(self).segments(),
            final(self).spec_num_entries() == old(self).spec_num_entries(),
            final(self).spec_capacity() == old(self).spec_capacity(),
    {
        let (root_i, bitmap_i, bit) = Self::expand_index(i);
        let was = self.root.clear_bit(root_i, bitmap_i, bit);
        proof {
            assert(was == old(self).root.contains_key(i));
            assert forall|k: usize|
                self.root.contains_key(k) == (old(self).root.contains_key(k) && k != i) by {
                if spec_seg(k) == root_i && spec_word(k) == bitmap_i && spec_bit(k) == bit {
                    lemma_key_injective(k, i);
                }
            }
            assert(self@ =~= old(self)@.remove(i));
        }
        was
    }

    /// Number of live directory entries.
    pub fn num_entries(&self) -> (n: usize)
        ensures
            n == self.spec_num_entries(),
    {
        self.root.num_leaves
    }

    /// Capacity of the directory's backing array.
    pub fn capacity(&self) -> (c: usize)
        ensures
            c == self.spec_capacity(),
    {
        self.root.leaves.len()
    }
}

/// Initial state: before any `set`, no key is present, so `get` reads false
/// everywhere.
pub proof fn lemma_initial_state(k: usize)
    ensures
        !Set::<usize>::empty().contains(k),
{
}

/// Idempotent set: registering a key makes it present, and registering it
/// again changes nothing, so after any number of `set(k)` a `get(k)` reads
/// true.
pub proof fn lemma_set_idempotent(s: Set<usize>, k: usize)
    ensures
        s.insert(k).contains(k),
        s.insert(k).insert(k) == s.insert(k),
{
    assert(s.insert(k).insert(k) =~= s.insert(k));
}

/// Clear semantics: `test_and_clear` on an absent key reports false and
/// leaves the state unchanged; on any key it leaves that key absent, so a
/// following `get` reads false.
pub proof fn lemma_clear_semantics(s: Set<usize>, k: usize)
    ensures
        !s.contains(k) ==> s.remove(k) == s,
        !s.remove(k).contains(k),
{
    if !s.contains(k) {
        assert(s.remove(k) =~= s);
    }
}

/// Independence: setting or clearing one key does not affect what any other
/// key reads.
pub proof fn lemma_independence(s: Set<usize>, k1: usize, k2: usize)
    requires
        k1 != k2,
    ensures
        s.insert(k1).contains(k2) == s.contains(k2),
        s.remove(k1).contains(k2) == s.contains(k2),
{
}

/// A key is cleared at most once: after a `test_and_clear(k)` has reported
/// true, every further `test_and_clear(k)` reports false until a `set(k)`
/// intervenes.
pub proof fn lemma_clear_at_most_once(s: Set<usize>, k: usize)
    ensures
        !s.remove(k).contains(k),
        s.remove(k).remove(k) == s.remove(k),
{
    assert(s.remove(k).remove(k) =~= s.remove(k));
}

/// The directory holds exactly one entry per distinct root segment: after
/// registering keys from `M` distinct segments, it has `M` live entries.
pub proof fn lemma_entries_count_segments(m: AllocMap)
    requires
        m.wf(),
    ensures
        m.segments().finite(),
        m.segments().len() == m.spec_num_entries(),
{
    m.root.lemma_prefix_count(m.root.num());
    assert(m.segments() =~= m.root.prefix_seg_set(m.root.num()));
}

/// No power of two lies strictly between a power of two and its half.
proof fn lemma_pow2_gap(c: int, d: int)
    requires
        is_pow2(c),
        is_pow2(d),
        c < d,
    ensures
        2 * c <= d,
    decreases d,
{
    if c == 1 {
    } else {
        lemma_pow2_gap(c / 2, d / 2);
    }
}

/// Directory growth: while the registry holds at least one entry, the
/// directory capacity is the smallest power of two that is at least eight
/// and at least the number of entries.
pub proof fn lemma_directory_capacity(m: AllocMap)
    requires
        m.wf(),
        m.spec_num_entries() > 0,
    ensures
        is_pow2(m.spec_capacity()),
        m.spec_capacity() >= 8,
        m.spec_capacity() >= m.spec_num_entries(),
        forall|c: int|
            is_pow2(c) && c >= 8 && c >= m.spec_num_entries() ==> c >= m.spec_capacity(),
{
    reveal_with_fuel(is_pow2, 5);
    assert(is_pow2(8));
    let cap = m.spec_capacity();
    assert forall|c: int|
        is_pow2(c) && c >= 8 && c >= m.spec_num_entries() implies c >= cap by {
        if c < cap {
            lemma_pow2_gap(c, cap);
        }
    }
}

} // verus!
