//! The allocation records kept beside each user pointer: mangled out-of-band
//! metadata (margin and user size), a mangled canary word, and the layout
//! arithmetic that places them.
//!
//! Addresses, sizes and metadata words are modelled as 64-bit values; the
//! margin laid out before a user region always has room for the two metadata
//! words and the canary.

use vstd::prelude::*;

verus! {

/// Smallest margin between the outer allocation and the user pointer:
/// sixteen 64-bit words.
pub const MIN_MARGIN: u64 = 128;

/// Smallest alignment of a user pointer: one 64-bit word.
pub const MIN_ALIGN: u64 = 8;

/// Mangling key for the margin metadata word.
pub const KEY_MARGIN: u64 = 0x123456789abcdef;

/// Mangling key for the canary word.
pub const KEY_CANARY: u64 = 0x23435243643547a;

/// Mangling key for the user-size metadata word.
pub const KEY_SIZE: u64 = 0x1ae9deaf526c83d;

/// Largest size `Layout` accepts: `isize::MAX` on the 64-bit platforms this
/// shim models.
pub const MAX_LAYOUT_SIZE: u64 = 0x7fff_ffff_ffff_ffff;

/// `x` rotated left by thirteen bits, then xor-ed with `key`.
pub open spec fn spec_mangle(x: u64, key: u64) -> u64 {
    ((x << 13) | (x >> 51)) ^ key
}

/// Inverse of [`spec_mangle`]: xor with `key`, then rotate right by
/// thirteen bits.
pub open spec fn spec_demangle(x: u64, key: u64) -> u64 {
    ((x ^ key) >> 13) | ((x ^ key) << 51)
}

/// Obfuscate a metadata word so that a heap overrun cannot forge it.
#[inline]
pub fn mangle(x: u64, key: u64) -> (r: u64)
    ensures
        r == spec_mangle(x, key),
{
    ((x << 13) | (x >> 51)) ^ key
}

/// Recover a metadata word written by [`mangle`].
#[inline]
pub fn demangle(x: u64, key: u64) -> (r: u64)
    ensures
        r == spec_demangle(x, key),
{
    ((x ^ key) >> 13) | ((x ^ key) << 51)
}

/// Mangling round trip: demangling a mangled word with the same key gives
/// the word back, so intact metadata always decodes to what was written.
pub proof fn lemma_mangle_round_trip(x: u64, key: u64)
    ensures
        spec_demangle(spec_mangle(x, key), key) == x,
{
    assert(((((((x << 13) | (x >> 51)) ^ key) ^ key) >> 13) | ((((x << 13) | (x >> 51)) ^ key
        ^ key) << 51)) == x) by (bit_vector);
}

/// Whether `a` is a power of two, by the carry trick.
pub open spec fn align_ok(a: u64) -> bool {
    a != 0 && a & ((a - 1) as u64) == 0
}

/// Whether `m` is a valid margin: a power of two of at least `MIN_MARGIN`.
pub open spec fn margin_ok(m: u64) -> bool {
    m >= MIN_MARGIN && align_ok(m)
}

/// Whether `(size, align)` is representable as a `Layout`: the size, padded
/// up to the alignment, stays within `MAX_LAYOUT_SIZE`.
pub open spec fn layout_ok(size: u64, align: u64) -> bool {
    align_ok(align) && size + align - 1 <= MAX_LAYOUT_SIZE
}

/// The margin placed before a user region of alignment `align`.
pub open spec fn spec_margin_for(align: u64) -> u64 {
    if align > MIN_MARGIN {
        align
    } else {
        MIN_MARGIN
    }
}

/// The alignment of the outer allocation for a user alignment `align`.
pub open spec fn spec_outer_align(align: u64) -> u64 {
    if align > MIN_ALIGN {
        align
    } else {
        MIN_ALIGN
    }
}

/// Compute the outer allocation layout and the margin for a user layout:
/// the user region is padded by one margin on each side. `None` when the
/// padded size cannot be represented as a layout.
pub fn outer_layout_and_margin(size: u64, align: u64) -> (r: Option<(u64, u64, u64)>)
    requires
        align_ok(align),
    ensures
        match r {
            Some(v) => v.2 == spec_margin_for(align) && v.1 == spec_outer_align(align) && v.0
                == size + 2 * v.2 && margin_ok(v.2) && layout_ok(v.0, v.1),
            None => size + 2 * spec_margin_for(align) + spec_outer_align(align) - 1
                > MAX_LAYOUT_SIZE,
        },
{
    let margin: u64 = if align > MIN_MARGIN {
        align
    } else {
        MIN_MARGIN
    };
    let oalign: u64 = if align > MIN_ALIGN {
        align
    } else {
        MIN_ALIGN
    };
    proof {
        assert(128u64 & 127u64 == 0u64) by (bit_vector);
        assert(8u64 & 7u64 == 0u64) by (bit_vector);
    }
    if margin > MAX_LAYOUT_SIZE / 2 {
        return None;
    }
    let room = MAX_LAYOUT_SIZE - 2 * margin;
    if oalign - 1 > room {
        return None;
    }
    if size <= room - (oalign - 1) {
        Some((size + 2 * margin, oalign, margin))
    } else {
        None
    }
}

/// Reallocation keeps the margin: computing the outer layout for a new size
/// with the old margin as the alignment yields the same margin again.
pub proof fn lemma_realloc_margin_stable(margin: u64)
    requires
        margin_ok(margin),
    ensures
        spec_margin_for(margin) == margin,
{
}

/// One live allocation: where the outer allocation starts, how far inside
/// it the user pointer lies, and the size the user asked for.
#[derive(Debug, Clone, Copy, PartialEq, Eq, Structural)]
pub struct AllocInfo {
    /// Distance from the start of the outer allocation to the user pointer.
    pub margin: u64,
    /// Size the user requested.
    pub user_size: u64,
    /// Address of the outer allocation.
    pub outer_addr: u64,
}

impl AllocInfo {
    /// A record is well formed when its margin is valid and the user
    /// pointer it implies exists.
    pub open spec fn wf(self) -> bool {
        margin_ok(self.margin) && self.outer_addr > 0 && self.outer_addr + self.margin
            <= u64::MAX
    }

    /// The user pointer: `margin` bytes inside the outer allocation.
    pub open spec fn spec_user_ptr(self) -> u64 {
        (self.outer_addr + self.margin) as u64
    }

    /// The user pointer: `margin` bytes inside the outer allocation.
    #[inline]
    pub fn user_ptr(&self) -> (r: u64)
        requires
            self.wf(),
        ensures
            r == self.spec_user_ptr(),
    {
        self.outer_addr + self.margin
    }

    /// The three words [`mark`]ing an allocation writes beside the user
    /// pointer: the mangled margin, the mangled user size, and the mangled
    /// canary.
    ///
    /// [`mark`]: AllocInfo#method.encode_meta
    pub fn encode_meta(&self) -> (r: (u64, u64, u64))
        requires
            self.wf(),
        ensures
            r.0 == spec_mangle(self.margin, self.spec_user_ptr() ^ KEY_MARGIN),
            r.1 == spec_mangle(self.user_size, self.spec_user_ptr() ^ KEY_SIZE),
            r.2 == spec_mangle(self.spec_user_ptr(), KEY_CANARY),
    {
        let up = self.outer_addr + self.margin;
        (mangle(self.margin, up ^ KEY_MARGIN), mangle(self.user_size, up ^ KEY_SIZE), mangle(
            up,
            KEY_CANARY,
        ))
    }

    /// Decode and validate the two metadata words found beside a user
    /// pointer. Succeeds exactly when the demangled margin is a valid one
    /// that places the outer allocation at a nonzero address below the user
    /// pointer; the record then reproduces the user pointer.
    pub fn from_raw_meta(user_ptr: u64, margin_word: u64, size_word: u64) -> (r: Result<
        AllocInfo,
        &'static str,
    >)
        ensures
            ({
                let margin = spec_demangle(margin_word, user_ptr ^ KEY_MARGIN);
                let user_size = spec_demangle(size_word, user_ptr ^ KEY_SIZE);
                match r {
                    Ok(info) => margin_ok(margin) && margin < user_ptr && info == (AllocInfo {
                        margin,
                        user_size,
                        outer_addr: (user_ptr - margin) as u64,
                    }) && info.wf() && info.spec_user_ptr() == user_ptr,
                    Err(m) => (!margin_ok(margin) && m == "metadata corrupted") || (margin_ok(
                        margin,
                    ) && margin >= user_ptr && m == "null"),
                }
            }),
    {
        let margin = demangle(margin_word, user_ptr ^ KEY_MARGIN);
        if !(margin >= MIN_MARGIN && (margin & (margin - 1)) == 0) {
            return Err("metadata corrupted");
        }
        if margin >= user_ptr {
            return Err("null");
        }
        let user_size = demangle(size_word, user_ptr ^ KEY_SIZE);
        Ok(AllocInfo { margin, user_size, outer_addr: user_ptr - margin })
    }

    /// Whether the canary word beside a user pointer still demangles to the
    /// pointer itself; a mismatch means something overran the allocation
    /// that precedes it.
    pub fn canary_ok(user_ptr: u64, canary_word: u64) -> (r: bool)
        ensures
            r == (spec_demangle(canary_word, KEY_CANARY) == user_ptr),
    {
        demangle(canary_word, KEY_CANARY) == user_ptr
    }
}

/// Metadata round trip: the words [`AllocInfo::encode_meta`] produces
/// demangle back to the record's own margin, user size and user pointer, so
/// decoding them reconstructs the record and its canary passes.
pub proof fn lemma_meta_round_trip(info: AllocInfo)
    requires
        info.wf(),
    ensures
        spec_demangle(
            spec_mangle(info.margin, info.spec_user_ptr() ^ KEY_MARGIN),
            info.spec_user_ptr() ^ KEY_MARGIN,
        ) == info.margin,
        spec_demangle(
            spec_mangle(info.user_size, info.spec_user_ptr() ^ KEY_SIZE),
            info.spec_user_ptr() ^ KEY_SIZE,
        ) == info.user_size,
        spec_demangle(spec_mangle(info.spec_user_ptr(), KEY_CANARY), KEY_CANARY)
            == info.spec_user_ptr(),
{
    lemma_mangle_round_trip(info.margin, info.spec_user_ptr() ^ KEY_MARGIN);
    lemma_mangle_round_trip(info.user_size, info.spec_user_ptr() ^ KEY_SIZE);
    lemma_mangle_round_trip(info.spec_user_ptr(), KEY_CANARY);
}

/// The hardening wrapper around a backing allocator. The wrapper pads every
/// allocation with margins, marks it in the registry and checks the mark on
/// the way back; the backing allocator only sees the outer layouts.
pub struct FatAlloc<T> {
    alloc: T,
}

impl<T> FatAlloc<T> {
    /// The wrapped backing allocator.
    pub closed spec fn backing(self) -> T {
        self.alloc
    }

    /// Wrap a backing allocator.
    pub fn new(alloc: T) -> (r: Self)
        ensures
            r.backing() == alloc,
    {
        FatAlloc { alloc }
    }

    /// The wrapped backing allocator.
    pub fn inner(&self) -> (r: &T)
        ensures
            *r == self.backing(),
    {
        &self.alloc
    }

    /// Unwrap the backing allocator.
    pub fn into_inner(self) -> (r: T)
        ensures
            r == self.backing(),
    {
        self.alloc
    }
}

} // verus!
