//! An owned buffer of 64-bit words whose first word is placed on an
//! alignment boundary.
//!
//! The buffer keeps a few words of slack in front of its contents and starts
//! the contents at the first boundary inside its storage.

use vstd::prelude::*;
use vstd::arithmetic::div_mod::*;

verus! {

/// Alignment, in bytes, that is enough for 512-bit vector loads.
pub const ALIGN_SIMD: usize = 64;

/// A buffer aligned for vector loads.
pub type AlignedMemory64 = AlignedMemory<ALIGN_SIMD>;

/// A buffer of `len()` words, zero after construction. The first word is
/// placed at the first multiple of `ALIGN` bytes inside the storage, whose
/// address the buffer remembers.
pub struct AlignedMemory<const ALIGN: usize> {
    data: Vec<u64>,
    place: Placement<ALIGN>,
}

/// Where the contents of a buffer lie: the address that the storage
/// reported, the words skipped in front of the contents, and their number.
struct Placement<const ALIGN: usize> {
    base: usize,
    start: usize,
    sz_u64: usize,
}

impl<const ALIGN: usize> Placement<ALIGN> {
    /// The layout is valid, and the contents start at the first boundary
    /// inside the storage.
    #[verifier::type_invariant]
    spec fn inv(&self) -> bool {
        &&& valid_layout(ALIGN, self.sz_u64)
        &&& self.start <= ALIGN / 8
        &&& self.base % 8 == 0 ==> (self.base + 8 * self.start) % (ALIGN as int) == 0
    }
}

/// `Vec::as_ptr`, cast to an integer: the address of the storage of `data`.
/// Nothing is claimed of the address.
#[verifier::external_body]
fn base_address(data: &Vec<u64>) -> (addr: usize) {
    data.as_ptr() as usize
}

/// An alignment is a power of two, and the bytes of the buffer together with
/// the alignment fit the address space.
pub open spec fn valid_layout(align: usize, sz_u64: usize) -> bool {
    &&& align > 0
    &&& align & ((align - 1) as usize) == 0
    &&& sz_u64 * 8 + align <= isize::MAX
}

/// Whether a buffer of `sz_u64` words with this alignment can be made.
pub fn layout_fits(align: usize, sz_u64: usize) -> (ok: bool)
    ensures
        ok == valid_layout(align, sz_u64),
{
    let limit: usize = isize::MAX as usize;
    if align == 0 || align > limit {
        return false;
    }
    if align & (align - 1) != 0 {
        return false;
    }
    sz_u64 <= (limit - align) / 8
}

/// A power of two is a multiple of eight or divides eight.
proof fn lemma_power_of_two_and_eight(align: usize)
    by (bit_vector)
    requires
        align > 0,
        align & ((align - 1) as usize) == 0,
    ensures
        align % 8 == 0 || align == 1 || align == 2 || align == 4,
{
}

/// The number of words to skip from the address `addr` of 64-bit words to
/// the first multiple of `align` bytes at or after it.
pub fn aligned_start(addr: usize, align: usize) -> (start: usize)
    requires
        align > 0,
    ensures
        start <= align / 8,
        addr % align == 0 ==> start == 0,
        (addr % 8 == 0 && align % 8 == 0) ==> (addr + 8 * start) % (align as int) == 0,
{
    let misalign: usize = addr % align;
    let skip: usize = if misalign == 0 {
        0
    } else {
        align - misalign
    };
    proof {
        if addr % 8 == 0 && align % 8 == 0 {
            let a: int = addr as int;
            let m: int = align as int;
            let k: int = a / m;
            let h: int = m / 8;
            lemma_fundamental_div_mod(a, m);
            lemma_fundamental_div_mod(m, 8);
            lemma_fundamental_div_mod(a, 8);
            // the misalignment is a multiple of eight
            assert(misalign as int == 8 * (a / 8 - h * k)) by (nonlinear_arith)
                requires
                    a == m * k + misalign,
                    m == 8 * h,
                    a == 8 * (a / 8),
            ;
            lemma_fundamental_div_mod_converse(misalign as int, 8, a / 8 - h * k, 0);
            assert(skip % 8 == 0);
            assert(8 * (skip / 8) == skip);
            if misalign != 0 {
                assert(a + skip == m * (k + 1)) by (nonlinear_arith)
                    requires
                        a == m * k + misalign,
                        skip == m - misalign,
                ;
                lemma_fundamental_div_mod_converse(a + skip, m, k + 1, 0);
            }
        }
    }
    skip / 8
}

impl<const ALIGN: usize> View for AlignedMemory<ALIGN> {
    type V = Seq<u64>;

    /// The contents of the buffer.
    closed spec fn view(&self) -> Seq<u64> {
        if self.place.start + self.place.sz_u64 <= self.data@.len() {
            self.data@.subrange(self.place.start as int, self.place.start + self.place.sz_u64)
        } else {
            Seq::empty()
        }
    }
}

impl<const ALIGN: usize> AlignedMemory<ALIGN> {
    /// The address that the storage reported when the buffer was made.
    pub closed spec fn base(&self) -> int {
        self.place.base as int
    }

    /// The address of the first word: the address of the storage plus the
    /// words that the buffer skips.
    pub closed spec fn address(&self) -> int {
        self.place.base + 8 * self.place.start
    }

    /// A buffer of `sz_u64` zero words with its placement.
    fn with_len(sz_u64: usize) -> (res: Self)
        requires
            valid_layout(ALIGN, sz_u64),
        ensures
            res.place.sz_u64 == sz_u64,
            res.place.start + sz_u64 <= res.data@.len(),
            forall|i: int| 0 <= i < res.data@.len() ==> res.data@[i] == 0,
            res.place.base % 8 == 0 ==> (res.place.base + 8 * res.place.start) % (ALIGN as int)
                == 0,
    {
        let slack: usize = ALIGN / 8 + 1;
        let data: Vec<u64> = vec![0u64; sz_u64 + slack];
        let base: usize = base_address(&data);
        let start: usize = aligned_start(base, ALIGN);
        proof {
            lemma_power_of_two_and_eight(ALIGN);
            if base % 8 == 0 && ALIGN % 8 != 0 {
                // the alignment divides eight, so the storage is aligned
                lemma_fundamental_div_mod(base as int, 8);
                let k: int = (base as int) / 8;
                let f: int = 8int / (ALIGN as int);
                assert(8int == (ALIGN as int) * f);
                assert(base as int == (ALIGN as int) * (f * k)) by (nonlinear_arith)
                    requires
                        base as int == 8 * k,
                        8int == (ALIGN as int) * f,
                ;
                lemma_fundamental_div_mod_converse(base as int, ALIGN as int, f * k, 0);
            }
        }
        AlignedMemory { data, place: Placement { base, start, sz_u64 } }
    }

    /// A buffer of `sz_u64` zero words. Where the storage starts at a
    /// multiple of eight bytes, as that of 64-bit words does wherever such
    /// words are aligned to eight bytes, the first word lies at a multiple
    /// of `ALIGN` bytes.
    pub fn new(sz_u64: usize) -> (res: Self)
        requires
            valid_layout(ALIGN, sz_u64),
        ensures
            res@.len() == sz_u64,
            forall|i: int| 0 <= i < sz_u64 ==> res@[i] == 0,
            res.base() % 8 == 0 ==> res.address() % (ALIGN as int) == 0,
    {
        Self::with_len(sz_u64)
    }

    /// A buffer that holds the given words, placed as `new` places them.
    pub fn from_words(words: &Vec<u64>) -> (res: Self)
        requires
            valid_layout(ALIGN, words@.len() as usize),
        ensures
            res@ == words@,
            res.base() % 8 == 0 ==> res.address() % (ALIGN as int) == 0,
    {
        Self::from_slice(words.as_slice())
    }

    /// A buffer that holds the given words, placed as `new` places them.
    pub fn from_slice(words: &[u64]) -> (res: Self)
        requires
            valid_layout(ALIGN, words@.len() as usize),
        ensures
            res@ == words@,
            res.base() % 8 == 0 ==> res.address() % (ALIGN as int) == 0,
    {
        let count: usize = words.len();
        let mut out: AlignedMemory<ALIGN> = AlignedMemory::with_len(count);
        let total: usize = out.data.len();
        proof {
            use_type_invariant(&out.place);
        }
        let mut i: usize = 0;
        while i < count
            invariant
                count == words@.len(),
                count == out.place.sz_u64,
                total == out.data@.len(),
                out.place.start + count <= total,
                valid_layout(ALIGN, out.place.sz_u64),
                out.place.start <= ALIGN / 8,
                out.place.base % 8 == 0 ==> (out.place.base + 8 * out.place.start) % (ALIGN as int) == 0,
                i <= count,
                forall|k: int| 0 <= k < i ==> out@[k] == words@[k],
            decreases count - i,
        {
            let word: u64 = words[i];
            out.data[out.place.start + i] = word;
            i += 1;
        }
        assert(out@ =~= words@);
        out
    }

    /// Number of words.
    pub fn len(&self) -> (res: usize)
        ensures
            res == self@.len(),
    {
        proof {
            use_type_invariant(&self.place);
        }
        if self.place.start + self.place.sz_u64 <= self.data.len() {
            self.place.sz_u64
        } else {
            0
        }
    }

    /// The contents as a slice.
    pub fn as_slice(&self) -> (res: &[u64])
        ensures
            res@ == self@,
    {
        proof {
            use_type_invariant(&self.place);
        }
        if self.place.start + self.place.sz_u64 <= self.data.len() {
            &self.data[self.place.start..self.place.start + self.place.sz_u64]
        } else {
            assert(self@ =~= self.data@.subrange(0, 0));
            &self.data[0..0]
        }
    }

    /// The contents as a slice, for writing. The buffer holds afterwards
    /// what the slice holds when the borrow ends.
    pub fn as_mut_slice(&mut self) -> (res: &mut [u64])
        ensures
            res@ == old(self)@,
            final(res)@.len() == res@.len() ==> final(self)@ == final(res)@,
            final(self).base() == old(self).base(),
            final(self).address() == old(self).address(),
    {
        proof {
            use_type_invariant(&self.place);
        }
        let total: usize = self.data.len();
        let start: usize = self.place.start;
        let count: usize = self.place.sz_u64;
        let whole: &mut [u64] = self.data.as_mut_slice();
        if start + count <= total {
            let (head, rest) = whole.split_at_mut(start);
            let (mid, tail) = rest.split_at_mut(count);
            mid
        } else {
            let (head, rest) = whole.split_at_mut(0);
            head
        }
    }

    /// The word at `index`.
    pub fn index(&self, index: usize) -> (res: &u64)
        requires
            index < self@.len(),
        ensures
            *res == self@[index as int],
    {
        proof {
            use_type_invariant(&self.place);
        }
        let total: usize = self.data.len();
        &self.data[self.place.start + index]
    }

    /// The word at `index`, for writing.
    pub fn index_mut(&mut self, index: usize) -> (res: &mut u64)
        requires
            index < old(self)@.len(),
        ensures
            *res == old(self)@[index as int],
            final(self)@ == old(self)@.update(index as int, *final(res)),
            final(self).base() == old(self).base(),
            final(self).address() == old(self).address(),
    {
        proof {
            use_type_invariant(&self.place);
        }
        let total: usize = self.data.len();
        &mut self.data[self.place.start + index]
    }
}

impl<const ALIGN: usize> Clone for AlignedMemory<ALIGN> {
    /// A new buffer with the same contents, placed as `new` places them.
    fn clone(&self) -> (res: Self)
        ensures
            res@ == self@,
            res.base() % 8 == 0 ==> res.address() % (ALIGN as int) == 0,
    {
        proof {
            use_type_invariant(&self.place);
        }
        AlignedMemory::from_slice(self.as_slice())
    }
}

} // verus!
