//! The retention mask: one flag per point, `true` where the point is kept.

use vstd::prelude::*;

verus! {

/// The result of a simplification, held in an `ndarray::Array1<bool>` that
/// is aligned with the point sequence.
#[verifier::external_body]
pub struct RetentionMask {
    bits: ndarray::Array1<bool>,
}

/// The flags that a mask holds, in the order of the points.
pub uninterp spec fn mask_bits(mask: RetentionMask) -> Seq<bool>;

/// Number of `true` entries among the first `k` flags.
pub open spec fn count_prefix(bits: Seq<bool>, k: nat) -> nat
    decreases k,
{
    if k == 0 {
        0
    } else {
        count_prefix(bits, (k - 1) as nat) + if bits[k - 1] { 1nat } else { 0nat }
    }
}

/// Number of points that a mask retains.
pub open spec fn retained_count(bits: Seq<bool>) -> nat {
    count_prefix(bits, bits.len())
}

/// The mask of `n` points that keeps the first and the last point only.
pub open spec fn endpoints_only(n: nat) -> Seq<bool> {
    Seq::new(n, |i: int| i == 0 || i == n - 1)
}

impl View for RetentionMask {
    type V = Seq<bool>;

    closed spec fn view(&self) -> Seq<bool> {
        mask_bits(*self)
    }
}

impl RetentionMask {
    /// `ndarray::Array1::from_elem`: an array of `n` copies of `flag`. It
    /// panics when `n` does not fit `isize`.
    #[verifier::external_body]
    fn from_elem(n: usize, flag: bool) -> (mask: RetentionMask)
        requires
            n <= isize::MAX,
        ensures
            mask_bits(mask) == Seq::new(n as nat, |i: int| flag),
    {
        RetentionMask { bits: ndarray::Array1::from_elem(n, flag) }
    }

    /// Assignment through the array's index operator, which panics outside
    /// the array: entry `i` becomes `flag`, the others stay.
    #[verifier::external_body]
    fn put(&mut self, i: usize, flag: bool)
        requires
            i < mask_bits(*old(self)).len(),
        ensures
            mask_bits(*final(self)) == mask_bits(*old(self)).update(i as int, flag),
    {
        self.bits[i] = flag;
    }

    /// `len` of the array: the number of its entries.
    #[verifier::external_body]
    fn size(&self) -> (n: usize)
        ensures
            n == mask_bits(*self).len(),
    {
        self.bits.len()
    }

    /// `to_vec` of the array: its entries in order.
    #[verifier::external_body]
    fn cloned(&self) -> (flags: Vec<bool>)
        ensures
            flags@ == mask_bits(*self),
    {
        self.bits.to_vec()
    }

    /// The mask of `n` points that retains the first and the last point and
    /// no other.
    pub fn endpoints(n: usize) -> (mask: RetentionMask)
        requires
            n <= isize::MAX,
        ensures
            mask@ == endpoints_only(n as nat),
    {
        let mut mask = RetentionMask::from_elem(n, false);
        if n > 0 {
            mask.put(0, true);
            mask.put(n - 1, true);
        }
        assert(mask@ =~= endpoints_only(n as nat));
        mask
    }

    /// Number of points that the mask speaks of.
    pub fn len(&self) -> (n: usize)
        ensures
            n == self@.len(),
    {
        self.size()
    }

    /// Marks point `i` as retained.
    pub fn retain(&mut self, i: usize)
        requires
            i < old(self)@.len(),
        ensures
            final(self)@ == old(self)@.update(i as int, true),
    {
        self.put(i, true);
    }

    /// Number of points that the mask retains.
    pub fn count(&self) -> (kept: usize)
        ensures
            kept == retained_count(self@),
    {
        let flags = self.cloned();
        let mut kept: usize = 0;
        let mut i: usize = 0;
        while i < flags.len()
            invariant
                flags@ == self@,
                i <= flags@.len(),
                kept == count_prefix(flags@, i as nat),
                kept <= i,
            decreases flags@.len() - i,
        {
            if flags[i] {
                kept += 1;
            }
            i += 1;
        }
        kept
    }

    /// The flags as a vector, in the order of the points.
    pub fn to_vec(&self) -> (flags: Vec<bool>)
        ensures
            flags@ == self@,
    {
        self.cloned()
    }
}

} // verus!
