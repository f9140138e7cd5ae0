use vstd::prelude::*;

verus! {

/// Append-only log of measurement bits, addressed by negative offsets.
#[derive(Debug, Clone)]
pub struct Recorder {
    bits: Vec<bool>,
}

impl View for Recorder {
    type V = Seq<bool>;

    closed spec fn view(&self) -> Seq<bool> {
        self.bits@
    }
}

/// The bit a negative offset names: `-1` is the most recent bit, `-k` the
/// k-th most recent; non-negative offsets and offsets past the start name
/// nothing.
pub open spec fn rec_spec(bits: Seq<bool>, offset: int) -> Option<bool> {
    if offset >= 0 {
        None
    } else if bits.len() + offset < 0 {
        None
    } else {
        Some(bits[bits.len() + offset])
    }
}

impl Recorder {
    pub fn new() -> (r: Recorder)
        ensures
            r@ == Seq::<bool>::empty(),
    {
        Recorder { bits: Vec::new() }
    }

    pub fn push(&mut self, bit: bool)
        ensures
            final(self)@ == old(self)@.push(bit),
    {
        self.bits.push(bit);
    }

    pub fn len(&self) -> (r: usize)
        ensures
            r == self@.len(),
    {
        self.bits.len()
    }

    /// If `r` bits have been pushed, `rec(-k)` returns the `(r - k)`-th
    /// pushed bit for `1 <= k <= r`, and `None` otherwise.
    pub fn rec(&self, offset: i32) -> (r: Option<bool>)
        ensures
            r == rec_spec(self@, offset as int),
    {
        if offset >= 0 {
            return None;
        }
        let len = self.bits.len();
        let back = (-(offset as i64)) as usize;
        if back > len {
            return None;
        }
        Some(self.bits[len - back])
    }

    /// The `i`-th pushed bit.
    pub fn get(&self, i: usize) -> (b: bool)
        requires
            i < self@.len(),
        ensures
            b == self@[i as int],
    {
        self.bits[i]
    }

    /// Appends another recorder's bits, in order.
    pub fn extend(&mut self, other: &Recorder)
        ensures
            final(self)@ == old(self)@ + other@,
    {
        let mut i: usize = 0;
        while i < other.bits.len()
            invariant
                i <= other.bits.len(),
                self.bits@ == old(self)@ + other.bits@.subrange(0, i as int),
            decreases other.bits.len() - i,
        {
            self.bits.push(other.bits[i]);
            i = i + 1;
        }
        proof {
            assert(other.bits@.subrange(0, other.bits@.len() as int) == other.bits@);
        }
    }
}

impl Default for Recorder {
    fn default() -> (r: Recorder)
        ensures
            r@ == Seq::<bool>::empty(),
    {
        Recorder::new()
    }
}

} // verus!
