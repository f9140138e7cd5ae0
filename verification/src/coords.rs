use vstd::prelude::*;
use crate::decimal::{Decimal, aligned_sum, pow10, MANT_LIMIT};

verus! {

/// The zero decimal, what a too-short coordinate vector is padded with.
pub open spec fn dec_zero() -> Decimal {
    Decimal { mant: 0, scale: 0 }
}

/// Component `i` of `s` read as if `s` were padded with zeros to any length.
pub open spec fn padded(s: Seq<Decimal>, i: int) -> Decimal {
    if 0 <= i < s.len() {
        s[i]
    } else {
        dec_zero()
    }
}

/// The coordinate vector most recently stored for a qubit, if any.
pub open spec fn lookup_qc(s: Seq<(u32, Vec<Decimal>)>, q: u32) -> Option<Seq<Decimal>>
    decreases s.len(),
{
    if s.len() == 0 {
        None
    } else if s.last().0 == q {
        Some(s.last().1@)
    } else {
        lookup_qc(s.drop_last(), q)
    }
}

/// No qubit appears twice in the stored coordinate table.
pub open spec fn unique_keys(s: Seq<(u32, Vec<Decimal>)>) -> bool {
    forall|i: int, j: int| 0 <= i < j < s.len() ==> (#[trigger] s[i]).0 != (#[trigger] s[j]).0
}

pub open spec fn all_inv(s: Seq<Decimal>) -> bool {
    forall|i: int| 0 <= i < s.len() ==> (#[trigger] s[i]).inv()
}

/// The exact decimal sum of two components, at the coarser scale.
pub open spec fn dec_add(a: Decimal, b: Decimal) -> Decimal {
    Decimal {
        mant: aligned_sum(a, b) as i128,
        scale: if a.scale >= b.scale {
            a.scale
        } else {
            b.scale
        },
    }
}

/// `a` extended to `b`'s length (zero padding, either way) with `b` added
/// component-wise.
pub open spec fn add_offset_spec(a: Seq<Decimal>, b: Seq<Decimal>) -> Seq<Decimal> {
    Seq::new(
        if a.len() >= b.len() {
            a.len()
        } else {
            b.len()
        },
        |i: int| dec_add(padded(a, i), padded(b, i)),
    )
}

/// Some component of the padded sum of the two vectors overflows the
/// mantissa range.
pub open spec fn offset_overflows(a: Seq<Decimal>, b: Seq<Decimal>) -> bool {
    exists|i: int|
        0 <= i < (if a.len() >= b.len() {
            a.len()
        } else {
            b.len()
        }) && !(-MANT_LIMIT <= aligned_sum(padded(a, i), #[trigger] padded(b, i)) <= MANT_LIMIT)
}

/// Per-qubit coordinate metadata and the running offset that SHIFT_COORDS
/// accumulates; TICK counts on the side.
#[derive(Debug)]
pub struct CoordState {
    pub offset: Vec<Decimal>,
    pub qubit_coords: Vec<(u32, Vec<Decimal>)>,
    pub tick: i64,
}

impl CoordState {
    pub open spec fn inv(&self) -> bool {
        &&& all_inv(self.offset@)
        &&& unique_keys(self.qubit_coords@)
        &&& forall|i: int|
            0 <= i < self.qubit_coords@.len() ==> all_inv(
                (#[trigger] self.qubit_coords@[i]).1@,
            )
    }

    pub fn new() -> (r: CoordState)
        ensures
            r.inv(),
            r.offset@ == Seq::<Decimal>::empty(),
            r.qubit_coords@ == Seq::<(u32, Vec<Decimal>)>::empty(),
            r.tick == 0,
    {
        CoordState { offset: Vec::new(), qubit_coords: Vec::new(), tick: 0 }
    }

    /// Extends the offset to the delta's length (zero padding) and adds the
    /// delta component-wise; on mantissa overflow nothing changes.
    pub fn shift(&mut self, delta: &Vec<Decimal>) -> (r: Result<(), ()>)
        requires
            old(self).inv(),
            all_inv(delta@),
        ensures
            final(self).inv(),
            final(self).qubit_coords == old(self).qubit_coords,
            final(self).tick == old(self).tick,
            match r {
                Ok(()) => {
                    &&& final(self).offset@.len() == if old(self).offset@.len() >= delta@.len() {
                        old(self).offset@.len()
                    } else {
                        delta@.len()
                    }
                    &&& forall|i: int|
                        0 <= i < final(self).offset@.len() ==> (
                        #[trigger] final(self).offset@[i]).val() == padded(old(self).offset@, i).val()
                            + padded(delta@, i).val()
                    &&& final(self).offset@ == add_offset_spec(old(self).offset@, delta@)
                    &&& !offset_overflows(old(self).offset@, delta@)
                },
                Err(()) => final(self).offset == old(self).offset && offset_overflows(
                    old(self).offset@,
                    delta@,
                ),
            },
    {
        let n = if self.offset.len() >= delta.len() {
            self.offset.len()
        } else {
            delta.len()
        };
        let mut out: Vec<Decimal> = Vec::new();
        let mut i: usize = 0;
        while i < n
            invariant
                i <= n,
                n == if self.offset@.len() >= delta@.len() {
                    self.offset@.len()
                } else {
                    delta@.len()
                },
                self == old(self),
                old(self).inv(),
                all_inv(delta@),
                out@.len() == i,
                all_inv(out@),
                forall|j: int|
                    0 <= j < i ==> (#[trigger] out@[j]).val() == padded(self.offset@, j).val()
                        + padded(delta@, j).val(),
                forall|j: int| 0 <= j < i ==> (#[trigger] out@[j]) == dec_add(
                    padded(self.offset@, j),
                    padded(delta@, j),
                ),
                forall|j: int|
                    0 <= j < i ==> -MANT_LIMIT <= aligned_sum(
                        padded(self.offset@, j),
                        #[trigger] padded(delta@, j),
                    ) <= MANT_LIMIT,
            decreases n - i,
        {
            let a = if i < self.offset.len() {
                self.offset[i]
            } else {
                Decimal::zero()
            };
            let b = if i < delta.len() {
                delta[i]
            } else {
                Decimal::zero()
            };
            match a.checked_add(&b) {
                Some(c) => out.push(c),
                None => {
                    proof {
                        // Adding the zero padding cannot overflow, so the
                        // delta component at `i` must be a real one.
                        if i >= delta@.len() {
                            assert(b.mant == 0 && b.scale == 0);
                            assert(pow10(0) == 1);
                            assert(aligned_sum(a, b) == a.mant * pow10(0) + b.mant * pow10(
                                a.scale as nat,
                            ));
                            assert(b.mant * pow10(a.scale as nat) == 0);
                            assert(a.mant * pow10(0) == a.mant) by (nonlinear_arith)
                                requires
                                    pow10(0) == 1,
                            ;
                            assert(aligned_sum(a, b) == a.mant);
                        }
                        assert(i < delta@.len());
                        assert(a == padded(old(self).offset@, i as int));
                        assert(b == padded(delta@, i as int));
                        assert(offset_overflows(old(self).offset@, delta@));
                    }
                    return Err(());
                },
            }
            i = i + 1;
        }
        proof {
            assert forall|j: int|
                0 <= j < (if old(self).offset@.len() >= delta@.len() {
                    old(self).offset@.len()
                } else {
                    delta@.len()
                }) implies -MANT_LIMIT <= aligned_sum(
                padded(old(self).offset@, j),
                #[trigger] padded(delta@, j),
            ) <= MANT_LIMIT by {}
            assert(out@ =~= add_offset_spec(old(self).offset@, delta@));
        }
        self.offset = out;
        Ok(())
    }

    /// The argument extended to the offset's length (zero padding) with the
    /// offset added component-wise; `Err` exactly when some component's
    /// aligned sum overflows the mantissa range.
    pub fn apply_offset(&self, coords: &Vec<Decimal>) -> (r: Result<Vec<Decimal>, ()>)
        requires
            self.inv(),
            all_inv(coords@),
        ensures
            match r {
                Ok(out) => {
                    &&& out@ == add_offset_spec(coords@, self.offset@)
                    &&& all_inv(out@)
                    &&& forall|i: int|
                        0 <= i < out@.len() ==> (#[trigger] out@[i]).val() == padded(
                            coords@,
                            i,
                        ).val() + padded(self.offset@, i).val()
                    &&& !offset_overflows(coords@, self.offset@)
                },
                Err(()) => offset_overflows(coords@, self.offset@),
            },
    {
        let n = if coords.len() >= self.offset.len() {
            coords.len()
        } else {
            self.offset.len()
        };
        let mut out: Vec<Decimal> = Vec::new();
        let mut i: usize = 0;
        while i < n
            invariant
                i <= n,
                n == if coords@.len() >= self.offset@.len() {
                    coords@.len()
                } else {
                    self.offset@.len()
                },
                all_inv(self.offset@),
                all_inv(coords@),
                out@.len() == i,
                all_inv(out@),
                forall|j: int|
                    0 <= j < i ==> (#[trigger] out@[j]).val() == padded(coords@, j).val() + padded(
                        self.offset@,
                        j,
                    ).val(),
                forall|j: int| 0 <= j < i ==> (#[trigger] out@[j]) == dec_add(
                    padded(coords@, j),
                    padded(self.offset@, j),
                ),
                forall|j: int|
                    0 <= j < i ==> -MANT_LIMIT <= aligned_sum(
                        padded(coords@, j),
                        #[trigger] padded(self.offset@, j),
                    ) <= MANT_LIMIT,
            decreases n - i,
        {
            let a = if i < coords.len() {
                coords[i]
            } else {
                Decimal::zero()
            };
            let b = if i < self.offset.len() {
                self.offset[i]
            } else {
                Decimal::zero()
            };
            proof {
                assert(a == padded(coords@, i as int));
                assert(b == padded(self.offset@, i as int));
            }
            match a.checked_add(&b) {
                Some(c) => out.push(c),
                None => {
                    return Err(());
                },
            }
            i = i + 1;
        }
        proof {
            assert forall|j: int|
                0 <= j < (if coords@.len() >= self.offset@.len() {
                    coords@.len()
                } else {
                    self.offset@.len()
                }) implies -MANT_LIMIT <= aligned_sum(
                padded(coords@, j),
                #[trigger] padded(self.offset@, j),
            ) <= MANT_LIMIT by {}
            assert(out@ =~= add_offset_spec(coords@, self.offset@));
        }
        Ok(out)
    }

    /// Stores (or replaces) the coordinate vector of one qubit.
    pub fn set_qubit_coords(&mut self, q: u32, v: Vec<Decimal>)
        requires
            old(self).inv(),
            all_inv(v@),
        ensures
            final(self).inv(),
            final(self).offset == old(self).offset,
            final(self).tick == old(self).tick,
            lookup_qc(final(self).qubit_coords@, q) == Some(v@),
            forall|k: u32|
                k != q ==> #[trigger] lookup_qc(final(self).qubit_coords@, k) == lookup_qc(
                    old(self).qubit_coords@,
                    k,
                ),
    {
        let len = self.qubit_coords.len();
        let mut idx: usize = len;
        let mut i: usize = 0;
        while i < len
            invariant
                i <= len,
                len == self.qubit_coords@.len(),
                idx == len || (idx < i && self.qubit_coords@[idx as int].0 == q),
                idx == len ==> forall|j: int|
                    0 <= j < i ==> (#[trigger] self.qubit_coords@[j]).0 != q,
            decreases len - i,
        {
            if idx == len && self.qubit_coords[i].0 == q {
                idx = i;
            }
            i = i + 1;
        }
        let ghost olds = self.qubit_coords@;
        if idx < len {
            self.qubit_coords[idx] = (q, v);
            proof {
                assert(self.qubit_coords@ == olds.update(idx as int, (q, v)));
                assert(forall|j: int|
                    0 <= j < olds.len() && j != idx ==> (#[trigger] olds[j]).0 != q);
                lemma_lookup_update(olds, idx as int, q, v);
                assert(lookup_qc(self.qubit_coords@, q) == Some(v@));
                assert(unique_keys(self.qubit_coords@));
            }
        } else {
            self.qubit_coords.push((q, v));
            proof {
                assert(self.qubit_coords@.drop_last() == olds);
                assert forall|k: u32| k != q implies #[trigger] lookup_qc(
                    self.qubit_coords@,
                    k,
                ) == lookup_qc(olds, k) by {}
                assert(unique_keys(self.qubit_coords@));
            }
        }
    }

    /// The stored coordinates of a qubit, if QUBIT_COORDS has named it.
    pub fn qubit_coord(&self, q: u32) -> (r: Option<&Vec<Decimal>>)
        requires
            unique_keys(self.qubit_coords@),
        ensures
            match r {
                Some(v) => lookup_qc(self.qubit_coords@, q) == Some((*v)@),
                None => lookup_qc(self.qubit_coords@, q) is None,
            },
    {
        let len = self.qubit_coords.len();
        let mut i: usize = 0;
        while i < len
            invariant
                i <= len,
                len == self.qubit_coords@.len(),
                unique_keys(self.qubit_coords@),
                forall|j: int| 0 <= j < i ==> (#[trigger] self.qubit_coords@[j]).0 != q,
            decreases len - i,
        {
            if self.qubit_coords[i].0 == q {
                proof {
                    lemma_lookup_present_pub(self.qubit_coords@, i as int, q);
                }
                return Some(&self.qubit_coords[i].1);
            }
            i = i + 1;
        }
        proof {
            lemma_lookup_absent_pub(self.qubit_coords@, q);
        }
        None
    }

    /// Counts a TICK; saturates at the top of its range.
    pub fn tick_incr(&mut self)
        ensures
            final(self).offset == old(self).offset,
            final(self).qubit_coords == old(self).qubit_coords,
            final(self).tick == if old(self).tick < 0x7fff_ffff_ffff_ffffi64 {
                old(self).tick + 1
            } else {
                old(self).tick as int
            },
    {
        if self.tick < 0x7fff_ffff_ffff_ffffi64 {
            self.tick = self.tick + 1;
        }
    }
}

proof fn lemma_lookup_update(s: Seq<(u32, Vec<Decimal>)>, i: int, q: u32, v: Vec<Decimal>)
    requires
        0 <= i < s.len(),
        s[i].0 == q,
        forall|j: int| 0 <= j < s.len() && j != i ==> (#[trigger] s[j]).0 != q,
    ensures
        lookup_qc(s.update(i, (q, v)), q) == Some(v@),
        forall|k: u32| k != q ==> #[trigger] lookup_qc(s.update(i, (q, v)), k) == lookup_qc(s, k),
    decreases s.len(),
{
    let t = s.update(i, (q, v));
    if i == s.len() - 1 {
        assert(t.last() == (q, v));
        assert(t.drop_last() == s.drop_last());
        assert forall|k: u32| k != q implies #[trigger] lookup_qc(t, k) == lookup_qc(s, k) by {
            assert(s.last().0 == q);
        }
    } else {
        assert(t.last() == s.last());
        assert(t.drop_last() == s.drop_last().update(i, (q, v)));
        lemma_lookup_update(s.drop_last(), i, q, v);
        assert(s.last().0 != q);
        assert forall|k: u32| k != q implies #[trigger] lookup_qc(t, k) == lookup_qc(s, k) by {
            assert(lookup_qc(t.drop_last(), k) == lookup_qc(s.drop_last(), k));
        }
    }
}

pub proof fn lemma_lookup_present_pub(s: Seq<(u32, Vec<Decimal>)>, i: int, q: u32)
    requires
        0 <= i < s.len(),
        s[i].0 == q,
        unique_keys(s),
    ensures
        lookup_qc(s, q) == Some(s[i].1@),
    decreases s.len(),
{
    if i == s.len() - 1 {
    } else {
        assert(s.last().0 != q);
        lemma_lookup_present_pub(s.drop_last(), i, q);
    }
}

pub proof fn lemma_lookup_absent_pub(s: Seq<(u32, Vec<Decimal>)>, q: u32)
    requires
        forall|j: int| 0 <= j < s.len() ==> (#[trigger] s[j]).0 != q,
    ensures
        lookup_qc(s, q) is None,
    decreases s.len(),
{
    if s.len() > 0 {
        lemma_lookup_absent_pub(s.drop_last(), q);
    }
}

} // verus!
