use vstd::prelude::*;
use crate::coords::{lookup_qc, padded, all_inv, CoordState};
use crate::decimal::{threshold_spec, trunc_u32_spec, Decimal, TWO_POW_53};
use crate::ir::{StimInstr, StimTarget};
use crate::recorder::{rec_spec, Recorder};
use crate::rng::{rand_below, rand_u53};
use crate::sim::tableau::{
    cx_spec, cz_spec, det_outcome, h_spec, is_first_pivot, lemma_cx_symplectic,
    lemma_cz_symplectic, lemma_cx_wf, lemma_first_pivot_exists, lemma_h_symplectic, lemma_h_wf,
    lemma_measure_symplectic, lemma_pauli_symplectic, lemma_rand_meas_wf, lemma_s_symplectic,
    lemma_s_wf, pivot_exists, rand_meas_spec, s_spec, sdag_spec, symplectic_ok, x_spec, y_spec,
    z_spec, StabilizerState, TabV,
};

verus! {

/// Why a shot was aborted.
#[derive(Debug, Clone, Copy, PartialEq, Eq, Structural)]
pub enum ExecError {
    UnsupportedInstruction,
    ExpectedQubitTarget,
    OddTargetCount,
    ExpectedRecTarget,
    RecOutOfRange,
    CoordOverflow,
    TooManyQubits,
    InvalidArgument,
    InvariantViolation,
}

impl ExecError {
    /// A short description, in the words the executor's callers print.
    pub fn message(&self) -> (r: String)
        ensures
            match *self {
                ExecError::UnsupportedInstruction => r@ == "unsupported instruction"@,
                ExecError::ExpectedQubitTarget => r@ == "expected qubit target"@,
                ExecError::OddTargetCount => r@ == "odd number of targets"@,
                ExecError::ExpectedRecTarget => r@ == "detector target must be rec"@,
                ExecError::RecOutOfRange => r@ == "rec out of range"@,
                ExecError::CoordOverflow => r@ == "coordinate arithmetic overflow"@,
                ExecError::TooManyQubits => r@ == "too many qubits"@,
                ExecError::InvalidArgument => r@ == "invalid argument"@,
                ExecError::InvariantViolation => r@ == "tableau invariant violated"@,
            },
    {
        match self {
            ExecError::UnsupportedInstruction => String::from_str("unsupported instruction"),
            ExecError::ExpectedQubitTarget => String::from_str("expected qubit target"),
            ExecError::OddTargetCount => String::from_str("odd number of targets"),
            ExecError::ExpectedRecTarget => String::from_str("detector target must be rec"),
            ExecError::RecOutOfRange => String::from_str("rec out of range"),
            ExecError::CoordOverflow => String::from_str("coordinate arithmetic overflow"),
            ExecError::TooManyQubits => String::from_str("too many qubits"),
            ExecError::InvalidArgument => String::from_str("invalid argument"),
            ExecError::InvariantViolation => String::from_str("tableau invariant violated"),
        }
    }
}

/// The qubit index a target carries (`0` for a record target).
pub open spec fn qubit_of(t: StimTarget) -> u32 {
    match t {
        StimTarget::Qubit(q) => q,
        StimTarget::QubitInv(q) => q,
        StimTarget::Rec(_) => 0u32,
    }
}

pub open spec fn is_qubit(t: StimTarget) -> bool {
    t is Qubit
}

pub open spec fn is_meas_target(t: StimTarget) -> bool {
    t is Qubit || t is QubitInv
}

pub open spec fn inv_of(t: StimTarget) -> bool {
    t is QubitInv
}

/// Every qubit a target list names lies below `n`; record targets name no
/// qubit.
pub open spec fn targets_in_range(ts: Seq<StimTarget>, n: nat) -> bool {
    forall|k: int|
        0 <= k < ts.len() && is_meas_target(#[trigger] ts[k]) ==> qubit_of(ts[k]) < n
}

/// Every qubit an instruction tree names lies below `n`; repeat bodies
/// count once.
pub open spec fn instr_in_range(i: StimInstr, n: nat) -> bool
    decreases i,
{
    match i {
        StimInstr::Op { targets, .. } => targets_in_range(targets@, n),
        StimInstr::Repeat { body, .. } => list_in_range(body@, n),
    }
}

pub open spec fn list_in_range(l: Seq<StimInstr>, n: nat) -> bool
    decreases l,
{
    forall|k: int| 0 <= k < l.len() ==> instr_in_range(#[trigger] l[k], n)
}

/// Every decimal argument in an instruction tree is well formed.
pub open spec fn instr_args_inv(i: StimInstr) -> bool
    decreases i,
{
    match i {
        StimInstr::Op { args, .. } => all_inv(args@),
        StimInstr::Repeat { body, .. } => list_args_inv(body@),
    }
}

pub open spec fn list_args_inv(l: Seq<StimInstr>) -> bool
    decreases l,
{
    forall|k: int| 0 <= k < l.len() ==> instr_args_inv(#[trigger] l[k])
}

/// One above the largest qubit index an instruction tree names.
pub open spec fn instr_max_bound(i: StimInstr) -> int
    decreases i,
{
    match i {
        StimInstr::Op { targets, .. } => targets_max_bound(targets@, targets@.len() as int),
        StimInstr::Repeat { body, .. } => list_max_bound(body@, body@.len() as int),
    }
}

pub open spec fn targets_max_bound(ts: Seq<StimTarget>, k: int) -> int
    decreases k,
{
    if k <= 0 {
        0
    } else {
        let rest = targets_max_bound(ts, k - 1);
        match ts[k - 1] {
            StimTarget::Qubit(q) => if q + 1 > rest {
                q + 1
            } else {
                rest
            },
            StimTarget::QubitInv(q) => if q + 1 > rest {
                q + 1
            } else {
                rest
            },
            StimTarget::Rec(_) => rest,
        }
    }
}

pub open spec fn list_max_bound(l: Seq<StimInstr>, k: int) -> int
    decreases l, k,
{
    if k <= 0 {
        0
    } else {
        let rest = list_max_bound(l, k - 1);
        let own = if k <= l.len() {
            instr_max_bound(l[k - 1])
        } else {
            0
        };
        if own > rest {
            own
        } else {
            rest
        }
    }
}

/// The executor's working state: the tableau, the measurement record, the
/// derived output streams, and the coordinate tracker — one of each, shared
/// by every instruction of the shot, repeat bodies included.
pub struct SimState {
    pub tab: StabilizerState,
    pub rec: Recorder,
    pub dets: Vec<bool>,
    pub det_coords: Vec<Vec<Decimal>>,
    pub obs: Vec<(u32, bool)>,
    pub coords: CoordState,
}

impl SimState {
    pub open spec fn inv(&self) -> bool {
        &&& self.tab@.wf()
        &&& self.coords.inv()
        &&& self.dets@.len() == self.det_coords@.len()
    }
}

/// Gates dispatched one qubit at a time.
#[derive(Debug, Clone, Copy, PartialEq, Eq, Structural)]
pub enum Gate1 {
    GH,
    GS,
    GSDag,
    GX,
    GY,
    GZ,
}

/// Gates dispatched on consecutive pairs of qubits.
#[derive(Debug, Clone, Copy, PartialEq, Eq, Structural)]
pub enum Gate2 {
    GCx,
    GCz,
}

/// Measurement bases.
#[derive(Debug, Clone, Copy, PartialEq, Eq, Structural)]
pub enum MeasKind {
    MZ,
    MXBasis,
    MYBasis,
}

/// Single-qubit noise channels.
#[derive(Debug, Clone, Copy, PartialEq, Eq, Structural)]
pub enum Noise1 {
    NX,
    NZ,
    NDep,
}

pub open spec fn gate1_step(t: TabV, g: Gate1, q: int) -> TabV {
    match g {
        Gate1::GH => h_spec(t, q),
        Gate1::GS => s_spec(t, q),
        Gate1::GSDag => sdag_spec(t, q),
        Gate1::GX => x_spec(t, q),
        Gate1::GY => y_spec(t, q),
        Gate1::GZ => z_spec(t, q),
    }
}

/// The tableau after applying `g` to the first `k` listed qubits in order.
pub open spec fn gate1_fold(t: TabV, g: Gate1, qs: Seq<u32>, k: int) -> TabV
    decreases k,
{
    if k <= 0 {
        t
    } else {
        gate1_step(gate1_fold(t, g, qs, k - 1), g, qs[k - 1] as int)
    }
}

pub open spec fn gate2_step(t: TabV, g: Gate2, a: int, b: int) -> TabV {
    match g {
        Gate2::GCx => cx_spec(t, a, b),
        Gate2::GCz => cz_spec(t, a, b),
    }
}

/// The tableau after applying `g` to the first `k` listed pairs in order.
pub open spec fn gate2_fold(t: TabV, g: Gate2, ps: Seq<(u32, u32)>, k: int) -> TabV
    decreases k,
{
    if k <= 0 {
        t
    } else {
        gate2_step(gate2_fold(t, g, ps, k - 1), g, ps[k - 1].0 as int, ps[k - 1].1 as int)
    }
}

/// The first stabilizer row with X support on `q`, where one exists.
pub open spec fn the_pivot(t: TabV, q: int) -> int {
    choose|p: int| is_first_pivot(t, q, p)
}

pub proof fn lemma_first_pivot_unique(t: TabV, q: int, p1: int, p2: int)
    requires
        is_first_pivot(t, q, p1),
        is_first_pivot(t, q, p2),
    ensures
        p1 == p2,
{
    if p1 < p2 {
        assert(!t.xs[p1][q]);
    }
    if p2 < p1 {
        assert(!t.xs[p2][q]);
    }
}

/// One Z-basis measurement: the tableau update and the outcome bit, where
/// `r` is the bit drawn if the outcome is random and ignored otherwise.
pub open spec fn meas_z_step(t: TabV, q: int, r: bool) -> (TabV, bool) {
    if pivot_exists(t, q) {
        (rand_meas_spec(t, q, the_pivot(t, q), r), r)
    } else {
        (t, det_outcome(t, q) == 1)
    }
}

/// The tableau a measurement's basis change leaves for its Z measurement.
pub open spec fn meas_basis(kind: MeasKind, t: TabV, q: int) -> TabV {
    match kind {
        MeasKind::MZ => t,
        MeasKind::MXBasis => h_spec(t, q),
        MeasKind::MYBasis => h_spec(sdag_spec(t, q), q),
    }
}

/// One measurement in the given basis, by conjugating a Z measurement.
pub open spec fn meas_one(kind: MeasKind, t: TabV, q: int, r: bool) -> (TabV, bool) {
    let (t2, b) = meas_z_step(meas_basis(kind, t, q), q, r);
    match kind {
        MeasKind::MZ => (t2, b),
        MeasKind::MXBasis => (h_spec(t2, q), b),
        MeasKind::MYBasis => (s_spec(h_spec(t2, q), q), b),
    }
}

/// One measurement step is sound: either random, or deterministic with a
/// scratch phase on 0 or 2.
pub open spec fn meas_one_ok(kind: MeasKind, t: TabV, q: int) -> bool {
    pivot_exists(meas_basis(kind, t, q), q) || crate::sim::tableau::det_residue_ok(
        meas_basis(kind, t, q),
        q,
    )
}

/// Every one of the first `k` measurement steps is sound.
pub open spec fn meas_fold_ok(
    kind: MeasKind,
    t: TabV,
    ts: Seq<(u32, bool)>,
    rands: Seq<bool>,
    k: int,
) -> bool
    decreases k,
{
    if k <= 0 {
        true
    } else {
        meas_fold_ok(kind, t, ts, rands, k - 1) && meas_one_ok(
            kind,
            meas_fold(kind, t, ts, rands, k - 1).0,
            ts[k - 1].0 as int,
        )
    }
}

/// The tableau and pushed bits after measuring the first `k` listed targets
/// in order; a target's bit is flipped when its inversion mark is set.
pub open spec fn meas_fold(
    kind: MeasKind,
    t: TabV,
    ts: Seq<(u32, bool)>,
    rands: Seq<bool>,
    k: int,
) -> (TabV, Seq<bool>)
    decreases k,
{
    if k <= 0 {
        (t, Seq::empty())
    } else {
        let (t1, bits) = meas_fold(kind, t, ts, rands, k - 1);
        let (t2, b) = meas_one(kind, t1, ts[k - 1].0 as int, rands[k - 1]);
        (t2, bits.push(b != ts[k - 1].1))
    }
}

/// The identity or one of X, Y, Z, encoded 0..3.
pub open spec fn pauli_spec(t: TabV, q: int, p: u8) -> TabV {
    if p == 1 {
        x_spec(t, q)
    } else if p == 2 {
        y_spec(t, q)
    } else if p == 3 {
        z_spec(t, q)
    } else {
        t
    }
}

/// The `r`-th two-qubit Pauli in the fixed lexicographic enumeration of
/// {I,X,Y,Z}^2 minus identity: index r names pair number r + 1.
pub open spec fn tq_pauli_spec(r: int) -> (u8, u8) {
    ((((r + 1) / 4) % 4) as u8, ((r + 1) % 4) as u8)
}

/// The tableau after the first `k` qubits of a single-qubit noise pass:
/// qubit `j` is hit exactly when the draw `draws[j].0` lands below `thr`,
/// and a depolarizing hit applies X, Y or Z as `draws[j].1` picks.
pub open spec fn noise1_fold(
    t: TabV,
    kind: Noise1,
    qs: Seq<u32>,
    thr: int,
    draws: Seq<(u64, u32)>,
    k: int,
) -> TabV
    decreases k,
{
    if k <= 0 {
        t
    } else {
        let prev = noise1_fold(t, kind, qs, thr, draws, k - 1);
        let q = qs[k - 1] as int;
        if (draws[k - 1].0 as int) < thr {
            match kind {
                Noise1::NX => x_spec(prev, q),
                Noise1::NZ => z_spec(prev, q),
                Noise1::NDep => {
                    if draws[k - 1].1 == 0 {
                        x_spec(prev, q)
                    } else if draws[k - 1].1 == 1 {
                        y_spec(prev, q)
                    } else {
                        z_spec(prev, q)
                    }
                },
            }
        } else {
            prev
        }
    }
}

/// The tableau after the first `k` pairs of a two-qubit depolarizing pass:
/// a hit applies the drawn one of the 15 non-identity two-qubit Paulis.
pub open spec fn noise2_fold(
    t: TabV,
    ps: Seq<(u32, u32)>,
    thr: int,
    draws: Seq<(u64, u32)>,
    k: int,
) -> TabV
    decreases k,
{
    if k <= 0 {
        t
    } else {
        let prev = noise2_fold(t, ps, thr, draws, k - 1);
        if (draws[k - 1].0 as int) < thr {
            let pp = tq_pauli_spec(draws[k - 1].1 as int);
            pauli_spec(pauli_spec(prev, ps[k - 1].0 as int, pp.0), ps[k - 1].1 as int, pp.1)
        } else {
            prev
        }
    }
}

/// The XOR over the first `k` targets, each of which must name a recorded
/// bit; the first offending target decides the error.
pub open spec fn xor_recs_spec(bits: Seq<bool>, ts: Seq<StimTarget>, k: int) -> Result<
    bool,
    ExecError,
>
    decreases k,
{
    if k <= 0 {
        Ok(false)
    } else {
        match xor_recs_spec(bits, ts, k - 1) {
            Err(e) => Err(e),
            Ok(acc) => match ts[k - 1] {
                StimTarget::Rec(o) => match rec_spec(bits, o as int) {
                    Some(b) => Ok(acc != b),
                    None => Err(ExecError::RecOutOfRange),
                },
                _ => Err(ExecError::ExpectedRecTarget),
            },
        }
    }
}

/// The qubit list of a gate's targets; an inverted or record target is the
/// error, as gates take plain qubits only.
pub fn qubits(targets: &Vec<StimTarget>) -> (r: Result<Vec<u32>, ExecError>)
    ensures
        match r {
            Ok(qs) => {
                &&& qs@.len() == targets@.len()
                &&& forall|k: int|
                    0 <= k < targets@.len() ==> is_qubit(#[trigger] targets@[k]) && qs@[k]
                        == qubit_of(targets@[k])
            },
            Err(e) => e == ExecError::ExpectedQubitTarget && exists|k: int|
                0 <= k < targets@.len() && !is_qubit(#[trigger] targets@[k]),
        },
{
    let mut out: Vec<u32> = Vec::new();
    let mut i: usize = 0;
    while i < targets.len()
        invariant
            i <= targets@.len(),
            out@.len() == i,
            forall|k: int|
                0 <= k < i ==> is_qubit(#[trigger] targets@[k]) && out@[k] == qubit_of(
                    targets@[k],
                ),
        decreases targets@.len() - i,
    {
        match expect_qubit(&targets[i]) {
            Ok(q) => out.push(q),
            Err(e) => {
                return Err(e);
            },
        }
        i = i + 1;
    }
    Ok(out)
}

/// A single target read as a plain qubit.
pub fn expect_qubit(t: &StimTarget) -> (r: Result<u32, ExecError>)
    ensures
        match r {
            Ok(q) => is_qubit(*t) && q == qubit_of(*t),
            Err(e) => e == ExecError::ExpectedQubitTarget && !is_qubit(*t),
        },
{
    match t {
        StimTarget::Qubit(q) => Ok(*q),
        _ => Err(ExecError::ExpectedQubitTarget),
    }
}

/// The pair list of a two-qubit gate's targets: an odd count is the error
/// before any target is read, then each target must be a plain qubit.
pub fn qubit_pairs(targets: &Vec<StimTarget>) -> (r: Result<Vec<(u32, u32)>, ExecError>)
    ensures
        match r {
            Ok(ps) => {
                &&& targets@.len() % 2 == 0
                &&& ps@.len() == targets@.len() / 2
                &&& forall|k: int|
                    0 <= k < ps@.len() ==> is_qubit(#[trigger] targets@[2 * k]) && is_qubit(
                        targets@[2 * k + 1],
                    ) && ps@[k] == (qubit_of(targets@[2 * k]), qubit_of(targets@[2 * k + 1]))
            },
            Err(e) => (e == ExecError::OddTargetCount && targets@.len() % 2 == 1) || (e
                == ExecError::ExpectedQubitTarget && targets@.len() % 2 == 0 && exists|k: int|
                0 <= k < targets@.len() && !is_qubit(#[trigger] targets@[k])),
        },
{
    if targets.len() % 2 != 0 {
        return Err(ExecError::OddTargetCount);
    }
    let mut out: Vec<(u32, u32)> = Vec::new();
    let mut i: usize = 0;
    while i + 1 < targets.len()
        invariant
            targets@.len() % 2 == 0,
            i % 2 == 0,
            i <= targets@.len(),
            out@.len() == i / 2,
            forall|k: int|
                0 <= k < i / 2 ==> is_qubit(#[trigger] targets@[2 * k]) && is_qubit(
                    targets@[2 * k + 1],
                ) && out@[k] == (qubit_of(targets@[2 * k]), qubit_of(targets@[2 * k + 1])),
        decreases targets@.len() - i,
    {
        let a = match expect_qubit(&targets[i]) {
            Ok(q) => q,
            Err(e) => {
                return Err(e);
            },
        };
        let b = match expect_qubit(&targets[i + 1]) {
            Ok(q) => q,
            Err(e) => {
                return Err(e);
            },
        };
        out.push((a, b));
        proof {
            let previ = i as int;
            assert(2 * (previ / 2) == previ);
            assert(out@[previ / 2] == (a, b));
            assert(out@.len() == previ / 2 + 1);
            assert((previ + 2) / 2 == previ / 2 + 1);
            assert forall|k: int| 0 <= k < previ / 2 + 1 implies is_qubit(
                #[trigger] targets@[2 * k],
            ) && is_qubit(targets@[2 * k + 1]) && out@[k] == (
                qubit_of(targets@[2 * k]),
                qubit_of(targets@[2 * k + 1]),
            ) by {
                if k == previ / 2 {
                    assert(2 * k == previ);
                    assert(targets@[previ] == targets@[2 * k]);
                }
            }
        }
        i = i + 2;
    }
    Ok(out)
}

/// The (qubit, inverted) list of a measurement's targets; a record target
/// is the error.
pub fn meas_targets(targets: &Vec<StimTarget>) -> (r: Result<Vec<(u32, bool)>, ExecError>)
    ensures
        match r {
            Ok(qs) => {
                &&& qs@.len() == targets@.len()
                &&& forall|k: int|
                    0 <= k < targets@.len() ==> is_meas_target(#[trigger] targets@[k]) && qs@[k]
                        == (qubit_of(targets@[k]), inv_of(targets@[k]))
            },
            Err(e) => e == ExecError::ExpectedQubitTarget && exists|k: int|
                0 <= k < targets@.len() && !is_meas_target(#[trigger] targets@[k]),
        },
{
    let mut out: Vec<(u32, bool)> = Vec::new();
    let mut i: usize = 0;
    while i < targets.len()
        invariant
            i <= targets@.len(),
            out@.len() == i,
            forall|k: int|
                0 <= k < i ==> is_meas_target(#[trigger] targets@[k]) && out@[k] == (qubit_of(
                    targets@[k],
                ), inv_of(targets@[k])),
        decreases targets@.len() - i,
    {
        match &targets[i] {
            StimTarget::Qubit(q) => out.push((*q, false)),
            StimTarget::QubitInv(q) => out.push((*q, true)),
            StimTarget::Rec(_) => {
                return Err(ExecError::ExpectedQubitTarget);
            },
        }
        i = i + 1;
    }
    Ok(out)
}

/// An error of the XOR fold persists, and is one of the two target errors.
proof fn lemma_xor_recs_err(bits: Seq<bool>, ts: Seq<StimTarget>, k1: int, k2: int)
    requires
        0 <= k1 <= k2,
        xor_recs_spec(bits, ts, k1) is Err,
    ensures
        xor_recs_spec(bits, ts, k2) == xor_recs_spec(bits, ts, k1),
    decreases k2,
{
    if k1 < k2 {
        lemma_xor_recs_err(bits, ts, k1, k2 - 1);
    }
}

/// Whatever the fold returns as an error is a target error, never anything
/// else.
pub proof fn lemma_xor_recs_err_kind(bits: Seq<bool>, ts: Seq<StimTarget>, k: int)
    ensures
        xor_recs_spec(bits, ts, k) matches Err(e) ==> e == ExecError::RecOutOfRange || e
            == ExecError::ExpectedRecTarget,
    decreases k,
{
    if k > 0 {
        lemma_xor_recs_err_kind(bits, ts, k - 1);
    }
}

/// XOR of the recorded bits the targets name, against the record as it
/// stands when the annotation is reached.
pub fn xor_recs(rec: &Recorder, targets: &Vec<StimTarget>) -> (r: Result<bool, ExecError>)
    ensures
        r == xor_recs_spec(rec@, targets@, targets@.len() as int),
{
    let mut acc = false;
    let mut i: usize = 0;
    while i < targets.len()
        invariant
            i <= targets@.len(),
            Ok::<bool, ExecError>(acc) == xor_recs_spec(rec@, targets@, i as int),
        decreases targets@.len() - i,
    {
        match &targets[i] {
            StimTarget::Rec(o) => {
                match rec.rec(*o) {
                    Some(b) => {
                        acc = acc != b;
                    },
                    None => {
                        proof {
                            lemma_xor_recs_err(
                                rec@,
                                targets@,
                                i as int + 1,
                                targets@.len() as int,
                            );
                        }
                        return Err(ExecError::RecOutOfRange);
                    },
                }
            },
            _ => {
                proof {
                    lemma_xor_recs_err(rec@, targets@, i as int + 1, targets@.len() as int);
                }
                return Err(ExecError::ExpectedRecTarget);
            },
        }
        i = i + 1;
    }
    Ok(acc)
}

/// Applies a single-qubit gate to every listed qubit, in order.
pub fn apply_gate1(st: &mut StabilizerState, g: Gate1, qs: &Vec<u32>) -> (r: Result<(), ExecError>)
    requires
        old(st)@.wf(),
        forall|k: int| 0 <= k < qs@.len() ==> (#[trigger] qs@[k]) < old(st)@.n,
    ensures
        r is Ok,
        final(st)@.wf(),
        final(st)@ == gate1_fold(old(st)@, g, qs@, qs@.len() as int),
        final(st)@.n == old(st)@.n,
{
    let ghost t0 = old(st)@;
    let mut i: usize = 0;
    while i < qs.len()
        invariant
            t0.wf(),
            i <= qs@.len(),
            forall|k: int| 0 <= k < qs@.len() ==> (#[trigger] qs@[k]) < t0.n,
            st@.wf(),
            st@.n == t0.n,
            st@ == gate1_fold(t0, g, qs@, i as int),
        decreases qs@.len() - i,
    {
        let q = qs[i] as usize;
        match g {
            Gate1::GH => st.h(q),
            Gate1::GS => st.s(q),
            Gate1::GSDag => st.s_dag(q),
            Gate1::GX => st.x_gate(q),
            Gate1::GY => st.y_gate(q),
            Gate1::GZ => st.z_gate(q),
        }
        i = i + 1;
    }
    Ok(())
}

/// Applies a two-qubit gate to every listed pair, in order.
pub fn apply_gate2(st: &mut StabilizerState, g: Gate2, ps: &Vec<(u32, u32)>) -> (r: Result<
    (),
    ExecError,
>)
    requires
        old(st)@.wf(),
        forall|k: int|
            0 <= k < ps@.len() ==> (#[trigger] ps@[k]).0 < old(st)@.n && ps@[k].1 < old(st)@.n,
    ensures
        r is Ok,
        final(st)@.wf(),
        final(st)@ == gate2_fold(old(st)@, g, ps@, ps@.len() as int),
        final(st)@.n == old(st)@.n,
{
    let ghost t0 = old(st)@;
    let mut i: usize = 0;
    while i < ps.len()
        invariant
            t0.wf(),
            i <= ps@.len(),
            forall|k: int| 0 <= k < ps@.len() ==> (#[trigger] ps@[k]).0 < t0.n && ps@[k].1 < t0.n,
            st@.wf(),
            st@.n == t0.n,
            st@ == gate2_fold(t0, g, ps@, i as int),
        decreases ps@.len() - i,
    {
        let (a, b) = ps[i];
        match g {
            Gate2::GCx => st.cx(a as usize, b as usize),
            Gate2::GCz => st.cz(a as usize, b as usize),
        }
        i = i + 1;
    }
    Ok(())
}

/// A fold over measurement targets reads only the first `k` drawn bits.
proof fn lemma_meas_fold_prefix(
    kind: MeasKind,
    t: TabV,
    ts: Seq<(u32, bool)>,
    r1: Seq<bool>,
    r2: Seq<bool>,
    k: int,
)
    requires
        forall|j: int| 0 <= j < k ==> r1[j] == r2[j],
    ensures
        meas_fold(kind, t, ts, r1, k) == meas_fold(kind, t, ts, r2, k),
    decreases k,
{
    if k > 0 {
        lemma_meas_fold_prefix(kind, t, ts, r1, r2, k - 1);
    }
}

/// Soundness of a fold's steps reads only the first `k` drawn bits.
proof fn lemma_meas_fold_ok_prefix(
    kind: MeasKind,
    t: TabV,
    ts: Seq<(u32, bool)>,
    r1: Seq<bool>,
    r2: Seq<bool>,
    k: int,
)
    requires
        forall|j: int| 0 <= j < k ==> r1[j] == r2[j],
    ensures
        meas_fold_ok(kind, t, ts, r1, k) == meas_fold_ok(kind, t, ts, r2, k),
    decreases k,
{
    if k > 0 {
        lemma_meas_fold_ok_prefix(kind, t, ts, r1, r2, k - 1);
        lemma_meas_fold_prefix(kind, t, ts, r1, r2, k - 1);
    }
}

/// A sound fold has sound prefixes.
proof fn lemma_meas_fold_ok_mono(
    kind: MeasKind,
    t: TabV,
    ts: Seq<(u32, bool)>,
    rands: Seq<bool>,
    j: int,
    k: int,
)
    requires
        j <= k,
        meas_fold_ok(kind, t, ts, rands, k),
    ensures
        meas_fold_ok(kind, t, ts, rands, j),
    decreases k,
{
    if j < k && k > 0 {
        lemma_meas_fold_ok_mono(kind, t, ts, rands, j, k - 1);
    }
}

/// Measures every listed target in order, pushing each outcome bit — the
/// measured bit flipped where the target was inverted — onto the record.
/// For some sequence of drawn bits, the new tableau and the pushed bits
/// are exactly `meas_fold` of the old state and every step was sound; a
/// phase-residue fault aborts with the distinct invariant-violation error,
/// witnessed by a draw sequence whose fold is unsound.
pub fn measure_list(
    st: &mut StabilizerState,
    rec: &mut Recorder,
    kind: MeasKind,
    ts: &Vec<(u32, bool)>,
    rng: &mut rand::rngs::StdRng,
) -> (r: Result<(), ExecError>)
    requires
        old(st)@.wf(),
        forall|k: int| 0 <= k < ts@.len() ==> (#[trigger] ts@[k]).0 < old(st)@.n,
    ensures
        final(st)@.wf(),
        final(st)@.n == old(st)@.n,
        old(rec)@.is_prefix_of(final(rec)@),
        match r {
            Ok(()) => exists|rands: Seq<bool>|
                rands.len() == ts@.len() && meas_fold_ok(
                    kind,
                    old(st)@,
                    ts@,
                    rands,
                    ts@.len() as int,
                ) && final(st)@ == meas_fold(kind, old(st)@, ts@, rands, ts@.len() as int).0
                    && final(rec)@ == old(rec)@ + meas_fold(
                    kind,
                    old(st)@,
                    ts@,
                    rands,
                    ts@.len() as int,
                ).1,
            Err(e) => e == ExecError::InvariantViolation && exists|rands: Seq<bool>|
                rands.len() == ts@.len() && !meas_fold_ok(
                    kind,
                    old(st)@,
                    ts@,
                    rands,
                    ts@.len() as int,
                ),
        },
{
    let ghost t0 = old(st)@;
    let ghost rec0 = old(rec)@;
    let ghost mut rands: Seq<bool> = Seq::empty();
    let ghost mut newbits: Seq<bool> = Seq::empty();
    let mut i: usize = 0;
    while i < ts.len()
        invariant
            t0 == old(st)@,
            rec0 == old(rec)@,
            t0.wf(),
            i <= ts@.len(),
            forall|k: int| 0 <= k < ts@.len() ==> (#[trigger] ts@[k]).0 < t0.n,
            st@.wf(),
            st@.n == t0.n,
            rands.len() == i,
            rec@ == rec0 + newbits,
            (st@, newbits) == meas_fold(kind, t0, ts@, rands, i as int),
            meas_fold_ok(kind, t0, ts@, rands, i as int),
        decreases ts@.len() - i,
    {
        let (q, invert) = ts[i];
        let qi = q as usize;
        let ghost pre = st@;
        let bit: u8;
        let ghost basis: TabV;
        let ghost after_meas: TabV;
        match kind {
            MeasKind::MZ => {
                proof {
                    basis = st@;
                }
                match st.measure_z(qi, rng) {
                    Ok((b, _)) => {
                        proof {
                            after_meas = st@;
                        }
                        bit = b;
                    },
                    Err(_) => {
                        proof {
                            lemma_meas_fault_witness(kind, t0, ts@, rands, i as int, pre);
                            assert(st@.n == t0.n);
                            assert(rec@.subrange(0, rec0.len() as int) =~= rec0);
                            assert(rec0.is_prefix_of(rec@));
                        }
                        return Err(ExecError::InvariantViolation);
                    },
                }
            },
            MeasKind::MXBasis => {
                st.h(qi);
                proof {
                    basis = st@;
                }
                match st.measure_z(qi, rng) {
                    Ok((b, _)) => {
                        proof {
                            after_meas = st@;
                        }
                        st.h(qi);
                        bit = b;
                    },
                    Err(_) => {
                        proof {
                            lemma_meas_fault_witness(kind, t0, ts@, rands, i as int, pre);
                            assert(st@.n == t0.n);
                            assert(rec@.subrange(0, rec0.len() as int) =~= rec0);
                            assert(rec0.is_prefix_of(rec@));
                        }
                        return Err(ExecError::InvariantViolation);
                    },
                }
            },
            MeasKind::MYBasis => {
                st.s_dag(qi);
                st.h(qi);
                proof {
                    basis = st@;
                }
                match st.measure_z(qi, rng) {
                    Ok((b, _)) => {
                        proof {
                            after_meas = st@;
                        }
                        st.h(qi);
                        st.s(qi);
                        bit = b;
                    },
                    Err(_) => {
                        proof {
                            lemma_meas_fault_witness(kind, t0, ts@, rands, i as int, pre);
                            assert(st@.n == t0.n);
                            assert(rec@.subrange(0, rec0.len() as int) =~= rec0);
                            assert(rec0.is_prefix_of(rec@));
                        }
                        return Err(ExecError::InvariantViolation);
                    },
                }
            },
        }
        let outbit = (bit == 1) != invert;
        rec.push(outbit);
        proof {
            let rb = bit == 1;
            assert(basis == meas_basis(kind, pre, q as int));
            if pivot_exists(basis, q as int) {
                let p = choose|p: int|
                    is_first_pivot(basis, q as int, p) && after_meas == rand_meas_spec(
                        basis,
                        q as int,
                        p,
                        rb,
                    );
                assert(is_first_pivot(basis, q as int, the_pivot(basis, q as int)));
                lemma_first_pivot_unique(basis, q as int, p, the_pivot(basis, q as int));
                assert(meas_z_step(basis, q as int, rb) == (after_meas, rb));
            } else {
                assert(crate::sim::tableau::det_residue_ok(basis, q as int));
                assert(after_meas == basis);
                assert(meas_z_step(basis, q as int, rb) == (basis, det_outcome(
                    basis,
                    q as int,
                ) == 1));
                assert(bit == det_outcome(basis, q as int));
            }
            assert(meas_one_ok(kind, pre, q as int));
            assert(meas_one(kind, pre, q as int, rb) == (st@, rb));
            let ghost oldrands = rands;
            rands = rands.push(rb);
            lemma_meas_fold_prefix(kind, t0, ts@, oldrands, rands, i as int);
            lemma_meas_fold_ok_prefix(kind, t0, ts@, oldrands, rands, i as int);
            newbits = newbits.push(outbit);
            assert((st@, newbits) == meas_fold(kind, t0, ts@, rands, i as int + 1));
            assert(meas_fold_ok(kind, t0, ts@, rands, i as int + 1));
        }
        i = i + 1;
    }
    Ok(())
}

/// Padding the drawn bits of a fold that just failed its `i`-th step
/// witnesses an unsound full fold.
proof fn lemma_meas_fault_witness(
    kind: MeasKind,
    t0: TabV,
    ts: Seq<(u32, bool)>,
    rands: Seq<bool>,
    i: int,
    pre: TabV,
)
    requires
        0 <= i < ts.len(),
        rands.len() == i,
        pre == meas_fold(kind, t0, ts, rands, i).0,
        !meas_one_ok(kind, pre, ts[i].0 as int),
    ensures
        exists|full: Seq<bool>|
            full.len() == ts.len() && !meas_fold_ok(kind, t0, ts, full, ts.len() as int),
{
    let full = rands + Seq::new((ts.len() - i) as nat, |j: int| false);
    assert(full.len() == ts.len());
    assert(forall|j: int| 0 <= j < i ==> full[j] == rands[j]);
    lemma_meas_fold_prefix(kind, t0, ts, rands, full, i);
    assert(meas_fold(kind, t0, ts, full, i).0 == pre);
    assert(!meas_fold_ok(kind, t0, ts, full, i + 1));
    if meas_fold_ok(kind, t0, ts, full, ts.len() as int) {
        lemma_meas_fold_ok_mono(kind, t0, ts, full, i + 1, ts.len() as int);
    }
    assert(!meas_fold_ok(kind, t0, ts, full, ts.len() as int));
}

/// A fold over noise draws reads only the first `k` of them.
proof fn lemma_noise1_fold_prefix(
    t: TabV,
    kind: Noise1,
    qs: Seq<u32>,
    thr: int,
    r1: Seq<(u64, u32)>,
    r2: Seq<(u64, u32)>,
    k: int,
)
    requires
        forall|j: int| 0 <= j < k ==> r1[j] == r2[j],
    ensures
        noise1_fold(t, kind, qs, thr, r1, k) == noise1_fold(t, kind, qs, thr, r2, k),
    decreases k,
{
    if k > 0 {
        lemma_noise1_fold_prefix(t, kind, qs, thr, r1, r2, k - 1);
    }
}

proof fn lemma_noise2_fold_prefix(
    t: TabV,
    ps: Seq<(u32, u32)>,
    thr: int,
    r1: Seq<(u64, u32)>,
    r2: Seq<(u64, u32)>,
    k: int,
)
    requires
        forall|j: int| 0 <= j < k ==> r1[j] == r2[j],
    ensures
        noise2_fold(t, ps, thr, r1, k) == noise2_fold(t, ps, thr, r2, k),
    decreases k,
{
    if k > 0 {
        lemma_noise2_fold_prefix(t, ps, thr, r1, r2, k - 1);
    }
}

/// Applies I, X, Y or Z (encoded 0..3) to one qubit; any other code is the
/// identity.
pub fn apply_pauli(st: &mut StabilizerState, q: usize, p: u8)
    requires
        old(st)@.wf(),
        (q as int) < old(st)@.n,
    ensures
        final(st)@.wf(),
        final(st)@ == pauli_spec(old(st)@, q as int, p),
        final(st)@.n == old(st)@.n,
{
    match p {
        0 => {},
        1 => st.x_gate(q),
        2 => st.y_gate(q),
        3 => st.z_gate(q),
        _ => {},
    }
}

/// The `r`-th of the 15 non-identity two-qubit Paulis, in the fixed
/// lexicographic order over (a, b) in {I,X,Y,Z}^2 skipping (I, I).
pub fn two_qubit_pauli(r: u32) -> (res: (u8, u8))
    requires
        r < 15,
    ensures
        res == tq_pauli_spec(r as int),
        res.0 < 4,
        res.1 < 4,
{
    (((r + 1) / 4) as u8, ((r + 1) % 4) as u8)
}

/// A single-qubit noise pass: each listed qubit is independently hit with
/// the channel's probability, as the threshold `thr` over 53-bit draws
/// encodes it; a depolarizing hit picks X, Y or Z uniformly.
pub fn apply_noise1(
    st: &mut StabilizerState,
    kind: Noise1,
    qs: &Vec<u32>,
    thr: u64,
    rng: &mut rand::rngs::StdRng,
) -> (r: Result<(), ExecError>)
    requires
        old(st)@.wf(),
        forall|k: int| 0 <= k < qs@.len() ==> (#[trigger] qs@[k]) < old(st)@.n,
        thr <= TWO_POW_53,
    ensures
        r is Ok,
        final(st)@.wf(),
        final(st)@.n == old(st)@.n,
        exists|draws: Seq<(u64, u32)>|
            draws.len() == qs@.len() && (forall|j: int|
                0 <= j < draws.len() ==> (#[trigger] draws[j]).0 < TWO_POW_53 && draws[j].1 < 3)
                && final(st)@ == noise1_fold(old(st)@, kind, qs@, thr as int, draws, qs@.len() as int),
{
    let ghost t0 = old(st)@;
    let ghost mut draws: Seq<(u64, u32)> = Seq::empty();
    let mut i: usize = 0;
    while i < qs.len()
        invariant
            t0.wf(),
            i <= qs@.len(),
            forall|k: int| 0 <= k < qs@.len() ==> (#[trigger] qs@[k]) < t0.n,
            st@.wf(),
            st@.n == t0.n,
            draws.len() == i,
            forall|j: int|
                0 <= j < draws.len() ==> (#[trigger] draws[j]).0 < TWO_POW_53 && draws[j].1 < 3,
            st@ == noise1_fold(t0, kind, qs@, thr as int, draws, i as int),
        decreases qs@.len() - i,
    {
        let q = qs[i] as usize;
        let u = rand_u53(rng);
        let mut choice: u32 = 0;
        if u < thr {
            match kind {
                Noise1::NX => st.x_gate(q),
                Noise1::NZ => st.z_gate(q),
                Noise1::NDep => {
                    choice = rand_below(rng, 3);
                    match choice {
                        0 => st.x_gate(q),
                        1 => st.y_gate(q),
                        _ => st.z_gate(q),
                    }
                },
            }
        }
        proof {
            let ghost olddraws = draws;
            draws = draws.push((u, choice));
            lemma_noise1_fold_prefix(t0, kind, qs@, thr as int, olddraws, draws, i as int);
        }
        i = i + 1;
    }
    Ok(())
}

/// A two-qubit depolarizing pass over consecutive pairs: a hit applies one
/// of the 15 non-identity two-qubit Paulis, drawn uniformly in the fixed
/// enumeration order.
pub fn apply_noise2(
    st: &mut StabilizerState,
    ps: &Vec<(u32, u32)>,
    thr: u64,
    rng: &mut rand::rngs::StdRng,
) -> (r: Result<(), ExecError>)
    requires
        old(st)@.wf(),
        forall|k: int|
            0 <= k < ps@.len() ==> (#[trigger] ps@[k]).0 < old(st)@.n && ps@[k].1 < old(st)@.n,
        thr <= TWO_POW_53,
    ensures
        r is Ok,
        final(st)@.wf(),
        final(st)@.n == old(st)@.n,
        exists|draws: Seq<(u64, u32)>|
            draws.len() == ps@.len() && (forall|j: int|
                0 <= j < draws.len() ==> (#[trigger] draws[j]).0 < TWO_POW_53 && draws[j].1 < 15)
                && final(st)@ == noise2_fold(old(st)@, ps@, thr as int, draws, ps@.len() as int),
{
    let ghost t0 = old(st)@;
    let ghost mut draws: Seq<(u64, u32)> = Seq::empty();
    let mut i: usize = 0;
    while i < ps.len()
        invariant
            t0.wf(),
            i <= ps@.len(),
            forall|k: int| 0 <= k < ps@.len() ==> (#[trigger] ps@[k]).0 < t0.n && ps@[k].1 < t0.n,
            st@.wf(),
            st@.n == t0.n,
            draws.len() == i,
            forall|j: int|
                0 <= j < draws.len() ==> (#[trigger] draws[j]).0 < TWO_POW_53 && draws[j].1 < 15,
            st@ == noise2_fold(t0, ps@, thr as int, draws, i as int),
        decreases ps@.len() - i,
    {
        let (a, b) = ps[i];
        let u = rand_u53(rng);
        let mut choice: u32 = 0;
        if u < thr {
            choice = rand_below(rng, 15);
            let (pa, pb) = two_qubit_pauli(choice);
            apply_pauli(st, a as usize, pa);
            apply_pauli(st, b as usize, pb);
        }
        proof {
            let ghost olddraws = draws;
            draws = draws.push((u, choice));
            lemma_noise2_fold_prefix(t0, ps@, thr as int, olddraws, draws, i as int);
        }
        i = i + 1;
    }
    Ok(())
}

/// An exact copy of a decimal vector.
fn copy_dec_vec(v: &Vec<Decimal>) -> (r: Vec<Decimal>)
    ensures
        r@ == v@,
{
    let mut out: Vec<Decimal> = Vec::new();
    let mut i: usize = 0;
    while i < v.len()
        invariant
            i <= v@.len(),
            out@ == v@.subrange(0, i as int),
        decreases v@.len() - i,
    {
        out.push(v[i]);
        proof {
            assert(out@ =~= v@.subrange(0, i as int + 1));
        }
        i = i + 1;
    }
    proof {
        assert(out@ =~= v@);
    }
    out
}

/// DETECTOR: one bit, the XOR of the named record bits, with the
/// offset-adjusted coordinate arguments alongside it.
pub fn op_detector(
    sim: &mut SimState,
    args: &Vec<Decimal>,
    targets: &Vec<StimTarget>,
) -> (r: Result<(), ExecError>)
    requires
        old(sim).inv(),
        all_inv(args@),
    ensures
        final(sim).inv(),
        final(sim).tab == old(sim).tab,
        final(sim).rec == old(sim).rec,
        final(sim).obs == old(sim).obs,
        final(sim).coords == old(sim).coords,
        match xor_recs_spec(old(sim).rec@, targets@, targets@.len() as int) {
            Err(e) => r == Err::<(), ExecError>(e) && *final(sim) == *old(sim),
            Ok(b) => match r {
                Ok(()) => {
                    &&& final(sim).dets@ == old(sim).dets@.push(b)
                    &&& final(sim).det_coords@.len() == old(sim).det_coords@.len() + 1
                    &&& forall|i: int|
                        0 <= i < old(sim).det_coords@.len() ==> (
                        #[trigger] final(sim).det_coords@[i]) == old(sim).det_coords@[i]
                    &&& final(sim).det_coords@.last()@ == crate::coords::add_offset_spec(
                        args@,
                        old(sim).coords.offset@,
                    )
                    &&& !crate::coords::offset_overflows(args@, old(sim).coords.offset@)
                },
                Err(e) => e == ExecError::CoordOverflow && *final(sim) == *old(sim)
                    && crate::coords::offset_overflows(args@, old(sim).coords.offset@),
            },
        },
{
    let bit = match xor_recs(&sim.rec, targets) {
        Ok(b) => b,
        Err(e) => {
            return Err(e);
        },
    };
    let cv = match sim.coords.apply_offset(args) {
        Ok(v) => v,
        Err(()) => {
            return Err(ExecError::CoordOverflow);
        },
    };
    sim.dets.push(bit);
    sim.det_coords.push(cv);
    Ok(())
}

/// OBSERVABLE_INCLUDE: one (index, bit) pair, the bit the XOR of the named
/// record bits, the index the first argument truncated into `u32`.
pub fn op_observable(
    sim: &mut SimState,
    args: &Vec<Decimal>,
    targets: &Vec<StimTarget>,
) -> (r: Result<(), ExecError>)
    requires
        old(sim).inv(),
        all_inv(args@),
    ensures
        final(sim).inv(),
        final(sim).tab == old(sim).tab,
        final(sim).rec == old(sim).rec,
        final(sim).dets == old(sim).dets,
        final(sim).det_coords == old(sim).det_coords,
        final(sim).coords == old(sim).coords,
        match xor_recs_spec(old(sim).rec@, targets@, targets@.len() as int) {
            Err(e) => r == Err::<(), ExecError>(e) && *final(sim) == *old(sim),
            Ok(b) => r is Ok && final(sim).obs@ == old(sim).obs@.push(
                (
                    (if args@.len() > 0 {
                        trunc_u32_spec(args@[0])
                    } else {
                        0
                    }) as u32,
                    b,
                ),
            ),
        },
{
    let index: u32 = if args.len() > 0 {
        args[0].trunc_u32()
    } else {
        0
    };
    let bit = match xor_recs(&sim.rec, targets) {
        Ok(b) => b,
        Err(e) => {
            return Err(e);
        },
    };
    sim.obs.push((index, bit));
    Ok(())
}

/// Some target names this qubit.
pub open spec fn has_qubit(ts: Seq<StimTarget>, k: u32) -> bool {
    exists|j: int| 0 <= j < ts.len() && #[trigger] ts[j] == StimTarget::Qubit(k)
}

/// `cv` is `args` extended to the offset's length with the offset added
/// component-wise.
pub open spec fn coord_vec_ok(cv: Seq<Decimal>, args: Seq<Decimal>, off: Seq<Decimal>) -> bool {
    &&& cv.len() == (if args.len() >= off.len() {
        args.len()
    } else {
        off.len()
    })
    &&& forall|i: int|
        0 <= i < cv.len() ==> (#[trigger] cv[i]).val() == padded(args, i).val() + padded(
            off,
            i,
        ).val()
}

/// The coordinate table after assigning `cv` to every qubit `ts` lists.
pub open spec fn qc_updated(
    qcnew: Seq<(u32, Vec<Decimal>)>,
    qcold: Seq<(u32, Vec<Decimal>)>,
    ts: Seq<StimTarget>,
    cv: Seq<Decimal>,
) -> bool {
    forall|k: u32|
        #[trigger] lookup_qc(qcnew, k) == (if has_qubit(ts, k) {
            Some(cv)
        } else {
            lookup_qc(qcold, k)
        })
}


/// QUBIT_COORDS: stores the offset-adjusted coordinate arguments as the
/// coordinates of every listed qubit.
pub fn op_qubit_coords(
    sim: &mut SimState,
    args: &Vec<Decimal>,
    targets: &Vec<StimTarget>,
) -> (r: Result<(), ExecError>)
    requires
        old(sim).inv(),
        all_inv(args@),
    ensures
        final(sim).inv(),
        final(sim).tab == old(sim).tab,
        final(sim).rec == old(sim).rec,
        final(sim).dets == old(sim).dets,
        final(sim).det_coords == old(sim).det_coords,
        final(sim).obs == old(sim).obs,
        final(sim).coords.offset == old(sim).coords.offset,
        final(sim).coords.tick == old(sim).coords.tick,
        match r {
            Ok(()) => qc_updated(
                final(sim).coords.qubit_coords@,
                old(sim).coords.qubit_coords@,
                targets@,
                crate::coords::add_offset_spec(args@, old(sim).coords.offset@),
            ) && !crate::coords::offset_overflows(args@, old(sim).coords.offset@) && all_qubits(
                targets@,
            ),
            Err(e) => *final(sim) == *old(sim) && ((e == ExecError::ExpectedQubitTarget
                && !all_qubits(targets@)) || (e == ExecError::CoordOverflow
                && crate::coords::offset_overflows(args@, old(sim).coords.offset@)
                && all_qubits(targets@))),
        },
{
    let qs = match qubits(targets) {
        Ok(qs) => qs,
        Err(e) => {
            proof {
                let k = choose|k: int| 0 <= k < targets@.len() && !is_qubit(#[trigger] targets@[k]);
                assert(!all_qubits(targets@));
            }
            return Err(e);
        },
    };
    let cv = match sim.coords.apply_offset(args) {
        Ok(v) => v,
        Err(()) => {
            proof {
                assert(all_qubits(targets@));
            }
            return Err(ExecError::CoordOverflow);
        },
    };
    let mut i: usize = 0;
    while i < qs.len()
        invariant
            i <= qs@.len(),
            qs@.len() == targets@.len(),
            forall|k: int|
                0 <= k < targets@.len() ==> is_qubit(#[trigger] targets@[k]) && qs@[k] == qubit_of(
                    targets@[k],
                ),
            all_inv(cv@),
            sim.inv(),
            sim.tab == old(sim).tab,
            sim.rec == old(sim).rec,
            sim.dets == old(sim).dets,
            sim.det_coords == old(sim).det_coords,
            sim.obs == old(sim).obs,
            sim.coords.offset == old(sim).coords.offset,
            sim.coords.tick == old(sim).coords.tick,
            forall|k: u32|
                #[trigger] lookup_qc(sim.coords.qubit_coords@, k) == (if exists|j: int|
                    0 <= j < i && targets@[j] == StimTarget::Qubit(k) {
                    Some(cv@)
                } else {
                    lookup_qc(old(sim).coords.qubit_coords@, k)
                }),
        decreases qs@.len() - i,
    {
        let copy = copy_dec_vec(&cv);
        let q = qs[i];
        sim.coords.set_qubit_coords(q, copy);
        proof {
            assert(targets@[i as int] == StimTarget::Qubit(q));
            assert forall|k: u32| #[trigger] lookup_qc(sim.coords.qubit_coords@, k) == (if exists|
                j: int,
            | 0 <= j < i + 1 && targets@[j] == StimTarget::Qubit(k) {
                Some(cv@)
            } else {
                lookup_qc(old(sim).coords.qubit_coords@, k)
            }) by {
                if k == q {
                } else {
                    if exists|j: int| 0 <= j < i + 1 && targets@[j] == StimTarget::Qubit(k) {
                        let j = choose|j: int| 0 <= j < i + 1 && targets@[j] == StimTarget::Qubit(k);
                        assert(j < i);
                        assert(exists|j: int| 0 <= j < i && targets@[j] == StimTarget::Qubit(k));
                    }
                }
            }
        }
        i = i + 1;
    }
    proof {
        assert forall|k: u32| #[trigger] lookup_qc(sim.coords.qubit_coords@, k) == (if has_qubit(
            targets@,
            k,
        ) {
            Some(cv@)
        } else {
            lookup_qc(old(sim).coords.qubit_coords@, k)
        }) by {}
        assert(qc_updated(sim.coords.qubit_coords@, old(sim).coords.qubit_coords@, targets@, cv@));
    }
    Ok(())
}

/// The executor's state as mathematics: the tableau view, the record and
/// output streams, and the coordinate tracker's contents.
#[verifier::ext_equal]
pub ghost struct MState {
    pub tab: TabV,
    pub rec: Seq<bool>,
    pub dets: Seq<bool>,
    pub detc: Seq<Seq<Decimal>>,
    pub obs: Seq<(u32, bool)>,
    pub offset: Seq<Decimal>,
    pub qc: Map<u32, Seq<Decimal>>,
    pub tick: int,
}

/// The stored coordinate table as a map from qubit to coordinates.
pub open spec fn qc_as_map(s: Seq<(u32, Vec<Decimal>)>) -> Map<u32, Seq<Decimal>> {
    Map::new(
        |k: u32| lookup_qc(s, k) is Some,
        |k: u32|
            match lookup_qc(s, k) {
                Some(v) => v,
                None => Seq::empty(),
            },
    )
}

/// The coordinate map after assigning `cv` to every qubit `ts` lists.
pub open spec fn qc_insert_all(
    m: Map<u32, Seq<Decimal>>,
    ts: Seq<StimTarget>,
    cv: Seq<Decimal>,
) -> Map<u32, Seq<Decimal>> {
    Map::new(
        |k: u32| m.dom().contains(k) || has_qubit(ts, k),
        |k: u32|
            if has_qubit(ts, k) {
                cv
            } else {
                m[k]
            },
    )
}

impl SimState {
    /// The mathematical view of the whole working state.
    pub open spec fn mview(&self) -> MState {
        MState {
            tab: self.tab@,
            rec: self.rec@,
            dets: self.dets@,
            detc: Seq::new(self.det_coords@.len(), |i: int| self.det_coords@[i]@),
            obs: self.obs@,
            offset: self.coords.offset@,
            qc: qc_as_map(self.coords.qubit_coords@),
            tick: self.coords.tick as int,
        }
    }
}

/// Every target is a plain qubit.
pub open spec fn all_qubits(ts: Seq<StimTarget>) -> bool {
    forall|k: int| 0 <= k < ts.len() ==> is_qubit(#[trigger] ts[k])
}

/// Every target is a qubit, inverted or not.
pub open spec fn all_meas(ts: Seq<StimTarget>) -> bool {
    forall|k: int| 0 <= k < ts.len() ==> is_meas_target(#[trigger] ts[k])
}

pub open spec fn qubit_seq(ts: Seq<StimTarget>) -> Seq<u32> {
    Seq::new(ts.len(), |k: int| qubit_of(ts[k]))
}

pub open spec fn pair_seq(ts: Seq<StimTarget>) -> Seq<(u32, u32)> {
    Seq::new(ts.len() / 2, |k: int| (qubit_of(ts[2 * k]), qubit_of(ts[2 * k + 1])))
}

pub open spec fn mt_seq(ts: Seq<StimTarget>) -> Seq<(u32, bool)> {
    Seq::new(ts.len(), |k: int| (qubit_of(ts[k]), inv_of(ts[k])))
}

/// The first argument, or zero when there is none.
pub open spec fn arg0_or_zero(args: Seq<Decimal>) -> Decimal {
    if args.len() > 0 {
        args[0]
    } else {
        crate::coords::dec_zero()
    }
}

/// The random draws one operation may consume: outcome bits for a
/// measurement pass, (uniform word, uniform choice) pairs for a noise
/// pass. Operations that draw nothing ignore both.
#[verifier::ext_equal]
pub ghost struct OpDraws {
    pub rands: Seq<bool>,
    pub draws: Seq<(u64, u32)>,
}

/// What one dispatched operation does to the state, as a function of the
/// state, the instruction, and the operation's random draws. Deterministic
/// operations ignore the draws; the first §4.5 error condition decides the
/// error, and a measurement pass whose deterministic branch would observe
/// a bad phase residue aborts with the distinct invariant fault.
pub open spec fn op_step(
    m0: MState,
    name: Seq<char>,
    args: Seq<Decimal>,
    ts: Seq<StimTarget>,
    w: OpDraws,
) -> Result<MState, ExecError> {
    match op_code_spec(name) {
        OpCode::CH | OpCode::CS | OpCode::CSDag | OpCode::CX | OpCode::CY | OpCode::CZGate => {
            let g = match op_code_spec(name) {
                OpCode::CH => Gate1::GH,
                OpCode::CS => Gate1::GS,
                OpCode::CSDag => Gate1::GSDag,
                OpCode::CX => Gate1::GX,
                OpCode::CY => Gate1::GY,
                _ => Gate1::GZ,
            };
            if all_qubits(ts) {
                Ok(MState { tab: gate1_fold(m0.tab, g, qubit_seq(ts), ts.len() as int), ..m0 })
            } else {
                Err(ExecError::ExpectedQubitTarget)
            }
        },
        OpCode::CCx | OpCode::CCz => {
            let g = if op_code_spec(name) is CCx {
                Gate2::GCx
            } else {
                Gate2::GCz
            };
            if ts.len() % 2 != 0 {
                Err(ExecError::OddTargetCount)
            } else if !all_qubits(ts) {
                Err(ExecError::ExpectedQubitTarget)
            } else {
                Ok(MState { tab: gate2_fold(m0.tab, g, pair_seq(ts), ts.len() as int / 2), ..m0 })
            }
        },
        OpCode::CM | OpCode::CMx | OpCode::CMy => {
            let kind = match op_code_spec(name) {
                OpCode::CM => MeasKind::MZ,
                OpCode::CMx => MeasKind::MXBasis,
                _ => MeasKind::MYBasis,
            };
            if !all_meas(ts) {
                Err(ExecError::ExpectedQubitTarget)
            } else if meas_fold_ok(kind, m0.tab, mt_seq(ts), w.rands, ts.len() as int) {
                Ok(
                    MState {
                        tab: meas_fold(kind, m0.tab, mt_seq(ts), w.rands, ts.len() as int).0,
                        rec: m0.rec + meas_fold(kind, m0.tab, mt_seq(ts), w.rands, ts.len() as int).1,
                        ..m0
                    },
                )
            } else {
                Err(ExecError::InvariantViolation)
            }
        },
        OpCode::CXError | OpCode::CZError | OpCode::CDep1 => {
            let kind = match op_code_spec(name) {
                OpCode::CXError => Noise1::NX,
                OpCode::CZError => Noise1::NZ,
                _ => Noise1::NDep,
            };
            if !all_qubits(ts) {
                Err(ExecError::ExpectedQubitTarget)
            } else {
                Ok(
                    MState {
                        tab: noise1_fold(
                            m0.tab,
                            kind,
                            qubit_seq(ts),
                            threshold_spec(arg0_or_zero(args)) as int,
                            w.draws,
                            ts.len() as int,
                        ),
                        ..m0
                    },
                )
            }
        },
        OpCode::CDep2 => {
            if ts.len() % 2 != 0 {
                Err(ExecError::OddTargetCount)
            } else if !all_qubits(ts) {
                Err(ExecError::ExpectedQubitTarget)
            } else {
                Ok(
                    MState {
                        tab: noise2_fold(
                            m0.tab,
                            pair_seq(ts),
                            threshold_spec(arg0_or_zero(args)) as int,
                            w.draws,
                            ts.len() as int / 2,
                        ),
                        ..m0
                    },
                )
            }
        },
        OpCode::CQubitCoords => {
            if !all_qubits(ts) {
                Err(ExecError::ExpectedQubitTarget)
            } else if crate::coords::offset_overflows(args, m0.offset) {
                Err(ExecError::CoordOverflow)
            } else {
                Ok(
                    MState {
                        qc: qc_insert_all(
                            m0.qc,
                            ts,
                            crate::coords::add_offset_spec(args, m0.offset),
                        ),
                        ..m0
                    },
                )
            }
        },
        OpCode::CShiftCoords => {
            if crate::coords::offset_overflows(m0.offset, args) {
                Err(ExecError::CoordOverflow)
            } else {
                Ok(MState { offset: crate::coords::add_offset_spec(m0.offset, args), ..m0 })
            }
        },
        OpCode::CTick => Ok(
            MState {
                tick: if m0.tick < 0x7fff_ffff_ffff_ffffi64 {
                    m0.tick + 1
                } else {
                    m0.tick
                },
                ..m0
            },
        ),
        OpCode::CDetector => {
            match xor_recs_spec(m0.rec, ts, ts.len() as int) {
                Err(e) => Err(e),
                Ok(b) => {
                    if crate::coords::offset_overflows(args, m0.offset) {
                        Err(ExecError::CoordOverflow)
                    } else {
                        Ok(
                            MState {
                                dets: m0.dets.push(b),
                                detc: m0.detc.push(
                                    crate::coords::add_offset_spec(args, m0.offset),
                                ),
                                ..m0
                            },
                        )
                    }
                },
            }
        },
        OpCode::CObservable => {
            match xor_recs_spec(m0.rec, ts, ts.len() as int) {
                Err(e) => Err(e),
                Ok(b) => Ok(
                    MState {
                        obs: m0.obs.push(((trunc_u32_spec(arg0_or_zero(args)) as u32), b)),
                        ..m0
                    },
                ),
            }
        },
        OpCode::CUnknown => Err(ExecError::UnsupportedInstruction),
    }
}

/// One instruction's random draws: one `OpDraws` for an operation, one
/// trace list per unrolled iteration for a repeat block.
#[verifier::ext_equal]
pub ghost enum RunTrace {
    TOp(OpDraws),
    TRepeat(Seq<Seq<RunTrace>>),
}

/// The draws a trace carries fit the instruction: right shapes, honest
/// 53-bit words, choices within each channel's range.
pub open spec fn trace_ok(i: StimInstr, t: RunTrace) -> bool
    decreases i, 0nat,
{
    match i {
        StimInstr::Op { name, targets, .. } => t matches RunTrace::TOp(w) && op_draws_ok(
            name@,
            targets@,
            w,
        ),
        StimInstr::Repeat { count, body } => t matches RunTrace::TRepeat(its) && its.len()
            == count && forall|j: int| 0 <= j < its.len() ==> list_trace_ok(body@, #[trigger] its[j]),
    }
}

pub open spec fn list_trace_ok(l: Seq<StimInstr>, trs: Seq<RunTrace>) -> bool
    decreases l, 1nat,
{
    trs.len() == l.len() && forall|k: int| 0 <= k < l.len() ==> trace_ok(#[trigger] l[k], trs[k])
}

pub open spec fn op_draws_ok(name: Seq<char>, ts: Seq<StimTarget>, w: OpDraws) -> bool {
    match op_code_spec(name) {
        OpCode::CM | OpCode::CMx | OpCode::CMy => w.rands.len() == ts.len(),
        OpCode::CXError | OpCode::CZError | OpCode::CDep1 => w.draws.len() == ts.len() && forall|
            j: int,
        | 0 <= j < w.draws.len() ==> (#[trigger] w.draws[j]).0 < TWO_POW_53 && w.draws[j].1 < 3,
        OpCode::CDep2 => w.draws.len() == ts.len() / 2 && forall|j: int|
            0 <= j < w.draws.len() ==> (#[trigger] w.draws[j]).0 < TWO_POW_53 && w.draws[j].1 < 15,
        _ => true,
    }
}

/// Runs a block of instructions under a trace of draws: the spec-level
/// mirror of the executor's dispatch loop, one shared state throughout,
/// the first error aborting the block.
pub open spec fn block_run(m0: MState, l: Seq<StimInstr>, trs: Seq<RunTrace>) -> Result<
    MState,
    ExecError,
>
    decreases l, 0nat, 0nat,
{
    if l.len() == 0 {
        Ok(m0)
    } else {
        match instr_run(m0, l[0], trs[0]) {
            Ok(m1) => block_run(m1, l.drop_first(), trs.drop_first()),
            Err(e) => Err(e),
        }
    }
}

/// Runs one instruction under its trace.
pub open spec fn instr_run(m0: MState, i: StimInstr, t: RunTrace) -> Result<MState, ExecError>
    decreases i, 1nat, 0nat,
{
    match i {
        StimInstr::Op { name, args, targets, .. } => match t {
            RunTrace::TOp(w) => op_step(m0, name@, args@, targets@, w),
            RunTrace::TRepeat(_) => op_step(
                m0,
                name@,
                args@,
                targets@,
                OpDraws { rands: Seq::empty(), draws: Seq::empty() },
            ),
        },
        StimInstr::Repeat { count, body } => match t {
            RunTrace::TRepeat(its) => repeat_run(m0, count as int, body@, its, 0),
            RunTrace::TOp(_) => repeat_run(m0, count as int, body@, Seq::empty(), 0),
        },
    }
}

/// Runs iterations `j..c` of a repeat body, each under its own trace.
pub open spec fn repeat_run(
    m0: MState,
    c: int,
    body: Seq<StimInstr>,
    its: Seq<Seq<RunTrace>>,
    j: int,
) -> Result<MState, ExecError>
    decreases body, 2nat, c - j,
{
    if j >= c {
        Ok(m0)
    } else {
        match block_run(m0, body, its[j]) {
            Ok(m1) => repeat_run(m1, c, body, its, j + 1),
            Err(e) => Err(e),
        }
    }
}

/// A block run reads exactly one trace per instruction.
proof fn lemma_block_run_congruent(
    m0: MState,
    l: Seq<StimInstr>,
    t1: Seq<RunTrace>,
    t2: Seq<RunTrace>,
)
    requires
        t1.len() >= l.len(),
        t2.len() >= l.len(),
        forall|k: int| 0 <= k < l.len() ==> t1[k] == t2[k],
    ensures
        block_run(m0, l, t1) == block_run(m0, l, t2),
    decreases l.len(),
{
    if l.len() > 0 {
        assert(t1[0] == t2[0]);
        assert forall|k: int| 0 <= k < l.drop_first().len() implies t1.drop_first()[k]
            == t2.drop_first()[k] by {
            assert(t1[k + 1] == t2[k + 1]);
        }
        match instr_run(m0, l[0], t1[0]) {
            Ok(m1) => {
                lemma_block_run_congruent(m1, l.drop_first(), t1.drop_first(), t2.drop_first());
            },
            Err(_) => {},
        }
    }
}

/// Appending to a block appends to its run.
proof fn lemma_block_run_append(
    m0: MState,
    l1: Seq<StimInstr>,
    l2: Seq<StimInstr>,
    t1: Seq<RunTrace>,
    t2: Seq<RunTrace>,
)
    requires
        t1.len() == l1.len(),
    ensures
        block_run(m0, l1 + l2, t1 + t2) == (match block_run(m0, l1, t1) {
            Ok(m1) => block_run(m1, l2, t2),
            Err(e) => Err(e),
        }),
    decreases l1.len(),
{
    if l1.len() == 0 {
        assert(l1 + l2 =~= l2);
        assert(t1 + t2 =~= t2);
    } else {
        assert((l1 + l2)[0] == l1[0]);
        assert((t1 + t2)[0] == t1[0]);
        assert((l1 + l2).drop_first() =~= l1.drop_first() + l2);
        assert((t1 + t2).drop_first() =~= t1.drop_first() + t2);
        match instr_run(m0, l1[0], t1[0]) {
            Ok(m1) => {
                lemma_block_run_append(m1, l1.drop_first(), l2, t1.drop_first(), t2);
            },
            Err(_) => {},
        }
    }
}

/// One more iteration after `c` completed ones extends a repeat run.
proof fn lemma_repeat_run_snoc(
    m0: MState,
    c: int,
    body: Seq<StimInstr>,
    its: Seq<Seq<RunTrace>>,
    tr: Seq<RunTrace>,
    j: int,
)
    requires
        0 <= j <= c,
        its.len() == c,
    ensures
        repeat_run(m0, c + 1, body, its.push(tr), j) == (match repeat_run(m0, c, body, its, j) {
            Ok(m1) => block_run(m1, body, tr),
            Err(e) => Err(e),
        }),
    decreases c - j,
{
    if j == c {
        assert(its.push(tr)[j] == tr);
        match block_run(m0, body, tr) {
            Ok(m1) => {
                assert(repeat_run(m1, c + 1, body, its.push(tr), j + 1) == Ok::<
                    MState,
                    ExecError,
                >(m1));
            },
            Err(_) => {},
        }
    } else {
        assert(its.push(tr)[j] == its[j]);
        match block_run(m0, body, its[j]) {
            Ok(m1) => {
                lemma_repeat_run_snoc(m1, c, body, its, tr, j + 1);
            },
            Err(_) => {},
        }
    }
}

/// A repeat run reads only the iterations from `j` on.
proof fn lemma_repeat_run_congruent(
    m0: MState,
    c: int,
    body: Seq<StimInstr>,
    i1: Seq<Seq<RunTrace>>,
    i2: Seq<Seq<RunTrace>>,
    j: int,
)
    requires
        forall|k: int| j <= k < c ==> i1[k] == i2[k],
    ensures
        repeat_run(m0, c, body, i1, j) == repeat_run(m0, c, body, i2, j),
    decreases c - j,
{
    if j < c {
        match block_run(m0, body, i1[j]) {
            Ok(m1) => {
                lemma_repeat_run_congruent(m1, c, body, i1, i2, j + 1);
            },
            Err(_) => {},
        }
    }
}

/// The operations the executor recognizes.
#[derive(Debug, Clone, Copy, PartialEq, Eq, Structural)]
pub enum OpCode {
    CH,
    CS,
    CSDag,
    CX,
    CY,
    CZGate,
    CCx,
    CCz,
    CM,
    CMx,
    CMy,
    CXError,
    CZError,
    CDep1,
    CDep2,
    CQubitCoords,
    CShiftCoords,
    CTick,
    CDetector,
    CObservable,
    CUnknown,
}

/// Dispatch by name; `CX` and `CNOT` are the same gate.
pub open spec fn op_code_spec(s: Seq<char>) -> OpCode {
    if s == "H"@ {
        OpCode::CH
    } else if s == "S"@ {
        OpCode::CS
    } else if s == "S_DAG"@ {
        OpCode::CSDag
    } else if s == "X"@ {
        OpCode::CX
    } else if s == "Y"@ {
        OpCode::CY
    } else if s == "Z"@ {
        OpCode::CZGate
    } else if s == "CX"@ || s == "CNOT"@ {
        OpCode::CCx
    } else if s == "CZ"@ {
        OpCode::CCz
    } else if s == "M"@ {
        OpCode::CM
    } else if s == "MX"@ {
        OpCode::CMx
    } else if s == "MY"@ {
        OpCode::CMy
    } else if s == "X_ERROR"@ {
        OpCode::CXError
    } else if s == "Z_ERROR"@ {
        OpCode::CZError
    } else if s == "DEPOLARIZE1"@ {
        OpCode::CDep1
    } else if s == "DEPOLARIZE2"@ {
        OpCode::CDep2
    } else if s == "QUBIT_COORDS"@ {
        OpCode::CQubitCoords
    } else if s == "SHIFT_COORDS"@ {
        OpCode::CShiftCoords
    } else if s == "TICK"@ {
        OpCode::CTick
    } else if s == "DETECTOR"@ {
        OpCode::CDetector
    } else if s == "OBSERVABLE_INCLUDE"@ {
        OpCode::CObservable
    } else {
        OpCode::CUnknown
    }
}

fn name_is(name: &String, lit: &str) -> (r: bool)
    ensures
        r == (name@ == lit@),
{
    *name == lit.to_owned()
}

/// The operation an instruction name selects.
pub fn op_code(name: &String) -> (r: OpCode)
    ensures
        r == op_code_spec(name@),
{
    if name_is(name, "H") {
        OpCode::CH
    } else if name_is(name, "S") {
        OpCode::CS
    } else if name_is(name, "S_DAG") {
        OpCode::CSDag
    } else if name_is(name, "X") {
        OpCode::CX
    } else if name_is(name, "Y") {
        OpCode::CY
    } else if name_is(name, "Z") {
        OpCode::CZGate
    } else if name_is(name, "CX") || name_is(name, "CNOT") {
        OpCode::CCx
    } else if name_is(name, "CZ") {
        OpCode::CCz
    } else if name_is(name, "M") {
        OpCode::CM
    } else if name_is(name, "MX") {
        OpCode::CMx
    } else if name_is(name, "MY") {
        OpCode::CMy
    } else if name_is(name, "X_ERROR") {
        OpCode::CXError
    } else if name_is(name, "Z_ERROR") {
        OpCode::CZError
    } else if name_is(name, "DEPOLARIZE1") {
        OpCode::CDep1
    } else if name_is(name, "DEPOLARIZE2") {
        OpCode::CDep2
    } else if name_is(name, "QUBIT_COORDS") {
        OpCode::CQubitCoords
    } else if name_is(name, "SHIFT_COORDS") {
        OpCode::CShiftCoords
    } else if name_is(name, "TICK") {
        OpCode::CTick
    } else if name_is(name, "DETECTOR") {
        OpCode::CDetector
    } else if name_is(name, "OBSERVABLE_INCLUDE") {
        OpCode::CObservable
    } else {
        OpCode::CUnknown
    }
}

/// The noise probability: the first argument, or zero when there is none.
fn noise_threshold(args: &Vec<Decimal>) -> (r: u64)
    requires
        all_inv(args@),
    ensures
        r <= TWO_POW_53,
        r == threshold_spec(
            if args@.len() > 0 {
                args@[0]
            } else {
                crate::coords::dec_zero()
            },
        ),
{
    let p = if args.len() > 0 {
        args[0]
    } else {
        Decimal::zero()
    };
    crate::decimal::bernoulli_threshold(&p)
}

/// Dispatches one named operation against the shared state. The exact
/// effect of each operation stands on the operation's own function; here
/// the contract keeps the state invariant, the record append-only, and
/// names the unsupported-instruction error exactly.
/// Pointwise-updated lookups make the inserted map.
proof fn lemma_qc_map_update(
    qcnew: Seq<(u32, Vec<Decimal>)>,
    qcold: Seq<(u32, Vec<Decimal>)>,
    ts: Seq<StimTarget>,
    cv: Seq<Decimal>,
)
    requires
        qc_updated(qcnew, qcold, ts, cv),
    ensures
        qc_as_map(qcnew) == qc_insert_all(qc_as_map(qcold), ts, cv),
{
    let mn = qc_as_map(qcnew);
    let mi = qc_insert_all(qc_as_map(qcold), ts, cv);
    assert forall|k: u32| mn.dom().contains(k) <==> mi.dom().contains(k) by {
        assert(lookup_qc(qcnew, k) == (if has_qubit(ts, k) {
            Some(cv)
        } else {
            lookup_qc(qcold, k)
        }));
    }
    assert forall|k: u32| #[trigger] mn.dom().contains(k) implies mn[k] == mi[k] by {
        assert(lookup_qc(qcnew, k) == (if has_qubit(ts, k) {
            Some(cv)
        } else {
            lookup_qc(qcold, k)
        }));
    }
    assert(mn =~= mi);
}

/// Dispatches one named operation against the shared state. The result —
/// state and outcome alike — is `op_step` of the state before, for some
/// admissible draw sequence; errors other than the measurement fault leave
/// the state untouched.
#[verifier::rlimit(100)]
pub fn exec_op(
    sim: &mut SimState,
    name: &String,
    args: &Vec<Decimal>,
    targets: &Vec<StimTarget>,
    rng: &mut rand::rngs::StdRng,
) -> (r: Result<(), ExecError>)
    requires
        old(sim).inv(),
        all_inv(args@),
        targets_in_range(targets@, old(sim).tab@.n),
    ensures
        final(sim).inv(),
        final(sim).tab@.n == old(sim).tab@.n,
        old(sim).rec@.is_prefix_of(final(sim).rec@),
        (r == Err::<(), ExecError>(ExecError::UnsupportedInstruction)) <==> (op_code_spec(name@)
            is CUnknown),
        r matches Err(e) ==> (e == ExecError::InvariantViolation || *final(sim) == *old(sim)),
        r matches Ok(()) ==> exists|w: OpDraws|
            #[trigger] op_draws_ok(name@, targets@, w) && op_step(
                old(sim).mview(),
                name@,
                args@,
                targets@,
                w,
            ) == Ok::<MState, ExecError>(final(sim).mview()),
        r matches Err(e) ==> exists|w: OpDraws|
            #[trigger] op_draws_ok(name@, targets@, w) && op_step(
                old(sim).mview(),
                name@,
                args@,
                targets@,
                w,
            ) == Err::<MState, ExecError>(e),
{
    let ghost m0 = old(sim).mview();
    let ghost w0 = OpDraws { rands: Seq::empty(), draws: Seq::empty() };
    let code = op_code(name);
    match code {
        OpCode::CH | OpCode::CS | OpCode::CSDag | OpCode::CX | OpCode::CY | OpCode::CZGate => {
            let g = match code {
                OpCode::CH => Gate1::GH,
                OpCode::CS => Gate1::GS,
                OpCode::CSDag => Gate1::GSDag,
                OpCode::CX => Gate1::GX,
                OpCode::CY => Gate1::GY,
                _ => Gate1::GZ,
            };
            let qs = match qubits(targets) {
                Ok(qs) => qs,
                Err(e) => {
                    proof {
                        let bad = choose|k: int|
                            0 <= k < targets@.len() && !is_qubit(#[trigger] targets@[k]);
                        assert(!all_qubits(targets@));
                        assert(op_draws_ok(name@, targets@, w0) && op_step(
                            m0,
                            name@,
                            args@,
                            targets@,
                            w0,
                        ) == Err::<MState, ExecError>(e));
                    }
                    return Err(e);
                },
            };
            proof {
                assert forall|k: int| 0 <= k < qs@.len() implies (#[trigger] qs@[k])
                    < sim.tab@.n by {
                    assert(qubit_of(targets@[k]) < sim.tab@.n);
                }
                assert(all_qubits(targets@));
                assert(qs@ =~= qubit_seq(targets@));
            }
            let r = apply_gate1(&mut sim.tab, g, &qs);
            proof {
                assert(sim.mview() =~~= MState {
                    tab: gate1_fold(m0.tab, g, qubit_seq(targets@), targets@.len() as int),
                    ..m0
                });
                assert(op_draws_ok(name@, targets@, w0) && op_step(m0, name@, args@, targets@, w0)
                    == Ok::<MState, ExecError>(sim.mview()));
            }
            r
        },
        OpCode::CCx | OpCode::CCz => {
            let g = match code {
                OpCode::CCx => Gate2::GCx,
                _ => Gate2::GCz,
            };
            let ps = match qubit_pairs(targets) {
                Ok(ps) => ps,
                Err(e) => {
                    proof {
                        if e == ExecError::ExpectedQubitTarget {
                            let bad = choose|k: int|
                                0 <= k < targets@.len() && !is_qubit(#[trigger] targets@[k]);
                            assert(!all_qubits(targets@));
                        }
                        assert(op_draws_ok(name@, targets@, w0) && op_step(
                            m0,
                            name@,
                            args@,
                            targets@,
                            w0,
                        ) == Err::<MState, ExecError>(e));
                    }
                    return Err(e);
                },
            };
            proof {
                assert forall|k: int| 0 <= k < ps@.len() implies (#[trigger] ps@[k]).0 < sim.tab@.n
                    && ps@[k].1 < sim.tab@.n by {
                    assert(qubit_of(targets@[2 * k]) < sim.tab@.n);
                    assert(qubit_of(targets@[2 * k + 1]) < sim.tab@.n);
                }
                assert forall|k: int| 0 <= k < targets@.len() implies is_qubit(
                    #[trigger] targets@[k],
                ) by {
                    let half = k / 2;
                    assert(2 * half == k || 2 * half + 1 == k);
                    assert(is_qubit(targets@[2 * half]) && is_qubit(targets@[2 * half + 1]));
                }
                assert(all_qubits(targets@));
                assert(ps@ =~= pair_seq(targets@));
            }
            let r = apply_gate2(&mut sim.tab, g, &ps);
            proof {
                assert(sim.mview() =~~= MState {
                    tab: gate2_fold(m0.tab, g, pair_seq(targets@), targets@.len() as int / 2),
                    ..m0
                });
                assert(op_draws_ok(name@, targets@, w0) && op_step(m0, name@, args@, targets@, w0)
                    == Ok::<MState, ExecError>(sim.mview()));
            }
            r
        },
        OpCode::CM | OpCode::CMx | OpCode::CMy => {
            let kind = match code {
                OpCode::CM => MeasKind::MZ,
                OpCode::CMx => MeasKind::MXBasis,
                _ => MeasKind::MYBasis,
            };
            let ts = match meas_targets(targets) {
                Ok(ts) => ts,
                Err(e) => {
                    proof {
                        let bad = choose|k: int|
                            0 <= k < targets@.len() && !is_meas_target(#[trigger] targets@[k]);
                        assert(!all_meas(targets@));
                        let w = OpDraws {
                            rands: Seq::new(targets@.len(), |j: int| false),
                            draws: Seq::empty(),
                        };
                        assert(op_draws_ok(name@, targets@, w) && op_step(
                            m0,
                            name@,
                            args@,
                            targets@,
                            w,
                        ) == Err::<MState, ExecError>(e));
                    }
                    return Err(e);
                },
            };
            proof {
                assert forall|k: int| 0 <= k < ts@.len() implies (#[trigger] ts@[k]).0
                    < sim.tab@.n by {
                    assert(qubit_of(targets@[k]) < sim.tab@.n);
                }
                assert(all_meas(targets@));
                assert(ts@ =~= mt_seq(targets@));
            }
            let r = measure_list(&mut sim.tab, &mut sim.rec, kind, &ts, rng);
            proof {
                assert(old(sim).rec@.is_prefix_of(sim.rec@));
                match r {
                    Ok(()) => {
                        let rands = choose|rands: Seq<bool>|
                            rands.len() == ts@.len() && meas_fold_ok(
                                kind,
                                m0.tab,
                                ts@,
                                rands,
                                ts@.len() as int,
                            ) && sim.tab@ == meas_fold(kind, m0.tab, ts@, rands, ts@.len() as int).0
                                && sim.rec@ == m0.rec + meas_fold(
                                kind,
                                m0.tab,
                                ts@,
                                rands,
                                ts@.len() as int,
                            ).1;
                        let w = OpDraws { rands, draws: Seq::empty() };
                        assert(sim.mview() =~~= MState {
                            tab: meas_fold(kind, m0.tab, mt_seq(targets@), rands, targets@.len() as int).0,
                            rec: m0.rec + meas_fold(
                                kind,
                                m0.tab,
                                mt_seq(targets@),
                                rands,
                                targets@.len() as int,
                            ).1,
                            ..m0
                        });
                        assert(op_draws_ok(name@, targets@, w) && op_step(
                            m0,
                            name@,
                            args@,
                            targets@,
                            w,
                        ) == Ok::<MState, ExecError>(sim.mview()));
                    },
                    Err(e) => {
                        let rands = choose|rands: Seq<bool>|
                            rands.len() == ts@.len() && !meas_fold_ok(
                                kind,
                                m0.tab,
                                ts@,
                                rands,
                                ts@.len() as int,
                            );
                        let w = OpDraws { rands, draws: Seq::empty() };
                        assert(op_draws_ok(name@, targets@, w) && op_step(
                            m0,
                            name@,
                            args@,
                            targets@,
                            w,
                        ) == Err::<MState, ExecError>(e));
                    },
                }
            }
            r
        },
        OpCode::CXError | OpCode::CZError | OpCode::CDep1 => {
            let kind = match code {
                OpCode::CXError => Noise1::NX,
                OpCode::CZError => Noise1::NZ,
                _ => Noise1::NDep,
            };
            let qs = match qubits(targets) {
                Ok(qs) => qs,
                Err(e) => {
                    proof {
                        let bad = choose|k: int|
                            0 <= k < targets@.len() && !is_qubit(#[trigger] targets@[k]);
                        assert(!all_qubits(targets@));
                        let w = OpDraws {
                            rands: Seq::empty(),
                            draws: Seq::new(targets@.len(), |j: int| (0u64, 0u32)),
                        };
                        assert(op_draws_ok(name@, targets@, w) && op_step(
                            m0,
                            name@,
                            args@,
                            targets@,
                            w,
                        ) == Err::<MState, ExecError>(e));
                    }
                    return Err(e);
                },
            };
            proof {
                assert forall|k: int| 0 <= k < qs@.len() implies (#[trigger] qs@[k])
                    < sim.tab@.n by {
                    assert(qubit_of(targets@[k]) < sim.tab@.n);
                }
                assert(all_qubits(targets@));
                assert(qs@ =~= qubit_seq(targets@));
            }
            let thr = noise_threshold(args);
            let r = apply_noise1(&mut sim.tab, kind, &qs, thr, rng);
            proof {
                let draws = choose|draws: Seq<(u64, u32)>|
                    draws.len() == qs@.len() && (forall|j: int|
                        0 <= j < draws.len() ==> (#[trigger] draws[j]).0 < TWO_POW_53 && draws[j].1
                            < 3) && sim.tab@ == noise1_fold(
                        m0.tab,
                        kind,
                        qs@,
                        thr as int,
                        draws,
                        qs@.len() as int,
                    );
                let w = OpDraws { rands: Seq::empty(), draws };
                assert(sim.mview() =~~= MState {
                    tab: noise1_fold(
                        m0.tab,
                        kind,
                        qubit_seq(targets@),
                        threshold_spec(arg0_or_zero(args@)) as int,
                        draws,
                        targets@.len() as int,
                    ),
                    ..m0
                });
                assert(op_draws_ok(name@, targets@, w) && op_step(m0, name@, args@, targets@, w)
                    == Ok::<MState, ExecError>(sim.mview()));
            }
            r
        },
        OpCode::CDep2 => {
            let ps = match qubit_pairs(targets) {
                Ok(ps) => ps,
                Err(e) => {
                    proof {
                        if e == ExecError::ExpectedQubitTarget {
                            let bad = choose|k: int|
                                0 <= k < targets@.len() && !is_qubit(#[trigger] targets@[k]);
                            assert(!all_qubits(targets@));
                        }
                        let w = OpDraws {
                            rands: Seq::empty(),
                            draws: Seq::new(targets@.len() / 2, |j: int| (0u64, 0u32)),
                        };
                        assert(op_draws_ok(name@, targets@, w) && op_step(
                            m0,
                            name@,
                            args@,
                            targets@,
                            w,
                        ) == Err::<MState, ExecError>(e));
                    }
                    return Err(e);
                },
            };
            proof {
                assert forall|k: int| 0 <= k < ps@.len() implies (#[trigger] ps@[k]).0 < sim.tab@.n
                    && ps@[k].1 < sim.tab@.n by {
                    assert(qubit_of(targets@[2 * k]) < sim.tab@.n);
                    assert(qubit_of(targets@[2 * k + 1]) < sim.tab@.n);
                }
                assert forall|k: int| 0 <= k < targets@.len() implies is_qubit(
                    #[trigger] targets@[k],
                ) by {
                    let half = k / 2;
                    assert(2 * half == k || 2 * half + 1 == k);
                    assert(is_qubit(targets@[2 * half]) && is_qubit(targets@[2 * half + 1]));
                }
                assert(all_qubits(targets@));
                assert(ps@ =~= pair_seq(targets@));
            }
            let thr = noise_threshold(args);
            let r = apply_noise2(&mut sim.tab, &ps, thr, rng);
            proof {
                let draws = choose|draws: Seq<(u64, u32)>|
                    draws.len() == ps@.len() && (forall|j: int|
                        0 <= j < draws.len() ==> (#[trigger] draws[j]).0 < TWO_POW_53 && draws[j].1
                            < 15) && sim.tab@ == noise2_fold(
                        m0.tab,
                        ps@,
                        thr as int,
                        draws,
                        ps@.len() as int,
                    );
                let w = OpDraws { rands: Seq::empty(), draws };
                assert(sim.mview() =~~= MState {
                    tab: noise2_fold(
                        m0.tab,
                        pair_seq(targets@),
                        threshold_spec(arg0_or_zero(args@)) as int,
                        draws,
                        targets@.len() as int / 2,
                    ),
                    ..m0
                });
                assert(op_draws_ok(name@, targets@, w) && op_step(m0, name@, args@, targets@, w)
                    == Ok::<MState, ExecError>(sim.mview()));
            }
            r
        },
        OpCode::CQubitCoords => {
            let r = op_qubit_coords(sim, args, targets);
            proof {
                match r {
                    Ok(()) => {
                        lemma_qc_map_update(
                            sim.coords.qubit_coords@,
                            old(sim).coords.qubit_coords@,
                            targets@,
                            crate::coords::add_offset_spec(args@, old(sim).coords.offset@),
                        );
                        assert(qc_as_map(sim.coords.qubit_coords@) == qc_insert_all(
                            m0.qc,
                            targets@,
                            crate::coords::add_offset_spec(args@, m0.offset),
                        ));
                        assert(sim.mview() =~~= MState {
                            qc: qc_insert_all(
                                m0.qc,
                                targets@,
                                crate::coords::add_offset_spec(args@, m0.offset),
                            ),
                            ..m0
                        });
                        assert(op_draws_ok(name@, targets@, w0));
                        assert(all_qubits(targets@));
                        assert(!crate::coords::offset_overflows(args@, m0.offset));
                        assert(op_step(m0, name@, args@, targets@, w0) == Ok::<
                            MState,
                            ExecError,
                        >(MState {
                            qc: qc_insert_all(
                                m0.qc,
                                targets@,
                                crate::coords::add_offset_spec(args@, m0.offset),
                            ),
                            ..m0
                        }));
                        assert(op_step(m0, name@, args@, targets@, w0) == Ok::<
                            MState,
                            ExecError,
                        >(sim.mview()));
                    },
                    Err(e) => {
                        assert(op_draws_ok(name@, targets@, w0) && op_step(
                            m0,
                            name@,
                            args@,
                            targets@,
                            w0,
                        ) == Err::<MState, ExecError>(e));
                    },
                }
            }
            r
        },
        OpCode::CShiftCoords => {
            match sim.coords.shift(args) {
                Ok(()) => {
                    proof {
                        assert(sim.mview() =~~= MState {
                            offset: crate::coords::add_offset_spec(m0.offset, args@),
                            ..m0
                        });
                        assert(op_draws_ok(name@, targets@, w0) && op_step(
                            m0,
                            name@,
                            args@,
                            targets@,
                            w0,
                        ) == Ok::<MState, ExecError>(sim.mview()));
                    }
                    Ok(())
                },
                Err(()) => {
                    proof {
                        assert(*sim == *old(sim));
                        assert(op_draws_ok(name@, targets@, w0) && op_step(
                            m0,
                            name@,
                            args@,
                            targets@,
                            w0,
                        ) == Err::<MState, ExecError>(ExecError::CoordOverflow));
                    }
                    Err(ExecError::CoordOverflow)
                },
            }
        },
        OpCode::CTick => {
            sim.coords.tick_incr();
            proof {
                assert(sim.mview() =~~= MState {
                    tick: if m0.tick < 0x7fff_ffff_ffff_ffffi64 {
                        m0.tick + 1
                    } else {
                        m0.tick
                    },
                    ..m0
                });
                assert(op_draws_ok(name@, targets@, w0) && op_step(m0, name@, args@, targets@, w0)
                    == Ok::<MState, ExecError>(sim.mview()));
            }
            Ok(())
        },
        OpCode::CDetector => {
            let r = op_detector(sim, args, targets);
            proof {
                lemma_xor_recs_err_kind(old(sim).rec@, targets@, targets@.len() as int);
                match r {
                    Ok(()) => {
                        match xor_recs_spec(m0.rec, targets@, targets@.len() as int) {
                            Ok(b) => {
                                assert(Seq::new(
                                    sim.det_coords@.len(),
                                    |i: int| sim.det_coords@[i]@,
                                ) =~= m0.detc.push(
                                    crate::coords::add_offset_spec(args@, m0.offset),
                                ));
                                assert(sim.mview() =~~= MState {
                                    dets: m0.dets.push(b),
                                    detc: m0.detc.push(
                                        crate::coords::add_offset_spec(args@, m0.offset),
                                    ),
                                    ..m0
                                });
                            },
                            Err(_) => {
                                assert(false);
                            },
                        }
                        assert(op_draws_ok(name@, targets@, w0) && op_step(
                            m0,
                            name@,
                            args@,
                            targets@,
                            w0,
                        ) == Ok::<MState, ExecError>(sim.mview()));
                    },
                    Err(e) => {
                        assert(op_draws_ok(name@, targets@, w0) && op_step(
                            m0,
                            name@,
                            args@,
                            targets@,
                            w0,
                        ) == Err::<MState, ExecError>(e));
                    },
                }
            }
            r
        },
        OpCode::CObservable => {
            let r = op_observable(sim, args, targets);
            proof {
                lemma_xor_recs_err_kind(old(sim).rec@, targets@, targets@.len() as int);
                match r {
                    Ok(()) => {
                        let p = arg0_or_zero(args@);
                        crate::decimal::lemma_pow10_positive(p.scale as nat);
                        if p.mant > 0 {
                            assert((p.mant as int) / (crate::decimal::pow10(p.scale as nat) as int)
                                >= 0) by (nonlinear_arith)
                                requires
                                    p.mant > 0,
                                    crate::decimal::pow10(p.scale as nat) >= 1,
                            ;
                        }
                        assert(0 <= trunc_u32_spec(p) <= 0xffff_ffff);
                        assert(sim.mview() =~~= MState {
                            obs: m0.obs.push(
                                (
                                    (trunc_u32_spec(arg0_or_zero(args@)) as u32),
                                    match xor_recs_spec(m0.rec, targets@, targets@.len() as int) {
                                        Ok(b) => b,
                                        Err(_) => false,
                                    },
                                ),
                            ),
                            ..m0
                        });
                        assert(op_draws_ok(name@, targets@, w0) && op_step(
                            m0,
                            name@,
                            args@,
                            targets@,
                            w0,
                        ) == Ok::<MState, ExecError>(sim.mview()));
                    },
                    Err(e) => {
                        assert(op_draws_ok(name@, targets@, w0) && op_step(
                            m0,
                            name@,
                            args@,
                            targets@,
                            w0,
                        ) == Err::<MState, ExecError>(e));
                    },
                }
            }
            r
        },
        OpCode::CUnknown => {
            proof {
                assert(op_draws_ok(name@, targets@, w0) && op_step(m0, name@, args@, targets@, w0)
                    == Err::<MState, ExecError>(ExecError::UnsupportedInstruction));
            }
            Err(ExecError::UnsupportedInstruction)
        },
    }
}

/// Iterations split: running `c` passes is running the first `j`, then
/// the rest.
proof fn lemma_repeat_run_split(
    m0: MState,
    c: int,
    body: Seq<StimInstr>,
    its: Seq<Seq<RunTrace>>,
    lo: int,
    j: int,
)
    requires
        lo <= j <= c,
    ensures
        repeat_run(m0, c, body, its, lo) == (match repeat_run(m0, j, body, its, lo) {
            Ok(m1) => repeat_run(m1, c, body, its, j),
            Err(e) => Err(e),
        }),
    decreases j - lo,
{
    if lo < j {
        match block_run(m0, body, its[lo]) {
            Ok(m1) => {
                lemma_repeat_run_split(m1, c, body, its, lo + 1, j);
            },
            Err(_) => {},
        }
    }
}

/// Bounds on the list's maximum-qubit bound hold of every element.
proof fn lemma_targets_bound(ts: Seq<StimTarget>, k: int, n: int)
    requires
        0 <= k <= ts.len(),
        targets_max_bound(ts, ts.len() as int) <= n,
    ensures
        forall|j: int|
            0 <= j < k && is_meas_target(#[trigger] ts[j]) ==> qubit_of(ts[j]) < n,
    decreases k,
{
    assert forall|j: int| 0 <= j < k && is_meas_target(#[trigger] ts[j]) implies qubit_of(ts[j])
        < n by {
        lemma_targets_mono(ts, j + 1, ts.len() as int);
        lemma_targets_nonneg(ts, j);
        assert(targets_max_bound(ts, j + 1) >= qubit_of(ts[j]) + 1);
    }
}

proof fn lemma_targets_nonneg(ts: Seq<StimTarget>, k: int)
    ensures
        targets_max_bound(ts, k) >= 0,
    decreases k,
{
    if k > 0 {
        lemma_targets_nonneg(ts, k - 1);
    }
}

proof fn lemma_targets_mono(ts: Seq<StimTarget>, a: int, b: int)
    requires
        a <= b,
    ensures
        targets_max_bound(ts, a) <= targets_max_bound(ts, b),
    decreases b,
{
    if a < b && b > 0 {
        lemma_targets_mono(ts, a, b - 1);
    }
}

proof fn lemma_list_nonneg(l: Seq<StimInstr>, k: int)
    ensures
        list_max_bound(l, k) >= 0,
    decreases l, k,
{
    if k > 0 {
        lemma_list_nonneg(l, k - 1);
    }
}

proof fn lemma_list_mono(l: Seq<StimInstr>, a: int, b: int)
    requires
        a <= b,
    ensures
        list_max_bound(l, a) <= list_max_bound(l, b),
    decreases b,
{
    if a < b && b > 0 {
        lemma_list_mono(l, a, b - 1);
    }
}

/// Every qubit an instruction names lies below its own maximum bound, and
/// so below any larger `n`.
proof fn lemma_instr_bound(i: StimInstr, n: int)
    requires
        instr_max_bound(i) <= n,
        0 <= n,
    ensures
        instr_in_range(i, n as nat),
    decreases i,
{
    match i {
        StimInstr::Op { targets, .. } => {
            lemma_targets_bound(targets@, targets@.len() as int, n);
        },
        StimInstr::Repeat { body, .. } => {
            lemma_list_bound(body@, n);
        },
    }
}

proof fn lemma_list_bound(l: Seq<StimInstr>, n: int)
    requires
        list_max_bound(l, l.len() as int) <= n,
        0 <= n,
    ensures
        list_in_range(l, n as nat),
    decreases l, l.len(),
{
    assert forall|j: int| 0 <= j < l.len() implies instr_in_range(#[trigger] l[j], n as nat) by {
        lemma_list_elem_bound(l, j + 1, n);
        lemma_instr_bound(l[j], n);
    }
}

proof fn lemma_list_elem_bound(l: Seq<StimInstr>, k: int, n: int)
    requires
        1 <= k <= l.len(),
        list_max_bound(l, l.len() as int) <= n,
    ensures
        instr_max_bound(l[k - 1]) <= n,
    decreases l, l.len() + 1, k,
{
    lemma_list_mono(l, k, l.len() as int);
    lemma_list_nonneg(l, k - 1);
}

/// One above the largest qubit index the tree names; repeat bodies are
/// traversed once.
pub fn max_qubit(instrs: &Vec<StimInstr>) -> (r: u64)
    ensures
        r == list_max_bound(instrs@, instrs@.len() as int),
        r <= 0x1_0000_0000u64,
    decreases instrs@,
{
    proof {
        lemma_list_nonneg(instrs@, instrs@.len() as int);
    }
    let mut acc: u64 = 0;
    let mut i: usize = 0;
    while i < instrs.len()
        invariant
            i <= instrs@.len(),
            acc == list_max_bound(instrs@, i as int),
            acc <= 0x1_0000_0000u64,
        decreases instrs@.len() - i,
    {
        let own: u64;
        match &instrs[i] {
            StimInstr::Op { targets, .. } => {
                let mut tacc: u64 = 0;
                let mut k: usize = 0;
                while k < targets.len()
                    invariant
                        k <= targets@.len(),
                        tacc == targets_max_bound(targets@, k as int),
                        tacc <= 0x1_0000_0000u64,
                    decreases targets@.len() - k,
                {
                    match &targets[k] {
                        StimTarget::Qubit(q) => {
                            let bound = (*q as u64) + 1;
                            if bound > tacc {
                                tacc = bound;
                            }
                        },
                        StimTarget::QubitInv(q) => {
                            let bound = (*q as u64) + 1;
                            if bound > tacc {
                                tacc = bound;
                            }
                        },
                        StimTarget::Rec(_) => {},
                    }
                    k = k + 1;
                }
                proof {
                    assert(instrs@[i as int] matches StimInstr::Op { targets: t2, .. } && t2
                        == *targets);
                }
                own = tacc;
            },
            StimInstr::Repeat { body, .. } => {
                proof {
                    assert(instrs@[i as int] matches StimInstr::Repeat { body: b2, .. } && b2
                        == *body);
                    assert(decreases_to!(instrs@ => instrs@[i as int]));
                }
                own = max_qubit(body);
            },
        }
        proof {
            assert(own == instr_max_bound(instrs@[i as int]));
        }
        if own > acc {
            acc = own;
        }
        i = i + 1;
    }
    acc
}

/// Runs a block of instructions against the shared state, descending into
/// repeat bodies without forking: later iterations see earlier iterations'
/// tableau and record. The state and outcome are `block_run` of the state
/// before, under some trace of admissible draws.
pub fn run_block(
    sim: &mut SimState,
    instrs: &Vec<StimInstr>,
    rng: &mut rand::rngs::StdRng,
) -> (r: Result<(), ExecError>)
    requires
        old(sim).inv(),
        list_in_range(instrs@, old(sim).tab@.n),
        list_args_inv(instrs@),
    ensures
        final(sim).inv(),
        final(sim).tab@.n == old(sim).tab@.n,
        old(sim).rec@.is_prefix_of(final(sim).rec@),
        r matches Ok(()) ==> exists|trs: Seq<RunTrace>|
            #[trigger] list_trace_ok(instrs@, trs) && block_run(old(sim).mview(), instrs@, trs)
                == Ok::<MState, ExecError>(final(sim).mview()),
        r matches Err(e) ==> exists|trs: Seq<RunTrace>|
            trs.len() == instrs@.len() && #[trigger] block_run(old(sim).mview(), instrs@, trs)
                == Err::<MState, ExecError>(e),
    decreases instrs@,
{
    let ghost m_entry = old(sim).mview();
    let ghost mut trs: Seq<RunTrace> = Seq::empty();
    let mut i: usize = 0;
    while i < instrs.len()
        invariant
            m_entry == old(sim).mview(),
            sim.inv(),
            sim.tab@.n == old(sim).tab@.n,
            old(sim).rec@.is_prefix_of(sim.rec@),
            list_in_range(instrs@, old(sim).tab@.n),
            list_args_inv(instrs@),
            i <= instrs@.len(),
            trs.len() == i,
            list_trace_ok(instrs@.subrange(0, i as int), trs),
            block_run(m_entry, instrs@.subrange(0, i as int), trs) == Ok::<MState, ExecError>(
                sim.mview(),
            ),
        decreases instrs@.len() - i,
    {
        proof {
            assert(instr_in_range(instrs@[i as int], old(sim).tab@.n));
            assert(instr_args_inv(instrs@[i as int]));
        }
        let ghost cur = sim.mview();
        let ghost t: RunTrace;
        match &instrs[i] {
            StimInstr::Op { name, args, targets, .. } => {
                proof {
                    assert(instrs@[i as int] matches StimInstr::Op {
                        name: n2,
                        args: a2,
                        targets: t2,
                        ..
                    } && n2 == *name && a2 == *args && t2 == *targets);
                }
                match exec_op(sim, name, args, targets, rng) {
                    Ok(()) => {
                        proof {
                            let w = choose|w: OpDraws|
                                #[trigger] op_draws_ok(name@, targets@, w) && op_step(
                                    cur,
                                    name@,
                                    args@,
                                    targets@,
                                    w,
                                ) == Ok::<MState, ExecError>(sim.mview());
                            t = RunTrace::TOp(w);
                            assert(instr_run(cur, instrs@[i as int], t) == Ok::<
                                MState,
                                ExecError,
                            >(sim.mview()));
                            assert(trace_ok(instrs@[i as int], t));
                        }
                    },
                    Err(e) => {
                        proof {
                            let w = choose|w: OpDraws|
                                #[trigger] op_draws_ok(name@, targets@, w) && op_step(
                                    cur,
                                    name@,
                                    args@,
                                    targets@,
                                    w,
                                ) == Err::<MState, ExecError>(e);
                            let tf = RunTrace::TOp(w);
                            assert(instr_run(cur, instrs@[i as int], tf) == Err::<
                                MState,
                                ExecError,
                            >(e));
                            lemma_block_run_err(
                                m_entry,
                                instrs@,
                                trs,
                                i as int,
                                cur,
                                tf,
                                e,
                            );
                        }
                        return Err(e);
                    },
                }
            },
            StimInstr::Repeat { count, body } => {
                proof {
                    assert(instrs@[i as int] matches StimInstr::Repeat { count: c2, body: b2 }
                        && c2 == *count && b2 == *body);
                }
                let c = *count;
                let ghost rep_start = sim.mview();
                let ghost mut its: Seq<Seq<RunTrace>> = Seq::empty();
                let mut it: u64 = 0;
                while it < c
                    invariant
                        it <= c,
                        sim.inv(),
                        sim.tab@.n == old(sim).tab@.n,
                        old(sim).rec@.is_prefix_of(sim.rec@),
                        list_in_range(body@, old(sim).tab@.n),
                        list_args_inv(body@),
                        decreases_to!(instrs@ => body@),
                        m_entry == old(sim).mview(),
                        i < instrs@.len(),
                        trs.len() == i as int,
                        block_run(m_entry, instrs@.subrange(0, i as int), trs) == Ok::<
                            MState,
                            ExecError,
                        >(rep_start),
                        instrs@[i as int] matches StimInstr::Repeat { count: c2, body: b2 } && c2
                            == c && b2@ == body@,
                        its.len() == it,
                        forall|j: int| 0 <= j < it ==> list_trace_ok(body@, #[trigger] its[j]),
                        repeat_run(rep_start, it as int, body@, its, 0) == Ok::<
                            MState,
                            ExecError,
                        >(sim.mview()),
                    decreases c - it,
                {
                    let ghost before = sim.mview();
                    match run_block(sim, body, rng) {
                        Ok(()) => {
                            proof {
                                let tr = choose|tr: Seq<RunTrace>|
                                    #[trigger] list_trace_ok(body@, tr) && block_run(
                                        before,
                                        body@,
                                        tr,
                                    ) == Ok::<MState, ExecError>(sim.mview());
                                lemma_repeat_run_snoc(
                                    rep_start,
                                    it as int,
                                    body@,
                                    its,
                                    tr,
                                    0,
                                );
                                its = its.push(tr);
                            }
                        },
                        Err(e) => {
                            proof {
                                let tr = choose|tr: Seq<RunTrace>|
                                    tr.len() == body@.len() && #[trigger] block_run(
                                        before,
                                        body@,
                                        tr,
                                    ) == Err::<MState, ExecError>(e);
                                let full_its = its.push(tr) + Seq::new(
                                    (c - it - 1) as nat,
                                    |j: int| tr,
                                );
                                lemma_repeat_run_congruent(
                                    rep_start,
                                    it as int,
                                    body@,
                                    its,
                                    full_its,
                                    0,
                                );
                                lemma_repeat_run_split(
                                    rep_start,
                                    c as int,
                                    body@,
                                    full_its,
                                    0,
                                    it as int,
                                );
                                assert(full_its[it as int] == tr);
                                assert(repeat_run(rep_start, c as int, body@, full_its, 0)
                                    == Err::<MState, ExecError>(e));
                                let tf = RunTrace::TRepeat(full_its);
                                assert(instr_run(rep_start, instrs@[i as int], tf) == Err::<
                                    MState,
                                    ExecError,
                                >(e));
                                lemma_block_run_err(
                                    m_entry,
                                    instrs@,
                                    trs,
                                    i as int,
                                    rep_start,
                                    tf,
                                    e,
                                );
                            }
                            return Err(e);
                        },
                    }
                    it = it + 1;
                }
                proof {
                    t = RunTrace::TRepeat(its);
                    assert(instr_run(cur, instrs@[i as int], t) == Ok::<MState, ExecError>(
                        sim.mview(),
                    ));
                    assert(trace_ok(instrs@[i as int], t));
                }
            },
        }
        proof {
            lemma_block_run_append(
                m_entry,
                instrs@.subrange(0, i as int),
                seq![instrs@[i as int]],
                trs,
                seq![t],
            );
            assert(instrs@.subrange(0, i as int) + seq![instrs@[i as int]] =~= instrs@.subrange(
                0,
                i as int + 1,
            ));
            assert(block_run(sim.mview()/*unused*/, Seq::<StimInstr>::empty(), Seq::empty())
                == Ok::<MState, ExecError>(sim.mview()));
            assert(seq![instrs@[i as int]].drop_first() =~= Seq::<StimInstr>::empty());
            assert(seq![t].drop_first() =~= Seq::<RunTrace>::empty());
            assert(block_run(cur, seq![instrs@[i as int]], seq![t]) == Ok::<MState, ExecError>(
                sim.mview(),
            ));
            let ghost oldtrs = trs;
            trs = trs.push(t);
            assert(trs =~= oldtrs + seq![t]);
            assert(block_run(m_entry, instrs@.subrange(0, i as int + 1), trs) == Ok::<
                MState,
                ExecError,
            >(sim.mview()));
            assert forall|k: int| 0 <= k < i as int + 1 implies trace_ok(
                #[trigger] instrs@.subrange(0, i as int + 1)[k],
                trs[k],
            ) by {
                if k < i as int {
                    assert(trace_ok(instrs@.subrange(0, i as int)[k], oldtrs[k]));
                }
            }
            assert(list_trace_ok(instrs@.subrange(0, i as int + 1), trs));
        }
        i = i + 1;
    }
    proof {
        assert(instrs@.subrange(0, instrs@.len() as int) =~= instrs@);
    }
    Ok(())
}

/// A failing step after a completed prefix fails the whole block, under
/// the prefix's traces, the failing trace, and any padding.
proof fn lemma_block_run_err(
    m_entry: MState,
    instrs: Seq<StimInstr>,
    trs: Seq<RunTrace>,
    i: int,
    cur: MState,
    tf: RunTrace,
    e: ExecError,
)
    requires
        0 <= i < instrs.len(),
        trs.len() == i,
        block_run(m_entry, instrs.subrange(0, i), trs) == Ok::<MState, ExecError>(cur),
        instr_run(cur, instrs[i], tf) == Err::<MState, ExecError>(e),
    ensures
        exists|full: Seq<RunTrace>|
            full.len() == instrs.len() && #[trigger] block_run(m_entry, instrs, full) == Err::<
                MState,
                ExecError,
            >(e),
{
    let tail = Seq::new((instrs.len() - i) as nat, |j: int| tf);
    let full = trs + tail;
    assert(full.len() == instrs.len());
    lemma_block_run_append(m_entry, instrs.subrange(0, i), instrs.subrange(i, instrs.len() as int), trs, tail);
    assert(instrs.subrange(0, i) + instrs.subrange(i, instrs.len() as int) =~= instrs);
    assert(instrs.subrange(i, instrs.len() as int)[0] == instrs[i]);
    assert(tail[0] == tf);
    assert(block_run(cur, instrs.subrange(i, instrs.len() as int), tail) == Err::<
        MState,
        ExecError,
    >(e));
    assert(block_run(m_entry, instrs, full) == Err::<MState, ExecError>(e));
}

/// The whole measurement record, in push order./// The whole measurement record, in push order.
pub fn recorder_bits(r: &Recorder) -> (out: Vec<bool>)
    ensures
        out@ == r@,
{
    let mut out: Vec<bool> = Vec::new();
    let len = r.len();
    let mut i: usize = 0;
    while i < len
        invariant
            i <= len,
            len == r@.len(),
            out@ == r@.subrange(0, i as int),
        decreases len - i,
    {
        out.push(r.get(i));
        proof {
            assert(out@ =~= r@.subrange(0, i as int + 1));
        }
        i = i + 1;
    }
    proof {
        assert(out@ =~= r@);
    }
    out
}

/// Every decimal argument of the tree lies within the library's bounds.
fn check_args(l: &Vec<StimInstr>) -> (r: bool)
    ensures
        r == list_args_inv(l@),
    decreases l@,
{
    let mut i: usize = 0;
    while i < l.len()
        invariant
            i <= l@.len(),
            forall|k: int| 0 <= k < i ==> instr_args_inv(#[trigger] l@[k]),
        decreases l@.len() - i,
    {
        let ok: bool;
        match &l[i] {
            StimInstr::Op { args, .. } => {
                proof {
                    assert(l@[i as int] matches StimInstr::Op { args: a2, .. } && a2 == *args);
                }
                let mut k: usize = 0;
                let mut all_ok = true;
                while k < args.len()
                    invariant
                        k <= args@.len(),
                        all_ok == forall|j: int| 0 <= j < k ==> (#[trigger] args@[j]).inv(),
                    decreases args@.len() - k,
                {
                    if !args[k].is_valid() {
                        all_ok = false;
                    }
                    k = k + 1;
                }
                ok = all_ok;
            },
            StimInstr::Repeat { body, .. } => {
                proof {
                    assert(l@[i as int] matches StimInstr::Repeat { body: b2, .. } && b2 == *body);
                    assert(decreases_to!(l@ => l@[i as int]));
                }
                ok = check_args(body);
            },
        }
        if !ok {
            proof {
                assert(!instr_args_inv(l@[i as int]));
            }
            return false;
        }
        i = i + 1;
    }
    true
}

/// The full output bundle of one shot.
pub struct ExecOutput {
    pub measurements: Vec<bool>,
    pub detectors: Vec<bool>,
    pub detector_coords: Vec<Vec<Decimal>>,
    pub observables: Vec<(u32, bool)>,
    pub qubit_coords: Vec<(u32, Vec<Decimal>)>,
}

impl ExecOutput {
    /// The stored coordinates of a qubit, if the shot assigned any.
    pub fn qubit_coord(&self, q: u32) -> (r: Option<&Vec<Decimal>>)
        requires
            crate::coords::unique_keys(self.qubit_coords@),
        ensures
            match r {
                Some(v) => lookup_qc(self.qubit_coords@, q) == Some((*v)@),
                None => lookup_qc(self.qubit_coords@, q) is None,
            },
    {
        let len = self.qubit_coords.len();
        let mut i: usize = 0;
        while i < len
            invariant
                i <= len,
                len == self.qubit_coords@.len(),
                crate::coords::unique_keys(self.qubit_coords@),
                forall|j: int| 0 <= j < i ==> (#[trigger] self.qubit_coords@[j]).0 != q,
            decreases len - i,
        {
            if self.qubit_coords[i].0 == q {
                proof {
                    crate::coords::lemma_lookup_present_pub(self.qubit_coords@, i as int, q);
                }
                return Some(&self.qubit_coords[i].1);
            }
            i = i + 1;
        }
        proof {
            crate::coords::lemma_lookup_absent_pub(self.qubit_coords@, q);
        }
        None
    }
}

/// The state a shot starts from: the `|0...0>` tableau and empty streams.
pub open spec fn initial_mstate(n: nat) -> MState {
    MState {
        tab: crate::sim::tableau::initial_spec(n),
        rec: Seq::empty(),
        dets: Seq::empty(),
        detc: Seq::empty(),
        obs: Seq::empty(),
        offset: Seq::empty(),
        qc: Map::empty(),
        tick: 0,
    }
}

/// The output bundle carries exactly the final state's streams.
pub open spec fn out_matches(out: ExecOutput, m1: MState) -> bool {
    &&& out.measurements@ == m1.rec
    &&& out.detectors@ == m1.dets
    &&& Seq::new(out.detector_coords@.len(), |i: int| out.detector_coords@[i]@) == m1.detc
    &&& out.observables@ == m1.obs
    &&& qc_as_map(out.qubit_coords@) == m1.qc
}

/// Drives a parsed instruction list: sizes the tableau by the largest qubit
/// index named anywhere in the tree, then executes the instructions in
/// order against one shared state.
pub struct Executor {
    instrs: Vec<StimInstr>,
}

impl Executor {
    /// The decimal arguments an executor holds are all within bounds.
    pub closed spec fn inv(&self) -> bool {
        list_args_inv(self.instrs@)
    }

    /// The instruction tree the executor will run.
    pub closed spec fn instrs_view(&self) -> Seq<StimInstr> {
        self.instrs@
    }

    /// Wraps an instruction list; an out-of-bounds decimal argument is the
    /// one rejected input.
    pub fn from_instrs(instrs: Vec<StimInstr>) -> (r: Result<Executor, ExecError>)
        ensures
            match r {
                Ok(e) => e.inv() && e.instrs_view() == instrs@ && list_args_inv(instrs@),
                Err(e) => e == ExecError::InvalidArgument && !list_args_inv(instrs@),
            },
    {
        if check_args(&instrs) {
            Ok(Executor { instrs })
        } else {
            Err(ExecError::InvalidArgument)
        }
    }

    /// One shot: a fresh `|0...0>` tableau sized for the program, a fresh
    /// record, and the instruction stream run against them. An `Ok` bundle
    /// is exactly a `block_run` of the whole tree from the initial state,
    /// under some trace of admissible draws; an error is either the size
    /// refusal or a `block_run` that aborts with that error.
    pub fn run(&mut self, rng: &mut rand::rngs::StdRng) -> (r: Result<ExecOutput, ExecError>)
        requires
            old(self).inv(),
        ensures
            *final(self) == *old(self),
            list_max_bound(old(self).instrs_view(), old(self).instrs_view().len() as int)
                > 0x7fff_ffff ==> r == Err::<ExecOutput, ExecError>(ExecError::TooManyQubits),
            match r {
                Ok(out) => {
                    &&& out.detectors@.len() == out.detector_coords@.len()
                    &&& crate::coords::unique_keys(out.qubit_coords@)
                    &&& exists|trs: Seq<RunTrace>|
                        #[trigger] list_trace_ok(old(self).instrs_view(), trs) && (match block_run(
                            initial_mstate(
                                list_max_bound(
                                    old(self).instrs_view(),
                                    old(self).instrs_view().len() as int,
                                ) as nat,
                            ),
                            old(self).instrs_view(),
                            trs,
                        ) {
                            Ok(m1) => out_matches(out, m1),
                            Err(_) => false,
                        })
                },
                Err(e) => e == ExecError::TooManyQubits && list_max_bound(
                    old(self).instrs_view(),
                    old(self).instrs_view().len() as int,
                ) > 0x7fff_ffff || exists|trs: Seq<RunTrace>|
                    trs.len() == old(self).instrs_view().len() && #[trigger] block_run(
                        initial_mstate(
                            list_max_bound(
                                old(self).instrs_view(),
                                old(self).instrs_view().len() as int,
                            ) as nat,
                        ),
                        old(self).instrs_view(),
                        trs,
                    ) == Err::<MState, ExecError>(e),
            },
    {
        let bound = max_qubit(&self.instrs);
        if bound > 0x7fff_ffffu64 {
            return Err(ExecError::TooManyQubits);
        }
        let n = bound as usize;
        proof {
            lemma_list_bound(self.instrs@, bound as int);
        }
        let mut sim = SimState {
            tab: StabilizerState::new(n),
            rec: Recorder::new(),
            dets: Vec::new(),
            det_coords: Vec::new(),
            obs: Vec::new(),
            coords: CoordState::new(),
        };
        proof {
            assert(qc_as_map(sim.coords.qubit_coords@) =~= Map::<u32, Seq<Decimal>>::empty());
            assert(Seq::new(sim.det_coords@.len(), |i: int| sim.det_coords@[i]@) =~= Seq::<
                Seq<Decimal>,
            >::empty());
            assert(sim.mview() =~~= initial_mstate(n as nat));
        }
        match run_block(&mut sim, &self.instrs, rng) {
            Ok(()) => {},
            Err(e) => {
                return Err(e);
            },
        }
        let ghost mfin = sim.mview();
        let measurements = recorder_bits(&sim.rec);
        let out = ExecOutput {
            measurements,
            detectors: sim.dets,
            detector_coords: sim.det_coords,
            observables: sim.obs,
            qubit_coords: sim.coords.qubit_coords,
        };
        proof {
            assert(Seq::new(out.detector_coords@.len(), |i: int| out.detector_coords@[i]@)
                =~= mfin.detc);
            assert(out_matches(out, mfin));
        }
        Ok(out)
    }
}

/// A noise channel whose probability is zero or less never fires: for
/// every draw sequence the pass is the identity.
pub proof fn lemma_noise1_never(
    t: TabV,
    kind: Noise1,
    qs: Seq<u32>,
    p: Decimal,
    draws: Seq<(u64, u32)>,
    k: int,
)
    requires
        p.inv(),
        p.val() <= 0,
    ensures
        noise1_fold(t, kind, qs, threshold_spec(p), draws, k) == t,
    decreases k,
{
    crate::decimal::lemma_threshold_of_nonpositive(p);
    if k > 0 {
        lemma_noise1_never(t, kind, qs, p, draws, k - 1);
    }
}

/// An X error with probability one or more fires on every listed qubit:
/// for every draw sequence of honest 53-bit draws, the pass equals an
/// explicit X on each listed qubit, in order.
pub proof fn lemma_x_error_sure(
    t: TabV,
    qs: Seq<u32>,
    p: Decimal,
    draws: Seq<(u64, u32)>,
    k: int,
)
    requires
        p.inv(),
        p.val() >= crate::decimal::pow10(crate::decimal::MAX_SCALE as nat),
        forall|j: int| 0 <= j < k ==> (#[trigger] draws[j]).0 < TWO_POW_53,
    ensures
        noise1_fold(t, Noise1::NX, qs, threshold_spec(p), draws, k) == gate1_fold(
            t,
            Gate1::GX,
            qs,
            k,
        ),
    decreases k,
{
    crate::decimal::lemma_threshold_of_one_or_more(p);
    if k > 0 {
        lemma_x_error_sure(t, qs, p, draws, k - 1);
    }
}

/// Every single-qubit gate step keeps the tableau well formed, on the
/// same qubit count, and symplectic.
pub proof fn lemma_gate1_step_symplectic(t: TabV, g: Gate1, q: int)
    requires
        t.wf(),
        symplectic_ok(t),
        0 <= q < t.n,
    ensures
        gate1_step(t, g, q).wf(),
        gate1_step(t, g, q).n == t.n,
        symplectic_ok(gate1_step(t, g, q)),
{
    match g {
        Gate1::GH => {
            lemma_h_wf(t, q);
            lemma_h_symplectic(t, q);
        },
        Gate1::GS => {
            lemma_s_wf(t, q);
            lemma_s_symplectic(t, q);
        },
        Gate1::GSDag => {
            lemma_s_wf(t, q);
            lemma_s_symplectic(t, q);
            lemma_s_wf(s_spec(t, q), q);
            lemma_s_symplectic(s_spec(t, q), q);
            lemma_s_wf(s_spec(s_spec(t, q), q), q);
            lemma_s_symplectic(s_spec(s_spec(t, q), q), q);
        },
        Gate1::GX => {
            lemma_pauli_symplectic(t, q);
        },
        Gate1::GY => {
            lemma_pauli_symplectic(t, q);
        },
        Gate1::GZ => {
            lemma_pauli_symplectic(t, q);
        },
    }
}

/// A whole single-qubit gate pass keeps the symplectic shape.
pub proof fn lemma_gate1_fold_symplectic(t: TabV, g: Gate1, qs: Seq<u32>, k: int)
    requires
        t.wf(),
        symplectic_ok(t),
        forall|j: int| 0 <= j < qs.len() ==> (#[trigger] qs[j]) < t.n,
        k <= qs.len(),
    ensures
        gate1_fold(t, g, qs, k).wf(),
        gate1_fold(t, g, qs, k).n == t.n,
        symplectic_ok(gate1_fold(t, g, qs, k)),
    decreases k,
{
    if k > 0 {
        lemma_gate1_fold_symplectic(t, g, qs, k - 1);
        lemma_gate1_step_symplectic(gate1_fold(t, g, qs, k - 1), g, qs[k - 1] as int);
    }
}

/// A whole two-qubit gate pass over pairs of distinct qubits keeps the
/// symplectic shape.
pub proof fn lemma_gate2_fold_symplectic(t: TabV, g: Gate2, ps: Seq<(u32, u32)>, k: int)
    requires
        t.wf(),
        symplectic_ok(t),
        forall|j: int|
            0 <= j < ps.len() ==> (#[trigger] ps[j]).0 < t.n && ps[j].1 < t.n && ps[j].0
                != ps[j].1,
        k <= ps.len(),
    ensures
        gate2_fold(t, g, ps, k).wf(),
        gate2_fold(t, g, ps, k).n == t.n,
        symplectic_ok(gate2_fold(t, g, ps, k)),
    decreases k,
{
    if k > 0 {
        lemma_gate2_fold_symplectic(t, g, ps, k - 1);
        let prev = gate2_fold(t, g, ps, k - 1);
        let a = ps[k - 1].0 as int;
        let b = ps[k - 1].1 as int;
        match g {
            Gate2::GCx => {
                lemma_cx_wf(prev, a, b);
                lemma_cx_symplectic(prev, a, b);
            },
            Gate2::GCz => {
                lemma_h_wf(prev, b);
                lemma_cx_wf(h_spec(prev, b), a, b);
                lemma_h_wf(cx_spec(h_spec(prev, b), a, b), b);
                lemma_cz_symplectic(prev, a, b);
            },
        }
    }
}

/// One measurement step, in any basis, keeps the symplectic shape.
pub proof fn lemma_meas_one_symplectic(kind: MeasKind, t: TabV, q: int, r: bool)
    requires
        t.wf(),
        symplectic_ok(t),
        0 <= q < t.n,
    ensures
        meas_one(kind, t, q, r).0.wf(),
        meas_one(kind, t, q, r).0.n == t.n,
        symplectic_ok(meas_one(kind, t, q, r).0),
{
    let basis: TabV = match kind {
        MeasKind::MZ => t,
        MeasKind::MXBasis => h_spec(t, q),
        MeasKind::MYBasis => h_spec(sdag_spec(t, q), q),
    };
    match kind {
        MeasKind::MZ => {},
        MeasKind::MXBasis => {
            lemma_h_wf(t, q);
            lemma_h_symplectic(t, q);
        },
        MeasKind::MYBasis => {
            lemma_gate1_step_symplectic(t, Gate1::GSDag, q);
            lemma_h_wf(sdag_spec(t, q), q);
            lemma_h_symplectic(sdag_spec(t, q), q);
        },
    }
    let stepped = meas_z_step(basis, q, r).0;
    if pivot_exists(basis, q) {
        lemma_first_pivot_exists(basis, q);
        let p = the_pivot(basis, q);
        assert(is_first_pivot(basis, q, p));
        lemma_rand_meas_wf(basis, q, p, r);
        lemma_measure_symplectic(basis, q, p, r);
    }
    match kind {
        MeasKind::MZ => {},
        MeasKind::MXBasis => {
            lemma_h_wf(stepped, q);
            lemma_h_symplectic(stepped, q);
        },
        MeasKind::MYBasis => {
            lemma_h_wf(stepped, q);
            lemma_h_symplectic(stepped, q);
            lemma_s_wf(h_spec(stepped, q), q);
            lemma_s_symplectic(h_spec(stepped, q), q);
        },
    }
}

/// A whole measurement pass keeps the symplectic shape: the invariant
/// holds after every gate and measurement of a shot.
pub proof fn lemma_meas_fold_symplectic(
    kind: MeasKind,
    t: TabV,
    ts: Seq<(u32, bool)>,
    rands: Seq<bool>,
    k: int,
)
    requires
        t.wf(),
        symplectic_ok(t),
        forall|j: int| 0 <= j < ts.len() ==> (#[trigger] ts[j]).0 < t.n,
        k <= ts.len(),
    ensures
        meas_fold(kind, t, ts, rands, k).0.wf(),
        meas_fold(kind, t, ts, rands, k).0.n == t.n,
        symplectic_ok(meas_fold(kind, t, ts, rands, k).0),
    decreases k,
{
    if k > 0 {
        lemma_meas_fold_symplectic(kind, t, ts, rands, k - 1);
        lemma_meas_one_symplectic(
            kind,
            meas_fold(kind, t, ts, rands, k - 1).0,
            ts[k - 1].0 as int,
            rands[k - 1],
        );
    }
}

/// A noise pass applies Pauli gates only, so it keeps the symplectic
/// shape whatever was drawn.
pub proof fn lemma_noise1_fold_symplectic(
    t: TabV,
    kind: Noise1,
    qs: Seq<u32>,
    thr: int,
    draws: Seq<(u64, u32)>,
    k: int,
)
    requires
        t.wf(),
        symplectic_ok(t),
        forall|j: int| 0 <= j < qs.len() ==> (#[trigger] qs[j]) < t.n,
        k <= qs.len(),
    ensures
        noise1_fold(t, kind, qs, thr, draws, k).wf(),
        noise1_fold(t, kind, qs, thr, draws, k).n == t.n,
        symplectic_ok(noise1_fold(t, kind, qs, thr, draws, k)),
    decreases k,
{
    if k > 0 {
        lemma_noise1_fold_symplectic(t, kind, qs, thr, draws, k - 1);
        let prev = noise1_fold(t, kind, qs, thr, draws, k - 1);
        lemma_pauli_symplectic(prev, qs[k - 1] as int);
    }
}

pub proof fn lemma_noise2_fold_symplectic(
    t: TabV,
    ps: Seq<(u32, u32)>,
    thr: int,
    draws: Seq<(u64, u32)>,
    k: int,
)
    requires
        t.wf(),
        symplectic_ok(t),
        forall|j: int| 0 <= j < ps.len() ==> (#[trigger] ps[j]).0 < t.n && ps[j].1 < t.n,
        k <= ps.len(),
    ensures
        noise2_fold(t, ps, thr, draws, k).wf(),
        noise2_fold(t, ps, thr, draws, k).n == t.n,
        symplectic_ok(noise2_fold(t, ps, thr, draws, k)),
    decreases k,
{
    if k > 0 {
        lemma_noise2_fold_symplectic(t, ps, thr, draws, k - 1);
        let prev = noise2_fold(t, ps, thr, draws, k - 1);
        if (draws[k - 1].0 as int) < thr {
            let pp = tq_pauli_spec(draws[k - 1].1 as int);
            lemma_pauli_symplectic(prev, ps[k - 1].0 as int);
            lemma_pauli_symplectic(pauli_spec(prev, ps[k - 1].0 as int, pp.0), ps[k - 1].1 as int);
        }
    }
}

/// One measurement step on a sound tableau keeps all three invariants and
/// cannot fault.
pub proof fn lemma_meas_one_sound(kind: MeasKind, t: TabV, q: int, r: bool)
    requires
        t.wf(),
        symplectic_ok(t),
        crate::sim::tableau::stab_phases_even(t),
        0 <= q < t.n,
    ensures
        meas_one(kind, t, q, r).0.wf(),
        meas_one(kind, t, q, r).0.n == t.n,
        symplectic_ok(meas_one(kind, t, q, r).0),
        crate::sim::tableau::stab_phases_even(meas_one(kind, t, q, r).0),
        meas_one_ok(kind, t, q),
{
    lemma_meas_one_symplectic(kind, t, q, r);
    let basis = meas_basis(kind, t, q);
    match kind {
        MeasKind::MZ => {},
        MeasKind::MXBasis => {
            lemma_h_wf(t, q);
            lemma_h_symplectic(t, q);
            crate::sim::tableau::lemma_gates_keep_even_phases(t, q);
        },
        MeasKind::MYBasis => {
            lemma_gate1_step_symplectic(t, Gate1::GSDag, q);
            crate::sim::tableau::lemma_gates_keep_even_phases(t, q);
            lemma_h_wf(sdag_spec(t, q), q);
            lemma_h_symplectic(sdag_spec(t, q), q);
            crate::sim::tableau::lemma_gates_keep_even_phases(sdag_spec(t, q), q);
        },
    }
    assert(basis.wf() && symplectic_ok(basis) && crate::sim::tableau::stab_phases_even(basis));
    if pivot_exists(basis, q) {
        lemma_first_pivot_exists(basis, q);
        let p = the_pivot(basis, q);
        assert(is_first_pivot(basis, q, p));
        lemma_rand_meas_wf(basis, q, p, r);
        crate::sim::tableau::lemma_measure_keeps_even_phases(basis, q, p, r);
    } else {
        crate::sim::tableau::lemma_det_residue_sound(basis, q);
    }
    let stepped = meas_z_step(basis, q, r).0;
    assert(crate::sim::tableau::stab_phases_even(stepped));
    match kind {
        MeasKind::MZ => {},
        MeasKind::MXBasis => {
            crate::sim::tableau::lemma_gates_keep_even_phases(stepped, q);
        },
        MeasKind::MYBasis => {
            crate::sim::tableau::lemma_gates_keep_even_phases(stepped, q);
            lemma_s_wf(h_spec(stepped, q), q);
            crate::sim::tableau::lemma_gates_keep_even_phases(h_spec(stepped, q), q);
        },
    }
}

/// On a sound tableau every measurement pass is sound for every draw
/// sequence: the invariant-violation fault is unreachable from states that
/// hold the invariants, and the pass keeps them.
pub proof fn lemma_meas_fold_never_faults(
    kind: MeasKind,
    t: TabV,
    ts: Seq<(u32, bool)>,
    rands: Seq<bool>,
    k: int,
)
    requires
        t.wf(),
        symplectic_ok(t),
        crate::sim::tableau::stab_phases_even(t),
        forall|j: int| 0 <= j < ts.len() ==> (#[trigger] ts[j]).0 < t.n,
        k <= ts.len(),
    ensures
        meas_fold(kind, t, ts, rands, k).0.wf(),
        meas_fold(kind, t, ts, rands, k).0.n == t.n,
        symplectic_ok(meas_fold(kind, t, ts, rands, k).0),
        crate::sim::tableau::stab_phases_even(meas_fold(kind, t, ts, rands, k).0),
        meas_fold_ok(kind, t, ts, rands, k),
    decreases k,
{
    if k > 0 {
        lemma_meas_fold_never_faults(kind, t, ts, rands, k - 1);
        lemma_meas_one_sound(
            kind,
            meas_fold(kind, t, ts, rands, k - 1).0,
            ts[k - 1].0 as int,
            rands[k - 1],
        );
    }
}

} // verus!
