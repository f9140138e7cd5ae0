use vstd::prelude::*;
use crate::rng::rand_bit;

verus! {

/// Mathematical shape of a stabilizer tableau: for `n` qubits, `2n` rows of
/// per-qubit (x, z) bits and a phase in {0,1,2,3} each. Rows `[0, n)` are the
/// destabilizers, rows `[n, 2n)` the stabilizers.
#[verifier::ext_equal]
pub ghost struct TabV {
    pub n: nat,
    pub xs: Seq<Seq<bool>>,
    pub zs: Seq<Seq<bool>>,
    pub ph: Seq<u8>,
}

impl TabV {
    /// Shape and phase-range invariant.
    pub open spec fn wf(self) -> bool {
        &&& self.xs.len() == 2 * self.n
        &&& self.zs.len() == 2 * self.n
        &&& self.ph.len() == 2 * self.n
        &&& forall|i: int| 0 <= i < 2 * self.n ==> (#[trigger] self.xs[i]).len() == self.n
        &&& forall|i: int| 0 <= i < 2 * self.n ==> (#[trigger] self.zs[i]).len() == self.n
        &&& forall|i: int| 0 <= i < 2 * self.n ==> (#[trigger] self.ph[i]) < 4
    }
}

/// Rows `[lo, hi)` of `a` and `b` agree.
pub open spec fn rows_match(a: TabV, b: TabV, lo: int, hi: int) -> bool {
    &&& forall|j: int| lo <= j < hi ==> (#[trigger] a.xs[j]) == b.xs[j]
    &&& forall|j: int| lo <= j < hi ==> (#[trigger] a.zs[j]) == b.zs[j]
    &&& forall|j: int| lo <= j < hi ==> (#[trigger] a.ph[j]) == b.ph[j]
}

/// The tableau of `|0...0>`: destabilizer `i` is `X` on qubit `i`,
/// stabilizer `i` is `Z` on qubit `i`, all phases `0`.
pub open spec fn initial_spec(n: nat) -> TabV {
    TabV {
        n,
        xs: Seq::new(2 * n, |i: int| Seq::new(n, |c: int| i == c)),
        zs: Seq::new(2 * n, |i: int| Seq::new(n, |c: int| i == n + c)),
        ph: Seq::new(2 * n, |i: int| 0u8),
    }
}

/// Conjugation by H on qubit `q`: swaps the x and z bits in column `q`; a
/// row holding Y there picks up a sign.
pub open spec fn h_spec(t: TabV, q: int) -> TabV {
    TabV {
        n: t.n,
        xs: Seq::new(t.xs.len(), |i: int| t.xs[i].update(q, t.zs[i][q])),
        zs: Seq::new(t.zs.len(), |i: int| t.zs[i].update(q, t.xs[i][q])),
        ph: Seq::new(
            t.ph.len(),
            |i: int|
                if t.xs[i][q] && t.zs[i][q] {
                    ((t.ph[i] + 2) % 4) as u8
                } else {
                    t.ph[i]
                },
        ),
    }
}

/// Conjugation by S on qubit `q`: `z ^= x` in column `q`; a row holding Y
/// there picks up a sign.
pub open spec fn s_spec(t: TabV, q: int) -> TabV {
    TabV {
        n: t.n,
        xs: t.xs,
        zs: Seq::new(t.zs.len(), |i: int| t.zs[i].update(q, t.zs[i][q] != t.xs[i][q])),
        ph: Seq::new(
            t.ph.len(),
            |i: int|
                if t.xs[i][q] && t.zs[i][q] {
                    ((t.ph[i] + 2) % 4) as u8
                } else {
                    t.ph[i]
                },
        ),
    }
}

pub open spec fn sdag_spec(t: TabV, q: int) -> TabV {
    s_spec(s_spec(s_spec(t, q), q), q)
}

/// Conjugation by X on qubit `q`: flips the sign of rows whose column `q`
/// anticommutes with X, that is holds Z or Y.
pub open spec fn x_spec(t: TabV, q: int) -> TabV {
    TabV {
        n: t.n,
        xs: t.xs,
        zs: t.zs,
        ph: Seq::new(
            t.ph.len(),
            |i: int|
                if t.zs[i][q] {
                    ((t.ph[i] + 2) % 4) as u8
                } else {
                    t.ph[i]
                },
        ),
    }
}

/// Conjugation by Z on qubit `q`: flips the sign of rows holding X or Y
/// there.
pub open spec fn z_spec(t: TabV, q: int) -> TabV {
    TabV {
        n: t.n,
        xs: t.xs,
        zs: t.zs,
        ph: Seq::new(
            t.ph.len(),
            |i: int|
                if t.xs[i][q] {
                    ((t.ph[i] + 2) % 4) as u8
                } else {
                    t.ph[i]
                },
        ),
    }
}

/// Y as X then Z, each with its own sign bookkeeping.
pub open spec fn y_spec(t: TabV, q: int) -> TabV {
    z_spec(x_spec(t, q), q)
}

/// Conjugation by CX with control `c` and target `t`: `x_t ^= x_c`,
/// `z_c ^= z_t`, and a sign when the row holds Y on both sides of the
/// conjugation.
pub open spec fn cx_spec(t: TabV, c: int, tq: int) -> TabV {
    TabV {
        n: t.n,
        xs: Seq::new(t.xs.len(), |i: int| t.xs[i].update(tq, t.xs[i][tq] != t.xs[i][c])),
        zs: Seq::new(t.zs.len(), |i: int| t.zs[i].update(c, t.zs[i][c] != t.zs[i][tq])),
        ph: Seq::new(
            t.ph.len(),
            |i: int|
                if t.xs[i][c] && t.zs[i][tq] && (t.xs[i][tq] == t.zs[i][c]) {
                    ((t.ph[i] + 2) % 4) as u8
                } else {
                    t.ph[i]
                },
        ),
    }
}

/// CZ as its H-sandwiched form `H_b CX(a,b) H_b`.
pub open spec fn cz_spec(t: TabV, a: int, b: int) -> TabV {
    h_spec(cx_spec(h_spec(t, b), a, b), b)
}

/// A stabilizer state on `n` qubits, kept as a destabilizer/stabilizer
/// tableau.
#[derive(Debug, Clone)]
pub struct StabilizerState {
    n: usize,
    x: Vec<Vec<bool>>,
    z: Vec<Vec<bool>>,
    phase: Vec<u8>,
}

impl View for StabilizerState {
    type V = TabV;

    closed spec fn view(&self) -> TabV {
        TabV {
            n: self.n as nat,
            xs: Seq::new(self.x@.len(), |i: int| self.x@[i]@),
            zs: Seq::new(self.z@.len(), |i: int| self.z@[i]@),
            ph: self.phase@,
        }
    }
}

fn zero_row(n: usize) -> (r: Vec<bool>)
    ensures
        r@ == Seq::new(n as nat, |c: int| false),
{
    let mut r: Vec<bool> = Vec::new();
    let mut c: usize = 0;
    while c < n
        invariant
            c <= n,
            r@ == Seq::new(c as nat, |j: int| false),
        decreases n - c,
    {
        r.push(false);
        proof {
            assert(r@ =~= Seq::new((c + 1) as nat, |j: int| false));
        }
        c = c + 1;
    }
    r
}

impl StabilizerState {
    /// The number of qubits the tableau covers.
    pub fn num_qubits(&self) -> (r: usize)
        ensures
            r == self@.n,
    {
        self.n
    }

    /// The tableau of `|0...0>` on `n` qubits.
    pub fn new(n: usize) -> (r: StabilizerState)
        requires
            n <= 0x7fff_ffffusize,
        ensures
            r@.wf(),
            r@ == initial_spec(n as nat),
    {
        let rows = 2 * n;
        let mut x: Vec<Vec<bool>> = Vec::new();
        let mut z: Vec<Vec<bool>> = Vec::new();
        let mut phase: Vec<u8> = Vec::new();
        let mut i: usize = 0;
        while i < rows
            invariant
                i <= rows,
                x@.len() == i,
                z@.len() == i,
                phase@.len() == i,
                forall|j: int|
                    0 <= j < i ==> (#[trigger] x@[j])@ == Seq::new(n as nat, |c: int| false),
                forall|j: int|
                    0 <= j < i ==> (#[trigger] z@[j])@ == Seq::new(n as nat, |c: int| false),
                forall|j: int| 0 <= j < i ==> (#[trigger] phase@[j]) == 0u8,
            decreases rows - i,
        {
            x.push(zero_row(n));
            z.push(zero_row(n));
            phase.push(0u8);
            i = i + 1;
        }
        let mut st = StabilizerState { n, x, z, phase };
        let mut d: usize = 0;
        while d < n
            invariant
                d <= n,
                n <= 0x7fff_ffffusize,
                st.n == n,
                rows == 2 * n,
                st.x@.len() == rows,
                st.z@.len() == rows,
                st.phase@.len() == rows,
                forall|j: int| 0 <= j < rows ==> (#[trigger] st.x@[j])@.len() == n,
                forall|j: int| 0 <= j < rows ==> (#[trigger] st.z@[j])@.len() == n,
                forall|j: int, c: int|
                    0 <= j < rows && 0 <= c < n ==> ((#[trigger] st.x@[j]@[c]) <==> (j == c && j
                        < d)),
                forall|j: int, c: int|
                    0 <= j < rows && 0 <= c < n ==> ((#[trigger] st.z@[j]@[c]) <==> (j == n + c && c
                        < d)),
                forall|j: int| 0 <= j < rows ==> (#[trigger] st.phase@[j]) == 0u8,
            decreases n - d,
        {
            st.x[d][d] = true;
            st.z[d + n][d] = true;
            d = d + 1;
        }
        proof {
            assert forall|i: int| 0 <= i < 2 * (n as nat) implies (#[trigger] st@.xs[i])
                == initial_spec(n as nat).xs[i] by {
                assert(st@.xs[i] =~= initial_spec(n as nat).xs[i]);
            }
            assert forall|i: int| 0 <= i < 2 * (n as nat) implies (#[trigger] st@.zs[i])
                == initial_spec(n as nat).zs[i] by {
                assert(st@.zs[i] =~= initial_spec(n as nat).zs[i]);
            }
            assert(st@ =~~= initial_spec(n as nat));
        }
        st
    }

    /// Hadamard on qubit `q`.
    pub fn h(&mut self, q: usize)
        requires
            old(self)@.wf(),
            (q as int) < old(self)@.n,
        ensures
            final(self)@.wf(),
            final(self)@ == h_spec(old(self)@, q as int),
    {
        let ghost t0 = old(self)@;
        let ghost g = h_spec(old(self)@, q as int);
        let rows = self.x.len();
        let mut i: usize = 0;
        while i < rows
            invariant
                t0.wf(),
                g == h_spec(t0, q as int),
                (q as int) < t0.n,
                i <= rows,
                rows == 2 * t0.n,
                self@.n == t0.n,
                self@.xs.len() == rows,
                self@.zs.len() == rows,
                self@.ph.len() == rows,
                rows_match(self@, t0, i as int, rows as int),
                rows_match(self@, g, 0, i as int),
            decreases rows - i,
        {
            let ghost pre = self@;
            proof {
                assert(self@.xs[i as int] == t0.xs[i as int]);
                assert(self@.zs[i as int] == t0.zs[i as int]);
                assert(self@.ph[i as int] == t0.ph[i as int]);
            }
            let xi = self.x[i][q];
            let zi = self.z[i][q];
            if xi && zi {
                self.phase[i] = (self.phase[i] + 2) % 4;
            }
            self.x[i][q] = zi;
            self.z[i][q] = xi;
            i = i + 1;
            proof {
                assert forall|j: int| 0 <= j < rows && j != i as int - 1 implies (
                #[trigger] self@.xs[j]) == pre.xs[j] by {}
                assert forall|j: int| 0 <= j < rows && j != i as int - 1 implies (
                #[trigger] self@.zs[j]) == pre.zs[j] by {}
                assert forall|j: int| 0 <= j < rows && j != i as int - 1 implies (
                #[trigger] self@.ph[j]) == pre.ph[j] by {}
                assert(self@.xs[i as int - 1] == g.xs[i as int - 1]);
                assert(self@.zs[i as int - 1] == g.zs[i as int - 1]);
                assert(self@.ph[i as int - 1] == g.ph[i as int - 1]);
            }
        }
        proof {
            assert(self@ =~~= g);
        }
    }

    /// Phase gate S on qubit `q`.
    pub fn s(&mut self, q: usize)
        requires
            old(self)@.wf(),
            (q as int) < old(self)@.n,
        ensures
            final(self)@.wf(),
            final(self)@ == s_spec(old(self)@, q as int),
    {
        let ghost t0 = old(self)@;
        let ghost g = s_spec(old(self)@, q as int);
        let rows = self.x.len();
        let mut i: usize = 0;
        while i < rows
            invariant
                t0.wf(),
                g == s_spec(t0, q as int),
                (q as int) < t0.n,
                i <= rows,
                rows == 2 * t0.n,
                self@.n == t0.n,
                self@.xs.len() == rows,
                self@.zs.len() == rows,
                self@.ph.len() == rows,
                rows_match(self@, t0, i as int, rows as int),
                rows_match(self@, g, 0, i as int),
            decreases rows - i,
        {
            let ghost pre = self@;
            proof {
                assert(self@.xs[i as int] == t0.xs[i as int]);
                assert(self@.zs[i as int] == t0.zs[i as int]);
                assert(self@.ph[i as int] == t0.ph[i as int]);
            }
            let xi = self.x[i][q];
            let zi = self.z[i][q];
            if xi && zi {
                self.phase[i] = (self.phase[i] + 2) % 4;
            }
            self.z[i][q] = zi != xi;
            i = i + 1;
            proof {
                assert forall|j: int| 0 <= j < rows && j != i as int - 1 implies (
                #[trigger] self@.xs[j]) == pre.xs[j] by {}
                assert forall|j: int| 0 <= j < rows && j != i as int - 1 implies (
                #[trigger] self@.zs[j]) == pre.zs[j] by {}
                assert forall|j: int| 0 <= j < rows && j != i as int - 1 implies (
                #[trigger] self@.ph[j]) == pre.ph[j] by {}
                assert(self@.xs[i as int - 1] == g.xs[i as int - 1]);
                assert(self@.zs[i as int - 1] == g.zs[i as int - 1]);
                assert(self@.ph[i as int - 1] == g.ph[i as int - 1]);
            }
        }
        proof {
            assert(self@ =~~= g);
        }
    }

    /// S dagger, as S applied three times.
    pub fn s_dag(&mut self, q: usize)
        requires
            old(self)@.wf(),
            (q as int) < old(self)@.n,
        ensures
            final(self)@.wf(),
            final(self)@ == sdag_spec(old(self)@, q as int),
    {
        self.s(q);
        self.s(q);
        self.s(q);
    }

    /// Pauli X on qubit `q`.
    pub fn x_gate(&mut self, q: usize)
        requires
            old(self)@.wf(),
            (q as int) < old(self)@.n,
        ensures
            final(self)@.wf(),
            final(self)@ == x_spec(old(self)@, q as int),
    {
        let ghost t0 = old(self)@;
        let ghost g = x_spec(old(self)@, q as int);
        let rows = self.x.len();
        let mut i: usize = 0;
        while i < rows
            invariant
                t0.wf(),
                g == x_spec(t0, q as int),
                (q as int) < t0.n,
                i <= rows,
                rows == 2 * t0.n,
                self@.n == t0.n,
                self@.xs.len() == rows,
                self@.zs.len() == rows,
                self@.ph.len() == rows,
                rows_match(self@, t0, i as int, rows as int),
                rows_match(self@, g, 0, i as int),
            decreases rows - i,
        {
            let ghost pre = self@;
            proof {
                assert(self@.xs[i as int] == t0.xs[i as int]);
                assert(self@.zs[i as int] == t0.zs[i as int]);
                assert(self@.ph[i as int] == t0.ph[i as int]);
            }
            if self.z[i][q] {
                self.phase[i] = (self.phase[i] + 2) % 4;
            }
            i = i + 1;
            proof {
                assert forall|j: int| 0 <= j < rows && j != i as int - 1 implies (
                #[trigger] self@.xs[j]) == pre.xs[j] by {}
                assert forall|j: int| 0 <= j < rows && j != i as int - 1 implies (
                #[trigger] self@.zs[j]) == pre.zs[j] by {}
                assert forall|j: int| 0 <= j < rows && j != i as int - 1 implies (
                #[trigger] self@.ph[j]) == pre.ph[j] by {}
                assert(self@.xs[i as int - 1] == g.xs[i as int - 1]);
                assert(self@.zs[i as int - 1] == g.zs[i as int - 1]);
                assert(self@.ph[i as int - 1] == g.ph[i as int - 1]);
            }
        }
        proof {
            assert(self@ =~~= g);
        }
    }

    /// Pauli Z on qubit `q`.
    pub fn z_gate(&mut self, q: usize)
        requires
            old(self)@.wf(),
            (q as int) < old(self)@.n,
        ensures
            final(self)@.wf(),
            final(self)@ == z_spec(old(self)@, q as int),
    {
        let ghost t0 = old(self)@;
        let ghost g = z_spec(old(self)@, q as int);
        let rows = self.x.len();
        let mut i: usize = 0;
        while i < rows
            invariant
                t0.wf(),
                g == z_spec(t0, q as int),
                (q as int) < t0.n,
                i <= rows,
                rows == 2 * t0.n,
                self@.n == t0.n,
                self@.xs.len() == rows,
                self@.zs.len() == rows,
                self@.ph.len() == rows,
                rows_match(self@, t0, i as int, rows as int),
                rows_match(self@, g, 0, i as int),
            decreases rows - i,
        {
            let ghost pre = self@;
            proof {
                assert(self@.xs[i as int] == t0.xs[i as int]);
                assert(self@.zs[i as int] == t0.zs[i as int]);
                assert(self@.ph[i as int] == t0.ph[i as int]);
            }
            if self.x[i][q] {
                self.phase[i] = (self.phase[i] + 2) % 4;
            }
            i = i + 1;
            proof {
                assert forall|j: int| 0 <= j < rows && j != i as int - 1 implies (
                #[trigger] self@.xs[j]) == pre.xs[j] by {}
                assert forall|j: int| 0 <= j < rows && j != i as int - 1 implies (
                #[trigger] self@.zs[j]) == pre.zs[j] by {}
                assert forall|j: int| 0 <= j < rows && j != i as int - 1 implies (
                #[trigger] self@.ph[j]) == pre.ph[j] by {}
                assert(self@.xs[i as int - 1] == g.xs[i as int - 1]);
                assert(self@.zs[i as int - 1] == g.zs[i as int - 1]);
                assert(self@.ph[i as int - 1] == g.ph[i as int - 1]);
            }
        }
        proof {
            assert(self@ =~~= g);
        }
    }

    /// Pauli Y, as X then Z.
    pub fn y_gate(&mut self, q: usize)
        requires
            old(self)@.wf(),
            (q as int) < old(self)@.n,
        ensures
            final(self)@.wf(),
            final(self)@ == y_spec(old(self)@, q as int),
    {
        self.x_gate(q);
        self.z_gate(q);
    }

    /// Controlled X with control `c` and target `t`.
    pub fn cx(&mut self, c: usize, t: usize)
        requires
            old(self)@.wf(),
            (c as int) < old(self)@.n,
            (t as int) < old(self)@.n,
        ensures
            final(self)@.wf(),
            final(self)@ == cx_spec(old(self)@, c as int, t as int),
    {
        let ghost t0 = old(self)@;
        let ghost g = cx_spec(old(self)@, c as int, t as int);
        let rows = self.x.len();
        let mut i: usize = 0;
        while i < rows
            invariant
                t0.wf(),
                g == cx_spec(t0, c as int, t as int),
                (c as int) < t0.n,
                (t as int) < t0.n,
                i <= rows,
                rows == 2 * t0.n,
                self@.n == t0.n,
                self@.xs.len() == rows,
                self@.zs.len() == rows,
                self@.ph.len() == rows,
                rows_match(self@, t0, i as int, rows as int),
                rows_match(self@, g, 0, i as int),
            decreases rows - i,
        {
            let ghost pre = self@;
            proof {
                assert(self@.xs[i as int] == t0.xs[i as int]);
                assert(self@.zs[i as int] == t0.zs[i as int]);
                assert(self@.ph[i as int] == t0.ph[i as int]);
            }
            let xc = self.x[i][c];
            let xt = self.x[i][t];
            let zc = self.z[i][c];
            let zt = self.z[i][t];
            if xc && zt && (xt == zc) {
                self.phase[i] = (self.phase[i] + 2) % 4;
            }
            self.x[i][t] = xt != xc;
            self.z[i][c] = zc != zt;
            i = i + 1;
            proof {
                assert forall|j: int| 0 <= j < rows && j != i as int - 1 implies (
                #[trigger] self@.xs[j]) == pre.xs[j] by {}
                assert forall|j: int| 0 <= j < rows && j != i as int - 1 implies (
                #[trigger] self@.zs[j]) == pre.zs[j] by {}
                assert forall|j: int| 0 <= j < rows && j != i as int - 1 implies (
                #[trigger] self@.ph[j]) == pre.ph[j] by {}
                assert(self@.xs[i as int - 1] == g.xs[i as int - 1]);
                assert(self@.zs[i as int - 1] == g.zs[i as int - 1]);
                assert(self@.ph[i as int - 1] == g.ph[i as int - 1]);
            }
        }
        proof {
            assert(self@ =~~= g);
        }
    }

    /// Controlled Z, by conjugating CX with H on the second qubit.
    pub fn cz(&mut self, a: usize, b: usize)
        requires
            old(self)@.wf(),
            (a as int) < old(self)@.n,
            (b as int) < old(self)@.n,
        ensures
            final(self)@.wf(),
            final(self)@ == cz_spec(old(self)@, a as int, b as int),
    {
        self.h(b);
        self.cx(a, b);
        self.h(b);
    }
}


/// Phase contribution, as a power of `i`, of multiplying two single-qubit
/// Paulis in the (x, z) encoding: I=(0,0), X=(1,0), Z=(0,1), Y=(1,1).
pub open spec fn pauli_phase(x1: bool, z1: bool, x2: bool, z2: bool) -> u8 {
    if !x1 && !z1 {
        0
    } else if !x2 && !z2 {
        0
    } else if x1 == x2 && z1 == z2 {
        0
    } else if x1 && !z1 && !x2 && z2 {
        1  // X * Z = +i Y
    } else if x1 && !z1 && x2 && z2 {
        1  // X * Y = +i Z
    } else if x1 && z1 && !x2 && z2 {
        1  // Y * Z = +i X
    } else {
        3  // Z * X, Y * X, Z * Y
    }
}

/// The (x, z) bit rows of a Pauli product are the per-column XOR.
pub open spec fn xor_seq(a: Seq<bool>, b: Seq<bool>) -> Seq<bool> {
    Seq::new(a.len(), |i: int| a[i] != b[i])
}

/// The running phase accumulator of a row product over the first `k`
/// columns, reduced mod 4 at every step as the code keeps it.
pub open spec fn row_phase_sum(
    x1: Seq<bool>,
    z1: Seq<bool>,
    x2: Seq<bool>,
    z2: Seq<bool>,
    k: int,
) -> u8
    decreases k,
{
    if k <= 0 {
        0
    } else {
        ((row_phase_sum(x1, z1, x2, z2, k - 1) + pauli_phase(
            x1[k - 1],
            z1[k - 1],
            x2[k - 1],
            z2[k - 1],
        )) % 4) as u8
    }
}

/// The phase of the Pauli product of two full rows.
pub open spec fn mul_phase(
    p1: u8,
    p2: u8,
    x1: Seq<bool>,
    z1: Seq<bool>,
    x2: Seq<bool>,
    z2: Seq<bool>,
) -> u8 {
    ((p1 + p2 + row_phase_sum(x1, z1, x2, z2, x1.len() as int)) % 4) as u8
}

/// Replacing row `h` by the Pauli product (row `h`) * (row `i`).
pub open spec fn row_mult_spec(t: TabV, h: int, i: int) -> TabV {
    TabV {
        n: t.n,
        xs: t.xs.update(h, xor_seq(t.xs[h], t.xs[i])),
        zs: t.zs.update(h, xor_seq(t.zs[h], t.zs[i])),
        ph: t.ph.update(h, mul_phase(t.ph[h], t.ph[i], t.xs[h], t.zs[h], t.xs[i], t.zs[i])),
    }
}

/// Row `dst` overwritten by row `src`.
pub open spec fn copy_row_spec(t: TabV, src: int, dst: int) -> TabV {
    TabV {
        n: t.n,
        xs: t.xs.update(dst, t.xs[src]),
        zs: t.zs.update(dst, t.zs[src]),
        ph: t.ph.update(dst, t.ph[src]),
    }
}

/// Some stabilizer row has X support on column `q`, so a Z measurement of
/// `q` is random.
pub open spec fn pivot_exists(t: TabV, q: int) -> bool {
    exists|p: int| t.n <= p < 2 * t.n && (#[trigger] t.xs[p])[q]
}

/// `p` is the first stabilizer row with X support on column `q`.
pub open spec fn is_first_pivot(t: TabV, q: int, p: int) -> bool {
    &&& t.n <= p < 2 * t.n
    &&& t.xs[p][q]
    &&& forall|j: int| t.n <= j < p ==> !(#[trigger] t.xs[j])[q]
}

/// The tableau after a random Z measurement of `q` with pivot row `p` and
/// drawn outcome `r`: every other row with X on `q` is multiplied by row
/// `p`, the destabilizer `p - n` receives the old row `p`, and row `p`
/// becomes the measurement stabilizer `(-1)^r Z_q`.
pub open spec fn rand_meas_spec(t: TabV, q: int, p: int, r: bool) -> TabV {
    let k = p - t.n;
    TabV {
        n: t.n,
        xs: Seq::new(
            t.xs.len(),
            |i: int|
                if i == p {
                    Seq::new(t.n, |c: int| false)
                } else if i == k {
                    t.xs[p]
                } else if t.xs[i][q] {
                    xor_seq(t.xs[i], t.xs[p])
                } else {
                    t.xs[i]
                },
        ),
        zs: Seq::new(
            t.zs.len(),
            |i: int|
                if i == p {
                    Seq::new(t.n, |c: int| c == q)
                } else if i == k {
                    t.zs[p]
                } else if t.xs[i][q] {
                    xor_seq(t.zs[i], t.zs[p])
                } else {
                    t.zs[i]
                },
        ),
        ph: Seq::new(
            t.ph.len(),
            |i: int|
                if i == p {
                    if r {
                        2u8
                    } else {
                        0u8
                    }
                } else if i == k {
                    t.ph[p]
                } else if t.xs[i][q] {
                    mul_phase(t.ph[i], t.ph[p], t.xs[i], t.zs[i], t.xs[p], t.zs[p])
                } else {
                    t.ph[i]
                },
        ),
    }
}

/// The scratch Pauli of the deterministic branch: `+Z_q` multiplied by
/// stabilizer `j + n` for every destabilizer `j < i` with X on `q`.
#[verifier::ext_equal]
pub ghost struct ScratchV {
    pub xs: Seq<bool>,
    pub zs: Seq<bool>,
    pub ph: u8,
}

pub open spec fn det_scratch(t: TabV, q: int, i: int) -> ScratchV
    decreases i,
{
    if i <= 0 {
        ScratchV { xs: Seq::new(t.n, |c: int| false), zs: Seq::new(t.n, |c: int| c == q), ph: 0u8 }
    } else {
        let prev = det_scratch(t, q, i - 1);
        if t.xs[i - 1][q] {
            ScratchV {
                xs: xor_seq(prev.xs, t.xs[i - 1 + t.n]),
                zs: xor_seq(prev.zs, t.zs[i - 1 + t.n]),
                ph: mul_phase(
                    prev.ph,
                    t.ph[i - 1 + t.n],
                    prev.xs,
                    prev.zs,
                    t.xs[i - 1 + t.n],
                    t.zs[i - 1 + t.n],
                ),
            }
        } else {
            prev
        }
    }
}

/// The fixed outcome of a deterministic Z measurement: 1 when the scratch
/// phase lands on 2, else 0.
pub open spec fn det_outcome(t: TabV, q: int) -> u8 {
    if det_scratch(t, q, t.n as int).ph % 4 == 2 {
        1u8
    } else {
        0u8
    }
}

/// A deterministic measurement is sound only when the scratch phase lands
/// on 0 or 2; any other residue means the tableau's invariant is broken.
pub open spec fn det_residue_ok(t: TabV, q: int) -> bool {
    det_scratch(t, q, t.n as int).ph % 4 == 0 || det_scratch(t, q, t.n as int).ph % 4 == 2
}

/// The tableau engine's one internal failure: the deterministic branch
/// observed a phase residue other than 0 or 2 — an implementation bug,
/// never a user error.
#[derive(Debug, Clone, Copy, PartialEq, Eq, Structural)]
pub enum TableauFault {
    PhaseResidue,
}

/// One column of a Pauli product: the XORed bits and the phase
/// contribution of the product table.
pub fn mul_pauli(x1: bool, z1: bool, x2: bool, z2: bool) -> (r: (bool, bool, u8))
    ensures
        r.0 == (x1 != x2),
        r.1 == (z1 != z2),
        r.2 == pauli_phase(x1, z1, x2, z2),
        r.2 < 4,
{
    match ((x1, z1), (x2, z2)) {
        ((false, false), _) => (x2, z2, 0),
        (_, (false, false)) => (x1, z1, 0),
        ((true, false), (true, false)) => (false, false, 0),
        ((false, true), (false, true)) => (false, false, 0),
        ((true, true), (true, true)) => (false, false, 0),
        ((true, false), (false, true)) => (true, true, 1),
        ((false, true), (true, false)) => (true, true, 3),
        ((true, false), (true, true)) => (false, true, 1),
        ((true, true), (true, false)) => (false, true, 3),
        ((false, true), (true, true)) => (true, false, 3),
        ((true, true), (false, true)) => (true, false, 1),
    }
}

impl StabilizerState {
    /// Replaces row `h` by (row `h`) * (row `i`), phase included.
    fn row_mult(&mut self, h: usize, i: usize)
        requires
            old(self)@.wf(),
            (h as int) < 2 * old(self)@.n,
            (i as int) < 2 * old(self)@.n,
            h != i,
        ensures
            final(self)@.wf(),
            final(self)@ == row_mult_spec(old(self)@, h as int, i as int),
    {
        let ghost t0 = old(self)@;
        let ghost g = row_mult_spec(old(self)@, h as int, i as int);
        let n = self.num_qubits();
        let mut acc: u8 = 0;
        let mut q: usize = 0;
        while q < n
            invariant
                t0.wf(),
                g == row_mult_spec(t0, h as int, i as int),
                (h as int) < 2 * t0.n,
                (i as int) < 2 * t0.n,
                h != i,
                q <= n,
                n == t0.n,
                self@.n == t0.n,
                self@.xs.len() == 2 * t0.n,
                self@.zs.len() == 2 * t0.n,
                self@.ph == t0.ph,
                forall|j: int|
                    0 <= j < 2 * t0.n && j != h ==> (#[trigger] self@.xs[j]) == t0.xs[j],
                forall|j: int|
                    0 <= j < 2 * t0.n && j != h ==> (#[trigger] self@.zs[j]) == t0.zs[j],
                self@.xs[h as int].len() == t0.n,
                self@.zs[h as int].len() == t0.n,
                forall|c: int|
                    0 <= c < q ==> (#[trigger] self@.xs[h as int][c]) == (t0.xs[h as int][c]
                        != t0.xs[i as int][c]),
                forall|c: int|
                    0 <= c < q ==> (#[trigger] self@.zs[h as int][c]) == (t0.zs[h as int][c]
                        != t0.zs[i as int][c]),
                forall|c: int| q <= c < t0.n ==> (#[trigger] self@.xs[h as int][c]) == t0.xs[h as int][c],
                forall|c: int| q <= c < t0.n ==> (#[trigger] self@.zs[h as int][c]) == t0.zs[h as int][c],
                acc == row_phase_sum(
                    t0.xs[h as int],
                    t0.zs[h as int],
                    t0.xs[i as int],
                    t0.zs[i as int],
                    q as int,
                ),
                acc < 4,
            decreases n - q,
        {
            let ghost pre = self@;
            proof {
                assert(self@.xs[i as int] == t0.xs[i as int]);
                assert(self@.zs[i as int] == t0.zs[i as int]);
            }
            let x1 = self.x[h][q];
            let z1 = self.z[h][q];
            let x2 = self.x[i][q];
            let z2 = self.z[i][q];
            let (x3, z3, k) = mul_pauli(x1, z1, x2, z2);
            self.x[h][q] = x3;
            self.z[h][q] = z3;
            acc = (acc + k) % 4;
            q = q + 1;
            proof {
                assert forall|j: int| 0 <= j < 2 * t0.n && j != h implies (#[trigger] self@.xs[j])
                    == pre.xs[j] by {}
                assert forall|j: int| 0 <= j < 2 * t0.n && j != h implies (#[trigger] self@.zs[j])
                    == pre.zs[j] by {}
                assert(self@.xs[h as int] == pre.xs[h as int].update(q as int - 1, x3));
                assert(self@.zs[h as int] == pre.zs[h as int].update(q as int - 1, z3));
            }
        }
        let p1 = self.phase[h];
        let p2 = self.phase[i];
        self.phase[h] = (p1 + p2 + acc) % 4;
        proof {
            assert(self@.xs[h as int] =~= xor_seq(t0.xs[h as int], t0.xs[i as int]));
            assert(self@.zs[h as int] =~= xor_seq(t0.zs[h as int], t0.zs[i as int]));
            assert(self@.ph == t0.ph.update(
                h as int,
                mul_phase(
                    t0.ph[h as int],
                    t0.ph[i as int],
                    t0.xs[h as int],
                    t0.zs[h as int],
                    t0.xs[i as int],
                    t0.zs[i as int],
                ),
            ));
            assert(self@ =~~= g);
        }
    }

    /// Overwrites row `dst` with row `src`, phase included.
    fn copy_row(&mut self, src: usize, dst: usize)
        requires
            old(self)@.wf(),
            (src as int) < 2 * old(self)@.n,
            (dst as int) < 2 * old(self)@.n,
            src != dst,
        ensures
            final(self)@.wf(),
            final(self)@ == copy_row_spec(old(self)@, src as int, dst as int),
    {
        let ghost t0 = old(self)@;
        let ghost g = copy_row_spec(old(self)@, src as int, dst as int);
        let n = self.num_qubits();
        let mut c: usize = 0;
        while c < n
            invariant
                t0.wf(),
                g == copy_row_spec(t0, src as int, dst as int),
                (src as int) < 2 * t0.n,
                (dst as int) < 2 * t0.n,
                src != dst,
                c <= n,
                n == t0.n,
                self@.n == t0.n,
                self@.xs.len() == 2 * t0.n,
                self@.zs.len() == 2 * t0.n,
                self@.ph == t0.ph,
                forall|j: int|
                    0 <= j < 2 * t0.n && j != dst ==> (#[trigger] self@.xs[j]) == t0.xs[j],
                forall|j: int|
                    0 <= j < 2 * t0.n && j != dst ==> (#[trigger] self@.zs[j]) == t0.zs[j],
                self@.xs[dst as int].len() == t0.n,
                self@.zs[dst as int].len() == t0.n,
                forall|k: int|
                    0 <= k < c ==> (#[trigger] self@.xs[dst as int][k]) == t0.xs[src as int][k],
                forall|k: int|
                    0 <= k < c ==> (#[trigger] self@.zs[dst as int][k]) == t0.zs[src as int][k],
                forall|k: int|
                    c <= k < t0.n ==> (#[trigger] self@.xs[dst as int][k]) == t0.xs[dst as int][k],
                forall|k: int|
                    c <= k < t0.n ==> (#[trigger] self@.zs[dst as int][k]) == t0.zs[dst as int][k],
            decreases n - c,
        {
            let ghost pre = self@;
            proof {
                assert(self@.xs[src as int] == t0.xs[src as int]);
                assert(self@.zs[src as int] == t0.zs[src as int]);
            }
            let xv = self.x[src][c];
            let zv = self.z[src][c];
            self.x[dst][c] = xv;
            self.z[dst][c] = zv;
            c = c + 1;
            proof {
                assert forall|j: int| 0 <= j < 2 * t0.n && j != dst implies (#[trigger] self@.xs[j])
                    == pre.xs[j] by {}
                assert forall|j: int| 0 <= j < 2 * t0.n && j != dst implies (#[trigger] self@.zs[j])
                    == pre.zs[j] by {}
                assert(self@.xs[dst as int] == pre.xs[dst as int].update(c as int - 1, xv));
                assert(self@.zs[dst as int] == pre.zs[dst as int].update(c as int - 1, zv));
            }
        }
        let pv = self.phase[src];
        self.phase[dst] = pv;
        proof {
            assert(self@.xs[dst as int] =~= t0.xs[src as int]);
            assert(self@.zs[dst as int] =~= t0.zs[src as int]);
            assert(self@ =~~= g);
        }
    }

    /// Multiplies the scratch Pauli by tableau row `i`, phase included; the
    /// tableau itself is read, never written.
    fn row_mult_temp(&self, tx: &mut Vec<bool>, tz: &mut Vec<bool>, tph: &mut u8, i: usize)
        requires
            self@.wf(),
            (i as int) < 2 * self@.n,
            old(tx)@.len() == self@.n,
            old(tz)@.len() == self@.n,
            *old(tph) < 4,
        ensures
            final(tx)@ == xor_seq(old(tx)@, self@.xs[i as int]),
            final(tz)@ == xor_seq(old(tz)@, self@.zs[i as int]),
            *final(tph) == mul_phase(
                *old(tph),
                self@.ph[i as int],
                old(tx)@,
                old(tz)@,
                self@.xs[i as int],
                self@.zs[i as int],
            ),
            *final(tph) < 4,
    {
        let n = self.num_qubits();
        let mut acc: u8 = 0;
        let mut q: usize = 0;
        while q < n
            invariant
                self@.wf(),
                (i as int) < 2 * self@.n,
                q <= n,
                n == self@.n,
                tx@.len() == self@.n,
                tz@.len() == self@.n,
                forall|c: int|
                    0 <= c < q ==> (#[trigger] tx@[c]) == (old(tx)@[c] != self@.xs[i as int][c]),
                forall|c: int|
                    0 <= c < q ==> (#[trigger] tz@[c]) == (old(tz)@[c] != self@.zs[i as int][c]),
                forall|c: int| q <= c < self@.n ==> (#[trigger] tx@[c]) == old(tx)@[c],
                forall|c: int| q <= c < self@.n ==> (#[trigger] tz@[c]) == old(tz)@[c],
                acc == row_phase_sum(
                    old(tx)@,
                    old(tz)@,
                    self@.xs[i as int],
                    self@.zs[i as int],
                    q as int,
                ),
                acc < 4,
            decreases n - q,
        {
            proof {
                assert(self@.xs[i as int] == self.x@[i as int]@);
                assert(self@.zs[i as int] == self.z@[i as int]@);
            }
            let x1 = tx[q];
            let z1 = tz[q];
            let x2 = self.x[i][q];
            let z2 = self.z[i][q];
            let (x3, z3, k) = mul_pauli(x1, z1, x2, z2);
            tx[q] = x3;
            tz[q] = z3;
            acc = (acc + k) % 4;
            q = q + 1;
        }
        let p2 = self.phase[i];
        *tph = (*tph + p2 + acc) % 4;
        proof {
            assert(tx@ =~= xor_seq(old(tx)@, self@.xs[i as int]));
            assert(tz@ =~= xor_seq(old(tz)@, self@.zs[i as int]));
        }
    }

    /// Z-basis measurement of qubit `q`. Returns the outcome bit and
    /// whether it was random. A random outcome rewrites the tableau as
    /// `rand_meas_spec` says; a deterministic outcome leaves it untouched
    /// and reads the bit off the scratch product of `det_outcome` — unless
    /// the scratch phase lands outside {0, 2}, which is surfaced as the
    /// distinct fatal fault rather than mapped to a bit.
    pub fn measure_z(&mut self, q: usize, rng: &mut rand::rngs::StdRng) -> (r: Result<
        (u8, bool),
        TableauFault,
    >)
        requires
            old(self)@.wf(),
            (q as int) < old(self)@.n,
        ensures
            final(self)@.wf(),
            final(self)@.n == old(self)@.n,
            !pivot_exists(old(self)@, q as int) ==> final(self)@ == old(self)@ && r == (
            if det_residue_ok(old(self)@, q as int) {
                Ok::<(u8, bool), TableauFault>((det_outcome(old(self)@, q as int), false))
            } else {
                Err::<(u8, bool), TableauFault>(TableauFault::PhaseResidue)
            }),
            pivot_exists(old(self)@, q as int) ==> (r matches Ok(rr) && rr.1 == true && (rr.0 == 0
                || rr.0 == 1) && exists|p: int|
                is_first_pivot(old(self)@, q as int, p) && final(self)@ == rand_meas_spec(
                    old(self)@,
                    q as int,
                    p,
                    rr.0 == 1,
                )),
    {
        let ghost t0 = old(self)@;
        let n = self.num_qubits();
        let rows = self.x.len();
        let mut p: usize = rows;
        let mut i: usize = n;
        while p == rows && i < rows
            invariant
                self == old(self),
                t0 == old(self)@,
                t0.wf(),
                (q as int) < t0.n,
                rows == 2 * t0.n,
                n == t0.n,
                n <= i <= rows,
                p == rows || is_first_pivot(t0, q as int, p as int),
                p == rows ==> forall|j: int| n <= j < i ==> !(#[trigger] t0.xs[j])[q as int],
            decreases p, rows - i,
        {
            proof {
                assert(self@.xs[i as int] == t0.xs[i as int]);
            }
            if self.x[i][q] {
                p = i;
            } else {
                i = i + 1;
            }
        }
        if p < rows {
            proof {
                assert(t0.xs[p as int][q as int]);
                assert(is_first_pivot(t0, q as int, p as int));
            }
            let bit = rand_bit(rng);
            let ghost g = rand_meas_spec(t0, q as int, p as int, bit);
            let mut i2: usize = 0;
            while i2 < rows
                invariant
                    t0.wf(),
                    g == rand_meas_spec(t0, q as int, p as int, bit),
                    rows == 2 * t0.n,
                    n == t0.n,
                    (q as int) < t0.n,
                    (p as int) < rows,
                    n <= p,
                    i2 <= rows,
                    self@.n == t0.n,
                    self@.xs.len() == rows,
                    self@.zs.len() == rows,
                    self@.ph.len() == rows,
                    self@.wf(),
                    self@.xs[p as int] == t0.xs[p as int],
                    self@.zs[p as int] == t0.zs[p as int],
                    self@.ph[p as int] == t0.ph[p as int],
                    forall|j: int|
                        i2 <= j < rows && j != p ==> (#[trigger] self@.xs[j]) == t0.xs[j],
                    forall|j: int|
                        i2 <= j < rows && j != p ==> (#[trigger] self@.zs[j]) == t0.zs[j],
                    forall|j: int|
                        i2 <= j < rows && j != p ==> (#[trigger] self@.ph[j]) == t0.ph[j],
                    forall|j: int|
                        0 <= j < i2 && j != p ==> (#[trigger] self@.xs[j]) == (if t0.xs[j][q as int] {
                            xor_seq(t0.xs[j], t0.xs[p as int])
                        } else {
                            t0.xs[j]
                        }),
                    forall|j: int|
                        0 <= j < i2 && j != p ==> (#[trigger] self@.zs[j]) == (if t0.xs[j][q as int] {
                            xor_seq(t0.zs[j], t0.zs[p as int])
                        } else {
                            t0.zs[j]
                        }),
                    forall|j: int|
                        0 <= j < i2 && j != p ==> (#[trigger] self@.ph[j]) == (if t0.xs[j][q as int] {
                            mul_phase(
                                t0.ph[j],
                                t0.ph[p as int],
                                t0.xs[j],
                                t0.zs[j],
                                t0.xs[p as int],
                                t0.zs[p as int],
                            )
                        } else {
                            t0.ph[j]
                        }),
                decreases rows - i2,
            {
                proof {
                    assert(self@.xs[i2 as int].len() == t0.n);
                }
                if i2 != p && self.x[i2][q] {
                    let ghost pre = self@;
                    self.row_mult(i2, p);
                    proof {
                        assert(pre.xs[i2 as int] == t0.xs[i2 as int]);
                        assert(pre.zs[i2 as int] == t0.zs[i2 as int]);
                        assert(pre.ph[i2 as int] == t0.ph[i2 as int]);
                    }
                }
                i2 = i2 + 1;
            }
            let d = p - n;
            let ghost am = self@;
            self.copy_row(p, d);
            let ghost ac = self@;
            let zr = zero_row(n);
            self.x[p] = zr;
            let mut zrow = zero_row(n);
            zrow[q] = true;
            self.z[p] = zrow;
            self.phase[p] = if bit {
                2
            } else {
                0
            };
            let out: u8 = if bit {
                1
            } else {
                0
            };
            proof {
                assert forall|j: int| 0 <= j < rows implies (#[trigger] self@.xs[j]) == g.xs[j] by {
                    if j == p {
                        assert(self@.xs[j] =~= g.xs[j]);
                    } else {
                        assert(self@.xs[j] == ac.xs[j]);
                        if j == d {
                            assert(ac.xs[j] == am.xs[p as int]);
                            assert(am.xs[p as int] == t0.xs[p as int]);
                        } else {
                            assert(ac.xs[j] == am.xs[j]);
                        }
                    }
                }
                assert forall|j: int| 0 <= j < rows implies (#[trigger] self@.zs[j]) == g.zs[j] by {
                    if j == p {
                        assert(self@.zs[j] =~= Seq::new(t0.n, |c: int| c == q as int));
                    } else {
                        assert(self@.zs[j] == ac.zs[j]);
                        if j == d {
                            assert(ac.zs[j] == am.zs[p as int]);
                            assert(am.zs[p as int] == t0.zs[p as int]);
                        } else {
                            assert(ac.zs[j] == am.zs[j]);
                        }
                    }
                }
                assert forall|j: int| 0 <= j < rows implies (#[trigger] self@.ph[j]) == g.ph[j] by {
                    if j != p {
                        assert(self@.ph[j] == ac.ph[j]);
                        if j == d {
                            assert(ac.ph[j] == am.ph[p as int]);
                        } else {
                            assert(ac.ph[j] == am.ph[j]);
                        }
                    }
                }
                assert(self@ =~~= g);
                assert(pivot_exists(t0, q as int));
            }
            Ok((out, true))
        } else {
            proof {
                assert forall|j: int| t0.n <= j < 2 * t0.n implies !(#[trigger] t0.xs[j])[q as int]
                    by {}
                assert(!pivot_exists(t0, q as int));
            }
            let mut tx = zero_row(n);
            let mut tz = zero_row(n);
            tz[q] = true;
            let mut tph: u8 = 0;
            proof {
                assert(tz@ =~= Seq::new(t0.n, |c: int| c == q as int));
                assert(ScratchV { xs: tx@, zs: tz@, ph: tph } =~~= det_scratch(t0, q as int, 0));
            }
            let total = self.x.len();
            let mut i3: usize = 0;
            while i3 < n
                invariant
                    self == old(self),
                    t0 == old(self)@,
                    t0.wf(),
                    (q as int) < t0.n,
                    n == t0.n,
                    i3 <= n,
                    total == 2 * t0.n,
                    tx@.len() == t0.n,
                    tz@.len() == t0.n,
                    tph < 4,
                    (ScratchV { xs: tx@, zs: tz@, ph: tph }) == det_scratch(t0, q as int, i3 as int),
                decreases n - i3,
            {
                proof {
                    assert(self@.xs[i3 as int] == self.x@[i3 as int]@);
                }
                if self.x[i3][q] {
                    self.row_mult_temp(&mut tx, &mut tz, &mut tph, i3 + n);
                }
                proof {
                    assert(ScratchV { xs: tx@, zs: tz@, ph: tph } =~~= det_scratch(
                        t0,
                        q as int,
                        i3 as int + 1,
                    ));
                }
                i3 = i3 + 1;
            }
            let residue = tph % 4;
            if residue == 2 {
                Ok((1, false))
            } else if residue == 0 {
                Ok((0, false))
            } else {
                Err(TableauFault::PhaseResidue)
            }
        }
    }
}


/// `h_spec` keeps the tableau well formed.
pub proof fn lemma_h_wf(t: TabV, q: int)
    requires
        t.wf(),
        0 <= q < t.n,
    ensures
        h_spec(t, q).wf(),
{
}

pub proof fn lemma_s_wf(t: TabV, q: int)
    requires
        t.wf(),
        0 <= q < t.n,
    ensures
        s_spec(t, q).wf(),
{
}

pub proof fn lemma_cx_wf(t: TabV, c: int, tq: int)
    requires
        t.wf(),
        0 <= c < t.n,
        0 <= tq < t.n,
    ensures
        cx_spec(t, c, tq).wf(),
{
}

/// Two Hadamards on the same qubit cancel.
pub proof fn lemma_h_h(t: TabV, q: int)
    requires
        t.wf(),
        0 <= q < t.n,
    ensures
        h_spec(h_spec(t, q), q) == t,
{
    let t1 = h_spec(t, q);
    let t2 = h_spec(t1, q);
    assert forall|i: int| 0 <= i < 2 * t.n implies (#[trigger] t2.xs[i]) == t.xs[i] by {
        assert(t2.xs[i] =~= t.xs[i]);
    }
    assert forall|i: int| 0 <= i < 2 * t.n implies (#[trigger] t2.zs[i]) == t.zs[i] by {
        assert(t2.zs[i] =~= t.zs[i]);
    }
    assert forall|i: int| 0 <= i < 2 * t.n implies (#[trigger] t2.ph[i]) == t.ph[i] by {}
    assert(t2 =~~= t);
}

/// Four phase gates on the same qubit cancel.
pub proof fn lemma_s_four(t: TabV, q: int)
    requires
        t.wf(),
        0 <= q < t.n,
    ensures
        s_spec(s_spec(s_spec(s_spec(t, q), q), q), q) == t,
{
    let t1 = s_spec(t, q);
    let t2 = s_spec(t1, q);
    let t3 = s_spec(t2, q);
    let t4 = s_spec(t3, q);
    assert forall|i: int| 0 <= i < 2 * t.n implies (#[trigger] t4.xs[i]) == t.xs[i] by {}
    assert forall|i: int| 0 <= i < 2 * t.n implies (#[trigger] t4.zs[i]) == t.zs[i] by {
        assert(t4.zs[i] =~= t.zs[i]);
    }
    assert forall|i: int| 0 <= i < 2 * t.n implies (#[trigger] t4.ph[i]) == t.ph[i] by {}
    assert(t4 =~~= t);
}

/// Two Pauli X (likewise Z, and Y as X then Z) on the same qubit cancel:
/// the signs they add pairwise sum to a multiple of four.
pub proof fn lemma_x_x(t: TabV, q: int)
    requires
        t.wf(),
        0 <= q < t.n,
    ensures
        x_spec(x_spec(t, q), q) == t,
{
    assert(x_spec(x_spec(t, q), q) =~~= t);
}

pub proof fn lemma_z_z(t: TabV, q: int)
    requires
        t.wf(),
        0 <= q < t.n,
    ensures
        z_spec(z_spec(t, q), q) == t,
{
    assert(z_spec(z_spec(t, q), q) =~~= t);
}

pub proof fn lemma_y_y(t: TabV, q: int)
    requires
        t.wf(),
        0 <= q < t.n,
    ensures
        y_spec(y_spec(t, q), q) == t,
{
    assert(y_spec(y_spec(t, q), q) =~~= t);
}

/// Two CX with the same control and target cancel.
pub proof fn lemma_cx_cx(t: TabV, c: int, tq: int)
    requires
        t.wf(),
        0 <= c < t.n,
        0 <= tq < t.n,
        c != tq,
    ensures
        cx_spec(cx_spec(t, c, tq), c, tq) == t,
{
    let t1 = cx_spec(t, c, tq);
    let t2 = cx_spec(t1, c, tq);
    assert forall|i: int| 0 <= i < 2 * t.n implies (#[trigger] t2.xs[i]) == t.xs[i] by {
        assert(t2.xs[i] =~= t.xs[i]);
    }
    assert forall|i: int| 0 <= i < 2 * t.n implies (#[trigger] t2.zs[i]) == t.zs[i] by {
        assert(t2.zs[i] =~= t.zs[i]);
    }
    assert forall|i: int| 0 <= i < 2 * t.n implies (#[trigger] t2.ph[i]) == t.ph[i] by {}
    assert(t2 =~~= t);
}

/// Two CZ on the same pair cancel, by unfolding the H sandwich around CX.
pub proof fn lemma_cz_cz(t: TabV, a: int, b: int)
    requires
        t.wf(),
        0 <= a < t.n,
        0 <= b < t.n,
        a != b,
    ensures
        cz_spec(cz_spec(t, a, b), a, b) == t,
{
    let u = h_spec(t, b);
    let v = cx_spec(u, a, b);
    let w = h_spec(v, b);
    lemma_h_wf(t, b);
    lemma_cx_wf(u, a, b);
    lemma_h_wf(v, b);
    lemma_h_h(v, b);
    lemma_cx_cx(u, a, b);
    lemma_h_h(t, b);
    assert(cz_spec(cz_spec(t, a, b), a, b) == h_spec(cx_spec(h_spec(w, b), a, b), b));
    assert(h_spec(w, b) == v);
    assert(cx_spec(v, a, b) == u);
    assert(h_spec(u, b) == t);
}

/// One column's contribution to the symplectic inner product of two Pauli
/// rows.
pub open spec fn symp_term(
    x1: Seq<bool>,
    z1: Seq<bool>,
    x2: Seq<bool>,
    z2: Seq<bool>,
    q: int,
) -> bool {
    (x1[q] && z2[q]) != (x2[q] && z1[q])
}

/// The symplectic inner product over the first `k` columns: true exactly
/// when the two Pauli rows anticommute there.
pub open spec fn symp(x1: Seq<bool>, z1: Seq<bool>, x2: Seq<bool>, z2: Seq<bool>, k: int) -> bool
    decreases k,
{
    if k <= 0 {
        false
    } else {
        symp(x1, z1, x2, z2, k - 1) != symp_term(x1, z1, x2, z2, k - 1)
    }
}

/// Whether tableau rows `a` and `b` anticommute.
pub open spec fn rows_anticommute(t: TabV, a: int, b: int) -> bool {
    symp(t.xs[a], t.zs[a], t.xs[b], t.zs[b], t.n as int)
}

/// The symplectic shape of a stabilizer tableau: destabilizer `i`
/// anticommutes with stabilizer `i` and with nothing else among the
/// generators.
pub open spec fn symplectic_ok(t: TabV) -> bool {
    &&& forall|i: int, j: int|
        0 <= i < t.n && 0 <= j < t.n ==> (#[trigger] rows_anticommute(t, i, t.n + j)) == (i == j)
    &&& forall|i: int, j: int|
        0 <= i < t.n && 0 <= j < t.n && i != j ==> !(#[trigger] rows_anticommute(t, i, j))
    &&& forall|i: int, j: int|
        0 <= i < t.n && 0 <= j < t.n && i != j ==> !(#[trigger] rows_anticommute(
            t,
            t.n + i,
            t.n + j,
        ))
}

/// Columnwise-equal contributions give equal products.
proof fn lemma_symp_congruent(
    x1: Seq<bool>,
    z1: Seq<bool>,
    x2: Seq<bool>,
    z2: Seq<bool>,
    y1: Seq<bool>,
    w1: Seq<bool>,
    y2: Seq<bool>,
    w2: Seq<bool>,
    k: int,
)
    requires
        forall|q: int|
            0 <= q < k ==> #[trigger] symp_term(x1, z1, x2, z2, q) == symp_term(y1, w1, y2, w2, q),
    ensures
        symp(x1, z1, x2, z2, k) == symp(y1, w1, y2, w2, k),
    decreases k,
{
    if k > 0 {
        lemma_symp_congruent(x1, z1, x2, z2, y1, w1, y2, w2, k - 1);
    }
}

/// The product is symmetric.
proof fn lemma_symp_sym(x1: Seq<bool>, z1: Seq<bool>, x2: Seq<bool>, z2: Seq<bool>, k: int)
    ensures
        symp(x1, z1, x2, z2, k) == symp(x2, z2, x1, z1, k),
    decreases k,
{
    if k > 0 {
        lemma_symp_sym(x1, z1, x2, z2, k - 1);
    }
}

/// A row commutes with itself.
proof fn lemma_symp_self(x: Seq<bool>, z: Seq<bool>, k: int)
    ensures
        !symp(x, z, x, z, k),
    decreases k,
{
    if k > 0 {
        lemma_symp_self(x, z, k - 1);
    }
}

/// Contributions that differ in exactly one column flip the product.
proof fn lemma_symp_one_diff(
    x1: Seq<bool>,
    z1: Seq<bool>,
    x2: Seq<bool>,
    z2: Seq<bool>,
    y1: Seq<bool>,
    w1: Seq<bool>,
    y2: Seq<bool>,
    w2: Seq<bool>,
    k: int,
    p: int,
)
    requires
        0 <= p < k,
        forall|q: int|
            0 <= q < k && q != p ==> #[trigger] symp_term(x1, z1, x2, z2, q) == symp_term(
                y1,
                w1,
                y2,
                w2,
                q,
            ),
    ensures
        (symp(x1, z1, x2, z2, k) != symp(y1, w1, y2, w2, k)) == (symp_term(x1, z1, x2, z2, p)
            != symp_term(y1, w1, y2, w2, p)),
    decreases k,
{
    if k - 1 == p {
        lemma_symp_congruent(x1, z1, x2, z2, y1, w1, y2, w2, k - 1);
    } else {
        lemma_symp_one_diff(x1, z1, x2, z2, y1, w1, y2, w2, k - 1, p);
    }
}

/// Contributions that differ in two columns, by the same flip, keep the
/// product.
proof fn lemma_symp_two_diff(
    x1: Seq<bool>,
    z1: Seq<bool>,
    x2: Seq<bool>,
    z2: Seq<bool>,
    y1: Seq<bool>,
    w1: Seq<bool>,
    y2: Seq<bool>,
    w2: Seq<bool>,
    k: int,
    p1: int,
    p2: int,
)
    requires
        0 <= p1 < k,
        0 <= p2 < k,
        p1 != p2,
        forall|q: int|
            0 <= q < k && q != p1 && q != p2 ==> #[trigger] symp_term(x1, z1, x2, z2, q)
                == symp_term(y1, w1, y2, w2, q),
        (symp_term(x1, z1, x2, z2, p1) != symp_term(y1, w1, y2, w2, p1)) == (symp_term(
            x1,
            z1,
            x2,
            z2,
            p2,
        ) != symp_term(y1, w1, y2, w2, p2)),
    ensures
        symp(x1, z1, x2, z2, k) == symp(y1, w1, y2, w2, k),
    decreases k,
{
    let hi = if p1 >= p2 {
        p1
    } else {
        p2
    };
    let lo = if p1 >= p2 {
        p2
    } else {
        p1
    };
    if k - 1 == hi {
        lemma_symp_one_diff(x1, z1, x2, z2, y1, w1, y2, w2, k - 1, lo);
    } else {
        lemma_symp_two_diff(x1, z1, x2, z2, y1, w1, y2, w2, k - 1, p1, p2);
    }
}

/// H on one qubit keeps every symplectic product: it swaps the x and z
/// bits of both rows in that column, which the product does not see.
proof fn lemma_h_pair(t: TabV, q: int, a: int, b: int)
    requires
        t.wf(),
        0 <= q < t.n,
        0 <= a < 2 * t.n,
        0 <= b < 2 * t.n,
    ensures
        rows_anticommute(h_spec(t, q), a, b) == rows_anticommute(t, a, b),
{
    let t1 = h_spec(t, q);
    assert forall|m: int| 0 <= m < t.n implies #[trigger] symp_term(
        t1.xs[a],
        t1.zs[a],
        t1.xs[b],
        t1.zs[b],
        m,
    ) == symp_term(t.xs[a], t.zs[a], t.xs[b], t.zs[b], m) by {}
    lemma_symp_congruent(
        t1.xs[a],
        t1.zs[a],
        t1.xs[b],
        t1.zs[b],
        t.xs[a],
        t.zs[a],
        t.xs[b],
        t.zs[b],
        t.n as int,
    );
}

/// S on one qubit keeps every symplectic product.
proof fn lemma_s_pair(t: TabV, q: int, a: int, b: int)
    requires
        t.wf(),
        0 <= q < t.n,
        0 <= a < 2 * t.n,
        0 <= b < 2 * t.n,
    ensures
        rows_anticommute(s_spec(t, q), a, b) == rows_anticommute(t, a, b),
{
    let t1 = s_spec(t, q);
    assert forall|m: int| 0 <= m < t.n implies #[trigger] symp_term(
        t1.xs[a],
        t1.zs[a],
        t1.xs[b],
        t1.zs[b],
        m,
    ) == symp_term(t.xs[a], t.zs[a], t.xs[b], t.zs[b], m) by {}
    lemma_symp_congruent(
        t1.xs[a],
        t1.zs[a],
        t1.xs[b],
        t1.zs[b],
        t.xs[a],
        t.zs[a],
        t.xs[b],
        t.zs[b],
        t.n as int,
    );
}

/// CX keeps every symplectic product: the two touched columns change by
/// the same flip.
proof fn lemma_cx_pair(t: TabV, c: int, tq: int, a: int, b: int)
    requires
        t.wf(),
        0 <= c < t.n,
        0 <= tq < t.n,
        c != tq,
        0 <= a < 2 * t.n,
        0 <= b < 2 * t.n,
    ensures
        rows_anticommute(cx_spec(t, c, tq), a, b) == rows_anticommute(t, a, b),
{
    let t1 = cx_spec(t, c, tq);
    assert forall|m: int| 0 <= m < t.n && m != c && m != tq implies #[trigger] symp_term(
        t1.xs[a],
        t1.zs[a],
        t1.xs[b],
        t1.zs[b],
        m,
    ) == symp_term(t.xs[a], t.zs[a], t.xs[b], t.zs[b], m) by {}
    assert((symp_term(t1.xs[a], t1.zs[a], t1.xs[b], t1.zs[b], c) != symp_term(
        t.xs[a],
        t.zs[a],
        t.xs[b],
        t.zs[b],
        c,
    )) == (symp_term(t1.xs[a], t1.zs[a], t1.xs[b], t1.zs[b], tq) != symp_term(
        t.xs[a],
        t.zs[a],
        t.xs[b],
        t.zs[b],
        tq,
    )));
    lemma_symp_two_diff(
        t1.xs[a],
        t1.zs[a],
        t1.xs[b],
        t1.zs[b],
        t.xs[a],
        t.zs[a],
        t.xs[b],
        t.zs[b],
        t.n as int,
        c,
        tq,
    );
}

/// The symplectic shape holds of the fresh `|0...0>` tableau, and every
/// Clifford gate of the engine preserves it.
pub proof fn lemma_initial_symplectic(n: nat)
    ensures
        symplectic_ok(initial_spec(n)),
{
    let t = initial_spec(n);
    assert forall|i: int, j: int| 0 <= i < n && 0 <= j < n implies (#[trigger] rows_anticommute(
        t,
        i,
        n + j,
    )) == (i == j) by {
        lemma_symp_initial_ds(t, n as int, i, j, n as int);
    }
    assert forall|i: int, j: int| 0 <= i < n && 0 <= j < n && i != j implies !(
    #[trigger] rows_anticommute(t, i, j)) by {
        lemma_symp_initial_dd(t, n as int, i, j, n as int);
    }
    assert forall|i: int, j: int| 0 <= i < n && 0 <= j < n && i != j implies !(
    #[trigger] rows_anticommute(t, n + i, n + j)) by {
        lemma_symp_initial_ss(t, n as int, i, j, n as int);
    }
}

proof fn lemma_symp_initial_ds(t: TabV, n: int, i: int, j: int, k: int)
    requires
        t == initial_spec(n as nat),
        0 <= i < n,
        0 <= j < n,
        0 <= k <= n,
    ensures
        symp(t.xs[i], t.zs[i], t.xs[n + j], t.zs[n + j], k) == (i == j && i < k),
    decreases k,
{
    if k > 0 {
        lemma_symp_initial_ds(t, n, i, j, k - 1);
    }
}

proof fn lemma_symp_initial_dd(t: TabV, n: int, i: int, j: int, k: int)
    requires
        t == initial_spec(n as nat),
        0 <= i < n,
        0 <= j < n,
        0 <= k <= n,
    ensures
        !symp(t.xs[i], t.zs[i], t.xs[j], t.zs[j], k),
    decreases k,
{
    if k > 0 {
        lemma_symp_initial_dd(t, n, i, j, k - 1);
    }
}

proof fn lemma_symp_initial_ss(t: TabV, n: int, i: int, j: int, k: int)
    requires
        t == initial_spec(n as nat),
        0 <= i < n,
        0 <= j < n,
        0 <= k <= n,
    ensures
        !symp(t.xs[n + i], t.zs[n + i], t.xs[n + j], t.zs[n + j], k),
    decreases k,
{
    if k > 0 {
        lemma_symp_initial_ss(t, n, i, j, k - 1);
    }
}

/// H preserves the symplectic shape.
pub proof fn lemma_h_symplectic(t: TabV, q: int)
    requires
        t.wf(),
        symplectic_ok(t),
        0 <= q < t.n,
    ensures
        symplectic_ok(h_spec(t, q)),
{
    let t1 = h_spec(t, q);
    assert forall|i: int, j: int| 0 <= i < t1.n && 0 <= j < t1.n implies (
    #[trigger] rows_anticommute(t1, i, t1.n + j)) == (i == j) by {
        lemma_h_pair(t, q, i, t.n + j);
    }
    assert forall|i: int, j: int| 0 <= i < t1.n && 0 <= j < t1.n && i != j implies !(
    #[trigger] rows_anticommute(t1, i, j)) by {
        lemma_h_pair(t, q, i, j);
    }
    assert forall|i: int, j: int| 0 <= i < t1.n && 0 <= j < t1.n && i != j implies !(
    #[trigger] rows_anticommute(t1, t1.n + i, t1.n + j)) by {
        lemma_h_pair(t, q, t.n + i, t.n + j);
    }
}

/// S preserves the symplectic shape; S dagger follows as three of them.
pub proof fn lemma_s_symplectic(t: TabV, q: int)
    requires
        t.wf(),
        symplectic_ok(t),
        0 <= q < t.n,
    ensures
        symplectic_ok(s_spec(t, q)),
{
    let t1 = s_spec(t, q);
    assert forall|i: int, j: int| 0 <= i < t1.n && 0 <= j < t1.n implies (
    #[trigger] rows_anticommute(t1, i, t1.n + j)) == (i == j) by {
        lemma_s_pair(t, q, i, t.n + j);
    }
    assert forall|i: int, j: int| 0 <= i < t1.n && 0 <= j < t1.n && i != j implies !(
    #[trigger] rows_anticommute(t1, i, j)) by {
        lemma_s_pair(t, q, i, j);
    }
    assert forall|i: int, j: int| 0 <= i < t1.n && 0 <= j < t1.n && i != j implies !(
    #[trigger] rows_anticommute(t1, t1.n + i, t1.n + j)) by {
        lemma_s_pair(t, q, t.n + i, t.n + j);
    }
}

/// The Pauli gates leave the (x, z) bits untouched, so the shape is
/// theirs for free.
pub proof fn lemma_pauli_symplectic(t: TabV, q: int)
    requires
        t.wf(),
        symplectic_ok(t),
        0 <= q < t.n,
    ensures
        symplectic_ok(x_spec(t, q)),
        symplectic_ok(z_spec(t, q)),
        symplectic_ok(y_spec(t, q)),
{
    let tx = x_spec(t, q);
    assert forall|a: int, b: int| 0 <= a < 2 * t.n && 0 <= b < 2 * t.n implies
        #[trigger] rows_anticommute(tx, a, b) == rows_anticommute(t, a, b) by {}
    let tz = z_spec(t, q);
    assert forall|a: int, b: int| 0 <= a < 2 * t.n && 0 <= b < 2 * t.n implies
        #[trigger] rows_anticommute(tz, a, b) == rows_anticommute(t, a, b) by {}
    let ty = y_spec(t, q);
    assert forall|a: int, b: int| 0 <= a < 2 * t.n && 0 <= b < 2 * t.n implies
        #[trigger] rows_anticommute(ty, a, b) == rows_anticommute(t, a, b) by {}
}

/// CX preserves the symplectic shape.
pub proof fn lemma_cx_symplectic(t: TabV, c: int, tq: int)
    requires
        t.wf(),
        symplectic_ok(t),
        0 <= c < t.n,
        0 <= tq < t.n,
        c != tq,
    ensures
        symplectic_ok(cx_spec(t, c, tq)),
{
    let t1 = cx_spec(t, c, tq);
    assert forall|i: int, j: int| 0 <= i < t1.n && 0 <= j < t1.n implies (
    #[trigger] rows_anticommute(t1, i, t1.n + j)) == (i == j) by {
        lemma_cx_pair(t, c, tq, i, t.n + j);
    }
    assert forall|i: int, j: int| 0 <= i < t1.n && 0 <= j < t1.n && i != j implies !(
    #[trigger] rows_anticommute(t1, i, j)) by {
        lemma_cx_pair(t, c, tq, i, j);
    }
    assert forall|i: int, j: int| 0 <= i < t1.n && 0 <= j < t1.n && i != j implies !(
    #[trigger] rows_anticommute(t1, t1.n + i, t1.n + j)) by {
        lemma_cx_pair(t, c, tq, t.n + i, t.n + j);
    }
}

/// CZ preserves the symplectic shape, through its H sandwich.
pub proof fn lemma_cz_symplectic(t: TabV, a: int, b: int)
    requires
        t.wf(),
        symplectic_ok(t),
        0 <= a < t.n,
        0 <= b < t.n,
        a != b,
    ensures
        symplectic_ok(cz_spec(t, a, b)),
{
    lemma_h_wf(t, b);
    lemma_h_symplectic(t, b);
    lemma_cx_wf(h_spec(t, b), a, b);
    lemma_cx_symplectic(h_spec(t, b), a, b);
    lemma_h_symplectic(cx_spec(h_spec(t, b), a, b), b);
}

/// Multiplying the left row in (Pauli product of rows is columnwise XOR)
/// adds the products: the symplectic form is bilinear.
proof fn lemma_symp_mul_left(
    x1: Seq<bool>,
    z1: Seq<bool>,
    xp: Seq<bool>,
    zp: Seq<bool>,
    x2: Seq<bool>,
    z2: Seq<bool>,
    k: int,
)
    requires
        k <= x1.len(),
        k <= z1.len(),
    ensures
        symp(xor_seq(x1, xp), xor_seq(z1, zp), x2, z2, k) == (symp(x1, z1, x2, z2, k) != symp(
            xp,
            zp,
            x2,
            z2,
            k,
        )),
    decreases k,
{
    if k > 0 {
        lemma_symp_mul_left(x1, z1, xp, zp, x2, z2, k - 1);
    }
}

/// The product of any row against the bare `Z_q` stabilizer row is that
/// row's X bit on `q`.
proof fn lemma_symp_zrow(n: nat, q: int, x2: Seq<bool>, z2: Seq<bool>, k: int)
    requires
        0 <= q < n,
        k <= n,
    ensures
        symp(
            Seq::new(n, |c: int| false),
            Seq::new(n, |c: int| c == q),
            x2,
            z2,
            k,
        ) == (q < k && x2[q]),
    decreases k,
{
    if k > 0 {
        lemma_symp_zrow(n, q, x2, z2, k - 1);
    }
}

/// Row `i` of the tableau after the elimination pass of a random
/// measurement: multiplied by row `p` exactly when its X bit on `q` was
/// set.
spec fn elim_x(t: TabV, q: int, p: int, i: int) -> Seq<bool> {
    if t.xs[i][q] {
        xor_seq(t.xs[i], t.xs[p])
    } else {
        t.xs[i]
    }
}

spec fn elim_z(t: TabV, q: int, p: int, i: int) -> Seq<bool> {
    if t.xs[i][q] {
        xor_seq(t.zs[i], t.zs[p])
    } else {
        t.zs[i]
    }
}

/// The symplectic product of two eliminated rows, expanded by
/// bilinearity.
proof fn lemma_symp_elim_pair(t: TabV, q: int, p: int, a: int, b: int)
    requires
        t.wf(),
        0 <= q < t.n,
        t.n <= p < 2 * t.n,
        0 <= a < 2 * t.n,
        0 <= b < 2 * t.n,
    ensures
        symp(elim_x(t, q, p, a), elim_z(t, q, p, a), elim_x(t, q, p, b), elim_z(t, q, p, b), t.n as int)
            == (((symp(t.xs[a], t.zs[a], t.xs[b], t.zs[b], t.n as int) != (t.xs[a][q] && symp(
            t.xs[p],
            t.zs[p],
            t.xs[b],
            t.zs[b],
            t.n as int,
        ))) != (t.xs[b][q] && symp(t.xs[a], t.zs[a], t.xs[p], t.zs[p], t.n as int))) != (t.xs[a][q]
            && t.xs[b][q] && symp(t.xs[p], t.zs[p], t.xs[p], t.zs[p], t.n as int))),
{
    let n = t.n as int;
    let xa = t.xs[a];
    let za = t.zs[a];
    let xb = t.xs[b];
    let zb = t.zs[b];
    let xp = t.xs[p];
    let zp = t.zs[p];
    if t.xs[a][q] {
        if t.xs[b][q] {
            lemma_symp_mul_left(xa, za, xp, zp, xor_seq(xb, zb), xor_seq(zb, zp), n);
            lemma_symp_mul_left(xa, za, xp, zp, elim_x(t, q, p, b), elim_z(t, q, p, b), n);
            lemma_symp_sym(xa, za, elim_x(t, q, p, b), elim_z(t, q, p, b), n);
            lemma_symp_mul_left(xb, zb, xp, zp, xa, za, n);
            lemma_symp_sym(xb, zb, xa, za, n);
            lemma_symp_sym(xp, zp, xa, za, n);
            lemma_symp_sym(xp, zp, elim_x(t, q, p, b), elim_z(t, q, p, b), n);
            lemma_symp_mul_left(xb, zb, xp, zp, xp, zp, n);
            lemma_symp_sym(xb, zb, xp, zp, n);
        } else {
            lemma_symp_mul_left(xa, za, xp, zp, xb, zb, n);
        }
    } else {
        if t.xs[b][q] {
            lemma_symp_sym(xa, za, elim_x(t, q, p, b), elim_z(t, q, p, b), n);
            lemma_symp_mul_left(xb, zb, xp, zp, xa, za, n);
            lemma_symp_sym(xb, zb, xa, za, n);
            lemma_symp_sym(xp, zp, xa, za, n);
        } else {
        }
    }
}

/// A random Z measurement preserves the symplectic shape: every other row
/// with X support on `q` is multiplied by the pivot, the pivot's old row
/// becomes its destabilizer, and the pivot becomes `Z_q`.
pub proof fn lemma_measure_symplectic(t: TabV, q: int, p: int, r: bool)
    requires
        t.wf(),
        symplectic_ok(t),
        0 <= q < t.n,
        t.n <= p < 2 * t.n,
        t.xs[p][q],
    ensures
        symplectic_ok(rand_meas_spec(t, q, p, r)),
{
    let n = t.n as int;
    let kappa = p - n;
    let t1 = rand_meas_spec(t, q, p, r);
    let xp = t.xs[p];
    let zp = t.zs[p];
    let zr = Seq::new(t.n, |c: int| false);
    let zq = Seq::new(t.n, |c: int| c == q);
    assert(rows_anticommute(t, kappa, n + kappa) == true);
    lemma_symp_self(xp, zp, n);

    assert forall|i: int, j: int| 0 <= i < t1.n && 0 <= j < t1.n implies (
    #[trigger] rows_anticommute(t1, i, n + j)) == (i == j) by {
        if j == kappa {
            // The new stabilizer is the bare Z_q row.
            assert(t1.xs[n + j] == zr && t1.zs[n + j] == zq);
            if i == kappa {
                assert(t1.xs[i] == xp && t1.zs[i] == zp);
                lemma_symp_zrow(t.n, q, xp, zp, n);
                lemma_symp_sym(zr, zq, xp, zp, n);
                assert(rows_anticommute(t1, i, n + j) == xp[q]);
            } else {
                assert(t1.xs[i] == elim_x(t, q, p, i) && t1.zs[i] == elim_z(t, q, p, i));
                lemma_symp_zrow(t.n, q, elim_x(t, q, p, i), elim_z(t, q, p, i), n);
                lemma_symp_sym(zr, zq, elim_x(t, q, p, i), elim_z(t, q, p, i), n);
                assert(elim_x(t, q, p, i)[q] == false);
                assert(rows_anticommute(t1, i, n + j) == false);
            }
        } else {
            assert(t1.xs[n + j] == elim_x(t, q, p, n + j) && t1.zs[n + j] == elim_z(
                t,
                q,
                p,
                n + j,
            ));
            if i == kappa {
                assert(t1.xs[i] == xp && t1.zs[i] == zp);
                if t.xs[n + j][q] {
                    lemma_symp_sym(xp, zp, elim_x(t, q, p, n + j), elim_z(t, q, p, n + j), n);
                    lemma_symp_mul_left(t.xs[n + j], t.zs[n + j], xp, zp, xp, zp, n);
                    lemma_symp_sym(t.xs[n + j], t.zs[n + j], xp, zp, n);
                    assert(rows_anticommute(t, n + kappa, n + j) == false);
                } else {
                    lemma_symp_sym(xp, zp, t.xs[n + j], t.zs[n + j], n);
                    assert(rows_anticommute(t, n + kappa, n + j) == false);
                }
                assert(rows_anticommute(t1, i, n + j) == false);
            } else {
                assert(t1.xs[i] == elim_x(t, q, p, i) && t1.zs[i] == elim_z(t, q, p, i));
                lemma_symp_elim_pair(t, q, p, i, n + j);
                assert(rows_anticommute(t, i, t.n + j) == (i == j));
                assert(symp(t.xs[i], t.zs[i], t.xs[n + j], t.zs[n + j], n) == (i == j));
                assert(rows_anticommute(t, n + kappa, n + j) == false);
                lemma_symp_sym(xp, zp, t.xs[n + j], t.zs[n + j], n);
                assert(rows_anticommute(t, i, n + kappa) == false);
                assert(symp(t.xs[i], t.zs[i], xp, zp, n) == false);
                assert(rows_anticommute(t1, i, n + j) == (i == j));
            }
        }
    }

    assert forall|i: int, j: int| 0 <= i < t1.n && 0 <= j < t1.n && i != j implies !(
    #[trigger] rows_anticommute(t1, i, j)) by {
        if i == kappa || j == kappa {
            let o = if i == kappa {
                j
            } else {
                i
            };
            assert(t1.xs[kappa] == xp && t1.zs[kappa] == zp);
            assert(t1.xs[o] == elim_x(t, q, p, o) && t1.zs[o] == elim_z(t, q, p, o));
            assert(rows_anticommute(t, o, n + kappa) == false);
            if t.xs[o][q] {
                lemma_symp_mul_left(t.xs[o], t.zs[o], xp, zp, xp, zp, n);
            }
            lemma_symp_sym(xp, zp, elim_x(t, q, p, o), elim_z(t, q, p, o), n);
            assert(symp(elim_x(t, q, p, o), elim_z(t, q, p, o), xp, zp, n) == false);
        } else {
            assert(t1.xs[i] == elim_x(t, q, p, i) && t1.zs[i] == elim_z(t, q, p, i));
            assert(t1.xs[j] == elim_x(t, q, p, j) && t1.zs[j] == elim_z(t, q, p, j));
            lemma_symp_elim_pair(t, q, p, i, j);
            assert(!rows_anticommute(t, i, j));
            assert(rows_anticommute(t, i, n + kappa) == false);
            assert(rows_anticommute(t, j, n + kappa) == false);
            lemma_symp_sym(xp, zp, t.xs[j], t.zs[j], n);
        }
    }

    assert forall|i: int, j: int| 0 <= i < t1.n && 0 <= j < t1.n && i != j implies !(
    #[trigger] rows_anticommute(t1, n + i, n + j)) by {
        if i == kappa || j == kappa {
            let o = if i == kappa {
                j
            } else {
                i
            };
            assert(t1.xs[n + kappa] == zr && t1.zs[n + kappa] == zq);
            assert(t1.xs[n + o] == elim_x(t, q, p, n + o) && t1.zs[n + o] == elim_z(
                t,
                q,
                p,
                n + o,
            ));
            lemma_symp_zrow(t.n, q, elim_x(t, q, p, n + o), elim_z(t, q, p, n + o), n);
            lemma_symp_sym(zr, zq, elim_x(t, q, p, n + o), elim_z(t, q, p, n + o), n);
            assert(elim_x(t, q, p, n + o)[q] == false);
        } else {
            assert(t1.xs[n + i] == elim_x(t, q, p, n + i) && t1.zs[n + i] == elim_z(t, q, p, n + i));
            assert(t1.xs[n + j] == elim_x(t, q, p, n + j) && t1.zs[n + j] == elim_z(t, q, p, n + j));
            lemma_symp_elim_pair(t, q, p, n + i, n + j);
            assert(!rows_anticommute(t, n + i, n + j));
            assert(!rows_anticommute(t, n + kappa, n + j));
            assert(!rows_anticommute(t, n + kappa, n + i));
            lemma_symp_sym(xp, zp, t.xs[n + j], t.zs[n + j], n);
            lemma_symp_sym(xp, zp, t.xs[n + i], t.zs[n + i], n);
            assert(symp(t.xs[n + i], t.zs[n + i], xp, zp, n) == false);
        }
    }
}

/// Some first pivot exists wherever any pivot does.
pub proof fn lemma_first_pivot_exists(t: TabV, q: int)
    requires
        pivot_exists(t, q),
    ensures
        exists|p: int| is_first_pivot(t, q, p),
{
    let w = choose|p: int| t.n <= p < 2 * t.n && (#[trigger] t.xs[p])[q];
    lemma_first_pivot_below(t, q, w);
}

proof fn lemma_first_pivot_below(t: TabV, q: int, w: int)
    requires
        t.n <= w < 2 * t.n,
        t.xs[w][q],
    ensures
        exists|p: int| is_first_pivot(t, q, p),
    decreases w,
{
    if forall|j: int| t.n <= j < w ==> !(#[trigger] t.xs[j])[q] {
        assert(is_first_pivot(t, q, w));
    } else {
        let w2 = choose|j: int| t.n <= j < w && (#[trigger] t.xs[j])[q];
        lemma_first_pivot_below(t, q, w2);
    }
}

/// The tableau a random measurement leaves behind is well formed.
pub proof fn lemma_rand_meas_wf(t: TabV, q: int, p: int, r: bool)
    requires
        t.wf(),
        0 <= q < t.n,
        t.n <= p < 2 * t.n,
    ensures
        rand_meas_spec(t, q, p, r).wf(),
{
}

/// A row product whose every column contributes no phase adds no phase.
proof fn lemma_row_phase_sum_zero(x1: Seq<bool>, z1: Seq<bool>, x2: Seq<bool>, z2: Seq<bool>, k: int)
    requires
        forall|q: int| 0 <= q < k ==> #[trigger] pauli_phase(x1[q], z1[q], x2[q], z2[q]) == 0,
    ensures
        row_phase_sum(x1, z1, x2, z2, k) == 0,
    decreases k,
{
    if k > 0 {
        lemma_row_phase_sum_zero(x1, z1, x2, z2, k - 1);
    }
}

/// The scratch product of the deterministic branch, on the tableau a
/// random measurement of `q` left behind: only the new destabilizer of
/// the pivot has X on `q`, and multiplying by its stabilizer `±Z_q`
/// leaves exactly the drawn sign.
proof fn lemma_det_scratch_after_meas(t: TabV, q: int, p: int, r: bool, i: int)
    requires
        t.wf(),
        0 <= q < t.n,
        t.n <= p < 2 * t.n,
        t.xs[p][q],
        0 <= i <= t.n,
    ensures
        det_scratch(rand_meas_spec(t, q, p, r), q, i) == (if i <= p - t.n {
            ScratchV {
                xs: Seq::new(t.n, |c: int| false),
                zs: Seq::new(t.n, |c: int| c == q),
                ph: 0u8,
            }
        } else {
            ScratchV {
                xs: Seq::new(t.n, |c: int| false),
                zs: Seq::new(t.n, |c: int| false),
                ph: if r {
                    2u8
                } else {
                    0u8
                },
            }
        }),
    decreases i,
{
    let t1 = rand_meas_spec(t, q, p, r);
    let kappa = p - t.n;
    let zr = Seq::new(t.n, |c: int| false);
    let zq = Seq::new(t.n, |c: int| c == q);
    if i > 0 {
        lemma_det_scratch_after_meas(t, q, p, r, i - 1);
        let prev = det_scratch(t1, q, i - 1);
        if i - 1 == kappa {
            // This destabilizer is the old pivot row; its stabilizer is
            // the measurement row `±Z_q`.
            assert(t1.xs[i - 1] == t.xs[p]);
            assert(t1.xs[i - 1][q]);
            assert(t1.xs[i - 1 + t.n] == zr);
            assert(t1.zs[i - 1 + t.n] == zq);
            assert(t1.ph[i - 1 + t.n] == (if r {
                2u8
            } else {
                0u8
            }));
            assert(xor_seq(prev.xs, zr) =~= zr);
            assert(xor_seq(prev.zs, zq) =~= zr);
            assert forall|c: int| 0 <= c < t.n implies #[trigger] pauli_phase(
                prev.xs[c],
                prev.zs[c],
                zr[c],
                zq[c],
            ) == 0 by {}
            lemma_row_phase_sum_zero(prev.xs, prev.zs, zr, zq, t.n as int);
        } else {
            // Every other destabilizer of the new tableau has no X on `q`.
            if i - 1 < kappa || i - 1 > kappa {
                assert(t1.xs[i - 1] == (if t.xs[i - 1][q] {
                    xor_seq(t.xs[i - 1], t.xs[p])
                } else {
                    t.xs[i - 1]
                }));
                assert(!t1.xs[i - 1][q]);
            }
        }
    }
}

/// Measuring a qubit right after a random measurement of it is
/// deterministic, cannot fault, and repeats the drawn bit.
pub proof fn lemma_measure_repeat(t: TabV, q: int, p: int, r: bool)
    requires
        t.wf(),
        symplectic_ok(t),
        stab_phases_even(t),
        0 <= q < t.n,
        t.n <= p < 2 * t.n,
        t.xs[p][q],
    ensures
        !pivot_exists(rand_meas_spec(t, q, p, r), q),
        det_residue_ok(rand_meas_spec(t, q, p, r), q),
        det_outcome(rand_meas_spec(t, q, p, r), q) == (if r {
            1u8
        } else {
            0u8
        }),
{
    lemma_rand_meas_wf(t, q, p, r);
    lemma_measure_symplectic(t, q, p, r);
    lemma_measure_keeps_even_phases(t, q, p, r);
    let t1 = rand_meas_spec(t, q, p, r);
    let kappa = p - t.n;
    assert forall|j: int| t1.n <= j < 2 * t1.n implies !(#[trigger] t1.xs[j])[q] by {
        if j == p {
            assert(t1.xs[j] == Seq::new(t.n, |c: int| false));
        } else if j == kappa {
        } else {
            assert(t1.xs[j] == (if t.xs[j][q] {
                xor_seq(t.xs[j], t.xs[p])
            } else {
                t.xs[j]
            }));
        }
    }
    lemma_det_scratch_after_meas(t, q, p, r, t.n as int);
    assert(kappa < t.n);
    lemma_det_residue_sound(t1, q);
}

/// Stabilizer rows carry signs only: phases 0 or 2, never 1 or 3.
pub open spec fn stab_phases_even(t: TabV) -> bool {
    forall|j: int| 0 <= j < t.n ==> (#[trigger] t.ph[t.n + j]) % 2 == 0
}

/// A column contributes an odd phase to a row product exactly when the
/// column pair anticommutes, so the product's accumulated phase has the
/// parity of the symplectic inner product.
pub proof fn lemma_phase_sum_parity(
    x1: Seq<bool>,
    z1: Seq<bool>,
    x2: Seq<bool>,
    z2: Seq<bool>,
    k: int,
)
    ensures
        (row_phase_sum(x1, z1, x2, z2, k) % 2 == 0) == !symp(x1, z1, x2, z2, k),
    decreases k,
{
    if k > 0 {
        lemma_phase_sum_parity(x1, z1, x2, z2, k - 1);
    }
}

/// The initial tableau's stabilizer signs are all `+1`.
pub proof fn lemma_initial_phases_even(n: nat)
    ensures
        stab_phases_even(initial_spec(n)),
{
}

/// Every Clifford gate of the engine adds phases of two only, keeping
/// stabilizer signs real.
pub proof fn lemma_gates_keep_even_phases(t: TabV, q: int)
    requires
        t.wf(),
        stab_phases_even(t),
        0 <= q < t.n,
    ensures
        stab_phases_even(h_spec(t, q)),
        stab_phases_even(s_spec(t, q)),
        stab_phases_even(sdag_spec(t, q)),
        stab_phases_even(x_spec(t, q)),
        stab_phases_even(z_spec(t, q)),
        stab_phases_even(y_spec(t, q)),
{
    assert forall|j: int| 0 <= j < t.n implies (#[trigger] s_spec(t, q).ph[t.n + j]) % 2 == 0 by {
        assert(t.ph[t.n + j] % 2 == 0);
    }
    lemma_s_wf(t, q);
    assert forall|j: int| 0 <= j < t.n implies (#[trigger] s_spec(s_spec(t, q), q).ph[t.n + j]) % 2
        == 0 by {
        assert(s_spec(t, q).ph[t.n + j] % 2 == 0);
    }
    lemma_s_wf(s_spec(t, q), q);
    assert forall|j: int| 0 <= j < t.n implies (#[trigger] sdag_spec(t, q).ph[t.n + j]) % 2
        == 0 by {
        assert(s_spec(s_spec(t, q), q).ph[t.n + j] % 2 == 0);
    }
    assert forall|j: int| 0 <= j < t.n implies (#[trigger] h_spec(t, q).ph[t.n + j]) % 2 == 0 by {
        assert(t.ph[t.n + j] % 2 == 0);
    }
    assert forall|j: int| 0 <= j < t.n implies (#[trigger] x_spec(t, q).ph[t.n + j]) % 2 == 0 by {
        assert(t.ph[t.n + j] % 2 == 0);
    }
    assert forall|j: int| 0 <= j < t.n implies (#[trigger] z_spec(t, q).ph[t.n + j]) % 2 == 0 by {
        assert(t.ph[t.n + j] % 2 == 0);
    }
    assert forall|j: int| 0 <= j < t.n implies (#[trigger] y_spec(t, q).ph[t.n + j]) % 2 == 0 by {
        assert(x_spec(t, q).ph[t.n + j] % 2 == 0);
    }
}

/// CX and CZ keep stabilizer signs real as well.
pub proof fn lemma_pair_gates_keep_even_phases(t: TabV, c: int, tq: int)
    requires
        t.wf(),
        stab_phases_even(t),
        0 <= c < t.n,
        0 <= tq < t.n,
    ensures
        stab_phases_even(cx_spec(t, c, tq)),
        stab_phases_even(cz_spec(t, c, tq)),
{
    assert forall|j: int| 0 <= j < t.n implies (#[trigger] cx_spec(t, c, tq).ph[t.n + j]) % 2
        == 0 by {
        assert(t.ph[t.n + j] % 2 == 0);
    }
    lemma_h_wf(t, tq);
    lemma_gates_keep_even_phases(t, tq);
    assert forall|j: int| 0 <= j < t.n implies (#[trigger] cx_spec(h_spec(t, tq), c, tq).ph[t.n
        + j]) % 2 == 0 by {
        assert(h_spec(t, tq).ph[t.n + j] % 2 == 0);
    }
    lemma_cx_wf(h_spec(t, tq), c, tq);
    lemma_gates_keep_even_phases(cx_spec(h_spec(t, tq), c, tq), tq);
}

/// A random measurement keeps stabilizer signs real: each multiplied
/// stabilizer row is the product of two commuting real-signed rows, and
/// the product of commuting rows accumulates an even phase.
pub proof fn lemma_measure_keeps_even_phases(t: TabV, q: int, p: int, r: bool)
    requires
        t.wf(),
        symplectic_ok(t),
        stab_phases_even(t),
        0 <= q < t.n,
        t.n <= p < 2 * t.n,
        t.xs[p][q],
    ensures
        stab_phases_even(rand_meas_spec(t, q, p, r)),
{
    let n = t.n as int;
    let kappa = p - n;
    let t1 = rand_meas_spec(t, q, p, r);
    assert forall|j: int| 0 <= j < t.n implies (#[trigger] t1.ph[n + j]) % 2 == 0 by {
        if n + j == p {
        } else if n + j == kappa {
            assert(false);
        } else if t.xs[n + j][q] {
            assert(t1.ph[n + j] == mul_phase(
                t.ph[n + j],
                t.ph[p],
                t.xs[n + j],
                t.zs[n + j],
                t.xs[p],
                t.zs[p],
            ));
            lemma_phase_sum_parity(t.xs[n + j], t.zs[n + j], t.xs[p], t.zs[p], n);
            assert(!rows_anticommute(t, n + j, n + kappa));
            assert(t.ph[n + j] % 2 == 0);
            assert(t.ph[p] % 2 == 0);
        } else {
            assert(t.ph[n + j] % 2 == 0);
        }
    }
}

/// In the deterministic branch of a sound tableau the scratch Pauli
/// commutes with every stabilizer and its phase stays even: the scratch is
/// `Z_q` times stabilizers, `Z_q` commutes with every stabilizer when none
/// has X on `q`, stabilizers commute among themselves, and a product of
/// commuting real-signed rows picks up an even phase.
proof fn lemma_det_scratch_sound(t: TabV, q: int, i: int)
    requires
        t.wf(),
        symplectic_ok(t),
        stab_phases_even(t),
        0 <= q < t.n,
        !pivot_exists(t, q),
        0 <= i <= t.n,
    ensures
        det_scratch(t, q, i).ph % 2 == 0,
        det_scratch(t, q, i).ph < 4,
        det_scratch(t, q, i).xs.len() == t.n,
        det_scratch(t, q, i).zs.len() == t.n,
        forall|m: int|
            t.n <= m < 2 * t.n ==> !symp(
                det_scratch(t, q, i).xs,
                det_scratch(t, q, i).zs,
                #[trigger] t.xs[m],
                t.zs[m],
                t.n as int,
            ),
    decreases i,
{
    let n = t.n as int;
    if i == 0 {
        let sc = det_scratch(t, q, 0);
        assert(sc.xs =~= Seq::new(t.n, |c: int| false));
        assert(sc.zs =~= Seq::new(t.n, |c: int| c == q));
        assert forall|m: int| t.n <= m < 2 * t.n implies !symp(
            sc.xs,
            sc.zs,
            #[trigger] t.xs[m],
            t.zs[m],
            n,
        ) by {
            lemma_symp_zrow(t.n, q, t.xs[m], t.zs[m], n);
            assert(symp(
                Seq::new(t.n, |c: int| false),
                Seq::new(t.n, |c: int| c == q),
                t.xs[m],
                t.zs[m],
                n,
            ) == (q < t.n && t.xs[m][q]));
            if t.xs[m][q] {
                assert(pivot_exists(t, q));
            }
        }
    } else {
        lemma_det_scratch_sound(t, q, i - 1);
        let prev = det_scratch(t, q, i - 1);
        let sc = det_scratch(t, q, i);
        if t.xs[i - 1][q] {
            let row = i - 1 + n;
            assert(t.n <= row < 2 * t.n);
            // Phase parity: both rows carry even phases and they commute.
            lemma_phase_sum_parity(prev.xs, prev.zs, t.xs[row], t.zs[row], n);
            assert(!symp(prev.xs, prev.zs, t.xs[row], t.zs[row], n));
            assert(t.ph[t.n + (i - 1)] % 2 == 0);
            assert(sc.ph % 2 == 0 && sc.ph < 4);
            // Commutation with every stabilizer, by bilinearity.
            assert(sc.xs == xor_seq(prev.xs, t.xs[row]));
            assert(sc.zs == xor_seq(prev.zs, t.zs[row]));
            assert forall|m: int| t.n <= m < 2 * t.n implies !symp(
                sc.xs,
                sc.zs,
                #[trigger] t.xs[m],
                t.zs[m],
                n,
            ) by {
                lemma_symp_mul_left(prev.xs, prev.zs, t.xs[row], t.zs[row], t.xs[m], t.zs[m], n);
                assert(symp(sc.xs, sc.zs, t.xs[m], t.zs[m], n) == (symp(
                    prev.xs,
                    prev.zs,
                    t.xs[m],
                    t.zs[m],
                    n,
                ) != symp(t.xs[row], t.zs[row], t.xs[m], t.zs[m], n)));
                assert(!symp(prev.xs, prev.zs, t.xs[m], t.zs[m], n));
                if row == m {
                    lemma_symp_self(t.xs[row], t.zs[row], n);
                } else {
                    assert(!rows_anticommute(t, t.n + (row - t.n), t.n + (m - t.n)));
                    assert(!symp(t.xs[row], t.zs[row], t.xs[m], t.zs[m], n));
                }
            }
        }
    }
}

/// P2's deterministic branch: on a well-formed, symplectic tableau with
/// real stabilizer signs and no pivot on `q`, the deterministic scratch
/// phase lands only on 0 or 2 — the phase-residue fault cannot fire.
pub proof fn lemma_det_residue_sound(t: TabV, q: int)
    requires
        t.wf(),
        symplectic_ok(t),
        stab_phases_even(t),
        0 <= q < t.n,
        !pivot_exists(t, q),
    ensures
        det_residue_ok(t, q),
{
    lemma_det_scratch_sound(t, q, t.n as int);
}

} // verus!
