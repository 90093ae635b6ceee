//! What gating does, in exact arithmetic: which projection is activated, and
//! which one it multiplies.

use crate::exact::{adds, counts, exponentiates, multiplies, orders, rounds, size};
use crate::layers::bitlinear::BitLinear;
use crate::layers::linear_laws::weighted;
use crate::layers::swiglu::{GateActivation, SwiGLU, is_activated, is_gated, is_gated_element};
use crate::numeric::{Real, is_exp, is_max, is_negate, is_one, is_over, is_plus, is_times, is_zero};
use crate::tensor::{Ternary, weight_value};
use vstd::prelude::*;

verus! {

/// `r` has the sign of `u`.
pub open spec fn same_sign(u: real, r: real) -> bool {
    &&& (u > 0 as real ==> r > 0 as real)
    &&& (u < 0 as real ==> r < 0 as real)
    &&& (u == 0 as real ==> r == 0 as real)
}

/// How a gate value `g` lets a value `u` through: squared ReLU is shut unless
/// `g` is positive and then multiplies by its square; SiLU multiplies by `g`,
/// less the more negative it is.
pub open spec fn lets_through(
    act: GateActivation,
    e: spec_fn(real) -> real,
    g: real,
    u: real,
    r: real,
) -> bool {
    match act {
        GateActivation::ReLU2 => {
            &&& (g <= 0 as real ==> r == 0 as real)
            &&& (g > 0 as real ==> same_sign(u, r) && r == g * g * u)
        },
        GateActivation::SiLU => {
            &&& (g == 0 as real ==> r == 0 as real)
            &&& (g > 0 as real ==> same_sign(u, r))
            &&& (g < 0 as real ==> same_sign(u, -r))
            &&& r * (1 as real + e(-g)) == g * u
        },
    }
}

proof fn lemma_square_times(g: real, u: real)
    requires
        g > 0 as real,
    ensures
        same_sign(u, g * g * u),
{
    assert(g * g > 0 as real) by (nonlinear_arith)
        requires
            g > 0 as real,
    ;
    let a = g * g;
    assert(u > 0 as real ==> a * u > 0 as real) by (nonlinear_arith)
        requires
            a > 0 as real,
    ;
    assert(u < 0 as real ==> a * u < 0 as real) by (nonlinear_arith)
        requires
            a > 0 as real,
    ;
    assert(a * (0 as real) == 0 as real) by (nonlinear_arith);
}

proof fn lemma_sigmoid_times(g: real, u: real, d: real, a: real, r: real)
    requires
        d > 0 as real,
        a * d == g,
        r == a * u,
    ensures
        g == 0 as real ==> r == 0 as real,
        g > 0 as real ==> same_sign(u, r),
        g < 0 as real ==> same_sign(u, -r),
        r * d == g * u,
{
    assert((a * u) * d == (a * d) * u) by (nonlinear_arith);
    if g == 0 as real {
        assert(a == 0 as real) by (nonlinear_arith)
            requires
                a * d == 0 as real,
                d > 0 as real,
        ;
        assert((0 as real) * u == 0 as real) by (nonlinear_arith);
    } else if g > 0 as real {
        assert(a > 0 as real) by (nonlinear_arith)
            requires
                a * d > 0 as real,
                d > 0 as real,
        ;
        lemma_sign_times(a, u);
    } else {
        assert(a < 0 as real) by (nonlinear_arith)
            requires
                a * d < 0 as real,
                d > 0 as real,
        ;
        lemma_sign_times(-a, u);
        assert((-a) * u == -(a * u)) by (nonlinear_arith);
    }
}

proof fn lemma_sign_times(a: real, u: real)
    requires
        a > 0 as real,
    ensures
        same_sign(u, a * u),
{
    assert(u > 0 as real ==> a * u > 0 as real) by (nonlinear_arith)
        requires
            a > 0 as real,
    ;
    assert(u < 0 as real ==> a * u < 0 as real) by (nonlinear_arith)
        requires
            a > 0 as real,
    ;
    assert(a * (0 as real) == 0 as real) by (nonlinear_arith);
}

proof fn lemma_gated_element<T: Real>(
    v: spec_fn(T) -> real,
    e: spec_fn(real) -> real,
    act: GateActivation,
    g: T,
    u: T,
    r: T,
)
    requires
        adds(v),
        multiplies(v),
        orders(v),
        exponentiates(v, e),
        is_gated_element(act, g, u, r),
    ensures
        lets_through(act, e, v(g), v(u), v(r)),
{
    let a = choose|a: T| is_activated(act, g, a) && #[trigger] is_times(a, u, r);
    match act {
        GateActivation::ReLU2 => {
            let (z, m) = choose|z: T, m: T|
                is_zero(z) && #[trigger] is_max(g, z, m) && is_times(m, m, a);
            let (x, y) = (v(g), v(u));
            if x > 0 as real {
                assert(v(m) == x);
                lemma_square_times(x, y);
            } else {
                assert(v(m) == 0 as real);
                assert((0 as real) * (0 as real) == 0 as real) by (nonlinear_arith);
                assert((0 as real) * y == 0 as real) by (nonlinear_arith);
            }
        },
        GateActivation::SiLU => {
            let (n, x, one, d) = choose|n: T, x: T, one: T, d: T|
                {
                    &&& #[trigger] is_negate(g, n)
                    &&& #[trigger] is_exp(n, x)
                    &&& is_one(one)
                    &&& #[trigger] is_plus(one, x, d)
                    &&& is_over(g, d, a)
                };
            assert(v(d) == 1 as real + e(-v(g)));
            assert(e(-v(g)) > 0 as real);
            lemma_sigmoid_times(v(g), v(u), v(d), v(a), v(r));
        },
    }
}

proof fn lemma_weighted_zeros<T>(v: spec_fn(T) -> real, ws: Seq<Ternary>, xs: Seq<T>, k: nat)
    requires
        k <= xs.len(),
        forall|j: int| 0 <= j < xs.len() ==> v(#[trigger] xs[j]) == 0 as real,
    ensures
        weighted(v, ws, xs, k) == 0 as real,
    decreases k,
{
    if k > 0 {
        lemma_weighted_zeros(v, ws, xs, (k - 1) as nat);
        let w = weight_value(ws[k - 1]) as real;
        assert(v(xs[k - 1]) == 0 as real);
        assert(w * (0 as real) == 0 as real) by (nonlinear_arith);
    }
}

impl<T: Real> BitLinear<T> {
    /// A layer makes zeros of zeros.
    pub proof fn zeros_give_zeros(
        &self,
        v: spec_fn(T) -> real,
        xs: Seq<T>,
        ys: Seq<T>,
    )
        requires
            adds(v),
            multiplies(v),
            counts(v),
            orders(v),
            rounds(v),
            self.spec_weights().wf(),
            xs.len() == self.spec_in(),
            forall|j: int| 0 <= j < xs.len() ==> v(#[trigger] xs[j]) == 0 as real,
            self.is_forward(xs, ys),
        ensures
            forall|i: int| 0 <= i < self.spec_out() ==> v(#[trigger] ys[i]) == 0 as real,
    {
        assert forall|i: int| 0 <= i < self.spec_out() implies v(#[trigger] ys[i]) == 0 as real by {
            self.layers_approximate_the_product(v, xs, ys, 0 as real, i);
            let ws = self.spec_weights().row(i);
            lemma_weighted_zeros(v, ws, xs, xs.len());
            let (n, g) = (xs.len() as real, v(self.spec_weight_scale()));
            assert((0 as real) * n == 0 as real) by (nonlinear_arith);
            let s = size(g);
            assert(s * (0 as real) == 0 as real) by (nonlinear_arith);
            assert(g * (0 as real) == 0 as real) by (nonlinear_arith);
        }
    }
}

impl<T: Real> SwiGLU<T> {
    /// `ys` is the last projection of `mid`, normalized first if the network has
    /// a norm.
    pub open spec fn projects_down(&self, mid: Seq<T>, ys: Seq<T>) -> bool {
        exists|m: Seq<T>| #[trigger]
            self.spec_down().is_forward(m, ys) && match self.spec_sub_norm() {
                Some(norm) => norm.is_forward(mid, m),
                None => m == mid,
            }
    }

    /// Gate values decide how much of the up projection goes through:
    /// the activation acts on the former, and the latter enters linearly, with
    /// its sign.
    pub proof fn the_gate_lets_the_up_projection_through(
        &self,
        v: spec_fn(T) -> real,
        e: spec_fn(real) -> real,
        xs: Seq<T>,
        ys: Seq<T>,
    )
        requires
            adds(v),
            multiplies(v),
            orders(v),
            exponentiates(v, e),
            self.is_forward(xs, ys),
        ensures
            exists|g: Seq<T>, u: Seq<T>, mid: Seq<T>|
                {
                    &&& #[trigger] self.spec_gate().is_forward(xs, g)
                    &&& #[trigger] self.spec_up().is_forward(xs, u)
                    &&& #[trigger] self.projects_down(mid, ys)
                    &&& mid.len() == g.len()
                    &&& forall|i: int|
                        0 <= i < g.len() ==> lets_through(
                            self.spec_activation(),
                            e,
                            v(g[i]),
                            v(u[i]),
                            v(#[trigger] mid[i]),
                        )
                },
    {
        let (g, u, mid) = choose|g: Seq<T>, u: Seq<T>, mid: Seq<T>|
            {
                &&& #[trigger] self.spec_gate().is_forward(xs, g)
                &&& #[trigger] self.spec_up().is_forward(xs, u)
                &&& #[trigger] is_gated(self.spec_activation(), g, u, mid)
                &&& self.is_projected_down(mid, ys)
            };
        assert forall|i: int| 0 <= i < g.len() implies lets_through(
            self.spec_activation(),
            e,
            v(g[i]),
            v(u[i]),
            v(#[trigger] mid[i]),
        ) by {
            assert(is_gated_element(self.spec_activation(), g[i], u[i], mid[i]));
            lemma_gated_element(v, e, self.spec_activation(), g[i], u[i], mid[i]);
        }
        assert(self.projects_down(mid, ys)) by {
            match self.spec_sub_norm() {
                Some(norm) => {
                    let m = choose|m: Seq<T>|
                        #[trigger] norm.is_forward(mid, m) && self.spec_down().is_forward(m, ys);
                    assert(self.spec_down().is_forward(m, ys));
                },
                None => {
                    assert(self.spec_down().is_forward(mid, ys));
                },
            }
        }
    }

    /// Where no gate value is positive, squared ReLU lets nothing
    /// through, whatever the up projection is: the network returns zeros.
    pub proof fn shut_gates_let_nothing_through(
        &self,
        v: spec_fn(T) -> real,
        e: spec_fn(real) -> real,
        xs: Seq<T>,
        ys: Seq<T>,
    )
        requires
            adds(v),
            multiplies(v),
            counts(v),
            orders(v),
            rounds(v),
            exponentiates(v, e),
            self.wf(),
            self.spec_activation() == GateActivation::ReLU2,
            self.spec_sub_norm() is None,
            self.is_forward(xs, ys),
            forall|g: Seq<T>, i: int| #[trigger]
                self.spec_gate().is_forward(xs, g) && 0 <= i < g.len() ==> v(#[trigger] g[i])
                    <= 0 as real,
        ensures
            forall|i: int| 0 <= i < self.spec_out() ==> v(#[trigger] ys[i]) == 0 as real,
    {
        self.the_gate_lets_the_up_projection_through(v, e, xs, ys);
        let (g, u, mid) = choose|g: Seq<T>, u: Seq<T>, mid: Seq<T>|
            {
                &&& #[trigger] self.spec_gate().is_forward(xs, g)
                &&& #[trigger] self.spec_up().is_forward(xs, u)
                &&& #[trigger] self.projects_down(mid, ys)
                &&& mid.len() == g.len()
                &&& forall|i: int|
                    0 <= i < g.len() ==> lets_through(
                        self.spec_activation(),
                        e,
                        v(g[i]),
                        v(u[i]),
                        v(#[trigger] mid[i]),
                    )
            };
        assert forall|j: int| 0 <= j < mid.len() implies v(#[trigger] mid[j]) == 0 as real by {
            assert(v(g[j]) <= 0 as real);
        }
        self.spec_gate().lemma_output_length(xs, g);
        self.spec_down().zeros_give_zeros(v, mid, ys);
    }
}

impl<T: Real> BitLinear<T> {
    proof fn lemma_output_length(&self, xs: Seq<T>, ys: Seq<T>)
        requires
            self.is_forward(xs, ys),
        ensures
            ys.len() == self.spec_out(),
    {
    }
}

} // verus!
