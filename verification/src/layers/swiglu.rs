//! Gated feed-forward network: `down(act(gate(x)) * up(x))`, with ternary
//! projections.

use crate::layers::bitlinear::BitLinear;
use crate::layers::rmsnorm::RmsNorm;
use crate::numeric::{Real, is_exp, is_max, is_negate, is_one, is_over, is_plus, is_times, is_zero};
use crate::rows::{lemma_append_row, lemma_row_bounds, row_of, row_slice};
use crate::text::{concatenated, decimal, with_number};
use vstd::prelude::*;
use vstd::string::*;

verus! {

/// The function that gates.
#[derive(Debug, Clone, Copy, PartialEq, Eq, Structural)]
pub enum GateActivation {
    /// `x / (1 + exp(-x))`.
    SiLU,
    /// `max(x, 0)` squared.
    ReLU2,
}

/// `r` is `x / (1 + exp(-x))`.
pub open spec fn is_silu<T: Real>(x: T, r: T) -> bool {
    exists|n: T, e: T, one: T, d: T|
        {
            &&& #[trigger] is_negate(x, n)
            &&& #[trigger] is_exp(n, e)
            &&& is_one(one)
            &&& #[trigger] is_plus(one, e, d)
            &&& is_over(x, d, r)
        }
}

/// `r` is `max(x, 0)` squared.
pub open spec fn is_relu_squared<T: Real>(x: T, r: T) -> bool {
    exists|z: T, m: T| is_zero(z) && #[trigger] is_max(x, z, m) && is_times(m, m, r)
}

/// `r` is an activation function applied to `x`.
pub open spec fn is_activated<T: Real>(act: GateActivation, x: T, r: T) -> bool {
    match act {
        GateActivation::SiLU => is_silu(x, r),
        GateActivation::ReLU2 => is_relu_squared(x, r),
    }
}

/// `r` is `u` gated by `g`.
pub open spec fn is_gated_element<T: Real>(act: GateActivation, g: T, u: T, r: T) -> bool {
    exists|a: T| is_activated(act, g, a) && #[trigger] is_times(a, u, r)
}

/// `rs` holds the elements of `us` gated by those of `gs`.
pub open spec fn is_gated<T: Real>(
    act: GateActivation,
    gs: Seq<T>,
    us: Seq<T>,
    rs: Seq<T>,
) -> bool {
    &&& rs.len() == gs.len()
    &&& forall|i: int| 0 <= i < gs.len() ==> is_gated_element(act, gs[i], us[i], #[trigger] rs[i])
}

/// `x / (1 + exp(-x))`.
pub fn silu<T: Real>(x: T) -> (r: T)
    ensures
        is_silu(x, r),
{
    let e = x.negate().exp();
    x.over(T::one().plus(e))
}

/// `max(x, 0)` squared.
pub fn relu_squared<T: Real>(x: T) -> (r: T)
    ensures
        is_relu_squared(x, r),
{
    let m = x.max(T::zero());
    m.times(m)
}

/// An activation function applied to a number.
pub fn apply_activation<T: Real>(x: T, act: GateActivation) -> (r: T)
    ensures
        is_activated(act, x, r),
{
    match act {
        GateActivation::SiLU => silu(x),
        GateActivation::ReLU2 => relu_squared(x),
    }
}

/// A gated feed-forward network.
pub struct SwiGLU<T: Real> {
    gate_proj: BitLinear<T>,
    up_proj: BitLinear<T>,
    down_proj: BitLinear<T>,
    sub_norm: Option<RmsNorm<T>>,
    activation: GateActivation,
}

/// The projections of a gated network fit together.
pub open spec fn dims_agree<T: Real>(
    gate_proj: BitLinear<T>,
    up_proj: BitLinear<T>,
    down_proj: BitLinear<T>,
) -> bool {
    &&& gate_proj.wf()
    &&& up_proj.wf()
    &&& down_proj.wf()
    &&& gate_proj.spec_in() == up_proj.spec_in()
    &&& gate_proj.spec_out() == up_proj.spec_out()
    &&& gate_proj.spec_out() == down_proj.spec_in()
}

impl<T: Real> SwiGLU<T> {
    pub closed spec fn spec_gate(&self) -> BitLinear<T> {
        self.gate_proj
    }

    pub closed spec fn spec_up(&self) -> BitLinear<T> {
        self.up_proj
    }

    pub closed spec fn spec_down(&self) -> BitLinear<T> {
        self.down_proj
    }

    pub closed spec fn spec_sub_norm(&self) -> Option<RmsNorm<T>> {
        self.sub_norm
    }

    pub closed spec fn spec_activation(&self) -> GateActivation {
        self.activation
    }

    pub open spec fn spec_in(&self) -> usize {
        self.spec_gate().spec_in()
    }

    pub open spec fn spec_out(&self) -> usize {
        self.spec_down().spec_out()
    }

    /// The parts fit together.
    pub open spec fn wf(&self) -> bool {
        &&& dims_agree(self.spec_gate(), self.spec_up(), self.spec_down())
        &&& (self.spec_sub_norm() matches Some(norm) ==> norm.spec_weight().len()
            == self.spec_gate().spec_out())
    }

    /// What the network makes of a vector.
    pub open spec fn is_forward(&self, xs: Seq<T>, ys: Seq<T>) -> bool {
        exists|g: Seq<T>, u: Seq<T>, mid: Seq<T>|
            {
                &&& #[trigger] self.spec_gate().is_forward(xs, g)
                &&& #[trigger] self.spec_up().is_forward(xs, u)
                &&& #[trigger] is_gated(self.spec_activation(), g, u, mid)
                &&& self.is_projected_down(mid, ys)
            }
    }

    /// What the network makes of its gated intermediate vector.
    pub open spec fn is_projected_down(&self, mid: Seq<T>, ys: Seq<T>) -> bool {
        match self.spec_sub_norm() {
            Some(norm) => exists|m: Seq<T>|
                #[trigger] norm.is_forward(mid, m) && self.spec_down().is_forward(m, ys),
            None => self.spec_down().is_forward(mid, ys),
        }
    }

    /// A network gated by SiLU.
    pub fn new(gate_proj: BitLinear<T>, up_proj: BitLinear<T>, down_proj: BitLinear<T>) -> (f: Self)
        requires
            dims_agree(gate_proj, up_proj, down_proj),
        ensures
            f.wf(),
            f.spec_gate() == gate_proj,
            f.spec_up() == up_proj,
            f.spec_down() == down_proj,
            f.spec_sub_norm() is None,
            f.spec_activation() == GateActivation::SiLU,
    {
        SwiGLU::with_activation(gate_proj, up_proj, down_proj, GateActivation::SiLU)
    }

    /// A network with a given gating function.
    pub fn with_activation(
        gate_proj: BitLinear<T>,
        up_proj: BitLinear<T>,
        down_proj: BitLinear<T>,
        activation: GateActivation,
    ) -> (f: Self)
        requires
            dims_agree(gate_proj, up_proj, down_proj),
        ensures
            f.wf(),
            f.spec_gate() == gate_proj,
            f.spec_up() == up_proj,
            f.spec_down() == down_proj,
            f.spec_sub_norm() is None,
            f.spec_activation() == activation,
    {
        SwiGLU { gate_proj, up_proj, down_proj, sub_norm: None, activation }
    }

    /// A network gated by SiLU that normalizes before the last projection.
    pub fn with_sub_norm(
        gate_proj: BitLinear<T>,
        up_proj: BitLinear<T>,
        down_proj: BitLinear<T>,
        sub_norm: RmsNorm<T>,
    ) -> (f: Self)
        requires
            dims_agree(gate_proj, up_proj, down_proj),
            sub_norm.spec_weight().len() == gate_proj.spec_out(),
        ensures
            f.wf(),
            f.spec_gate() == gate_proj,
            f.spec_up() == up_proj,
            f.spec_down() == down_proj,
            f.spec_sub_norm() == Some(sub_norm),
            f.spec_activation() == GateActivation::SiLU,
    {
        SwiGLU::with_sub_norm_and_activation(
            gate_proj,
            up_proj,
            down_proj,
            sub_norm,
            GateActivation::SiLU,
        )
    }

    /// A network with a given gating function that normalizes before the last
    /// projection.
    pub fn with_sub_norm_and_activation(
        gate_proj: BitLinear<T>,
        up_proj: BitLinear<T>,
        down_proj: BitLinear<T>,
        sub_norm: RmsNorm<T>,
        activation: GateActivation,
    ) -> (f: Self)
        requires
            dims_agree(gate_proj, up_proj, down_proj),
            sub_norm.spec_weight().len() == gate_proj.spec_out(),
        ensures
            f.wf(),
            f.spec_gate() == gate_proj,
            f.spec_up() == up_proj,
            f.spec_down() == down_proj,
            f.spec_sub_norm() == Some(sub_norm),
            f.spec_activation() == activation,
    {
        SwiGLU { gate_proj, up_proj, down_proj, sub_norm: Some(sub_norm), activation }
    }

    /// Length of input vectors.
    pub fn in_features(&self) -> (n: usize)
        ensures
            n == self.spec_in(),
    {
        self.gate_proj.in_features()
    }

    /// Length of the gated intermediate vector.
    pub fn intermediate_size(&self) -> (n: usize)
        ensures
            n == self.spec_gate().spec_out(),
    {
        self.gate_proj.out_features()
    }

    /// Length of output vectors.
    pub fn out_features(&self) -> (n: usize)
        ensures
            n == self.spec_out(),
    {
        self.down_proj.out_features()
    }

    /// Apply the network to a vector.
    pub fn forward(&self, input: &[T]) -> (output: Vec<T>)
        requires
            self.wf(),
            input@.len() == self.spec_in(),
        ensures
            self.is_forward(input@, output@),
            output@.len() == self.spec_out(),
    {
        let gate: Vec<T> = self.gate_proj.forward(input);
        let up: Vec<T> = self.up_proj.forward(input);
        let mut mid: Vec<T> = Vec::new();
        let mut i: usize = 0;
        while i < gate.len()
            invariant
                gate@.len() == up@.len(),
                i <= gate@.len(),
                mid@.len() == i,
                forall|j: int|
                    0 <= j < i ==> is_gated_element(
                        self.activation,
                        gate@[j],
                        up@[j],
                        #[trigger] mid@[j],
                    ),
            decreases gate@.len() - i,
        {
            let a = apply_activation(gate[i], self.activation);
            let r = a.times(up[i]);
            assert(is_gated_element(self.activation, gate@[i as int], up@[i as int], r));
            mid.push(r);
            i += 1;
        }
        assert(self.spec_gate().is_forward(input@, gate@) && self.spec_up().is_forward(input@, up@));
        assert(is_gated(self.spec_activation(), gate@, up@, mid@));
        let output: Vec<T> = match &self.sub_norm {
            Some(norm) => {
                let normed: Vec<T> = norm.forward(mid.as_slice());
                self.down_proj.forward(normed.as_slice())
            },
            None => self.down_proj.forward(mid.as_slice()),
        };
        assert(self.is_projected_down(mid@, output@));
        output
    }

    /// Apply the network to every vector of a sequence.
    pub fn forward_sequence(&self, input: &[T], seq_len: usize) -> (output: Vec<T>)
        requires
            self.wf(),
            input@.len() == seq_len * self.spec_in(),
        ensures
            output@.len() == seq_len * self.spec_out(),
            forall|t: int|
                0 <= t < seq_len ==> self.is_forward(
                    row_of(input@, self.spec_in() as int, t),
                    #[trigger] row_of(output@, self.spec_out() as int, t),
                ),
    {
        let width: usize = self.in_features();
        let mut output: Vec<T> = Vec::new();
        let mut t: usize = 0;
        while t < seq_len
            invariant
                self.wf(),
                width == self.spec_in(),
                input@.len() == seq_len * width,
                t <= seq_len,
                output@.len() == t * self.spec_out(),
                forall|j: int|
                    0 <= j < t ==> self.is_forward(
                        row_of(input@, width as int, j),
                        #[trigger] row_of(output@, self.spec_out() as int, j),
                    ),
            decreases seq_len - t,
        {
            proof {
                lemma_row_bounds(t as int, seq_len as int, width as int);
            }
            let mut y: Vec<T> = self.forward(row_slice(input, width, t));
            proof {
                lemma_append_row(output@, y@, self.spec_out() as int, t as int);
            }
            output.append(&mut y);
            t += 1;
        }
        output
    }
}

impl<T: Real> SwiGLU<T> {
    /// One line about a feed-forward layer.
    pub open spec fn description(&self) -> Seq<char> {
        "SwiGLU"@ + "("@ + decimal(self.spec_in() as nat) + "→"@ + decimal(
            self.spec_gate().spec_out() as nat,
        ) + "→"@ + decimal(self.spec_out() as nat) + (if self.spec_activation()
            == GateActivation::SiLU {
            ", SiLU)"@
        } else {
            ", ReLU²)"@
        })
    }

    /// One line about a feed-forward layer.
    pub fn describe(&self) -> (s: String)
        ensures
            s@ == self.description(),
    {
        let s: String = with_number(String::from_str("SwiGLU"), "(", self.in_features());
        let s: String = with_number(s, "→", self.intermediate_size());
        let s: String = with_number(s, "→", self.out_features());
        match self.activation {
            GateActivation::SiLU => concatenated(s.as_str(), ", SiLU)"),
            GateActivation::ReLU2 => concatenated(s.as_str(), ", ReLU²)"),
        }
    }
}

} // verus!
