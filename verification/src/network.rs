//! The multilayer perceptron: parameter storage per layer, the forward pass,
//! the cost of an output against a one-hot target, and the output layer's
//! bias gradient.
use crate::fixed::{
    div_scale, div_scale_spec, lemma_div_scale_bound, lemma_tanh_spec_bounds, tanh_approx,
    tanh_spec, leaky_ramp, leaky_spec, SCALE,
};
use crate::rng::randomize_value;
use crate::vecops::{
    copy_vec, dot_prefix, dot_spec, flatten_spec, lemma_flatten_prefix,
    lemma_seq_sum_prefix, one_hot, seq_sum, softmax_spec, softmax_vec, sq_err_seq, zero_vec,
    MAX_DIM, PARAM_LIMIT, Z_LIMIT,
};
use vstd::prelude::*;

verus! {

/// Weight matrix of one layer, with the gradient buffer of the same shape.
pub struct WeightMatrix {
    pub matrix: Vec<Vec<i64>>,
    pub gradient: Vec<Vec<i64>>,
}

/// Bias vector of one layer, with the gradient buffer of the same length.
pub struct Biases {
    pub biases: Vec<i64>,
    pub gradient: Vec<i64>,
}

/// Pre-activation (`arguments`) and post-activation (`activations`) vectors.
pub struct Activations {
    pub activations: Vec<i64>,
    pub arguments: Vec<i64>,
}

/// One stage of the network: parameters and the cached activation state.
pub struct NetworkLayer {
    pub activations: Activations,
    pub weights: WeightMatrix,
    pub biases: Biases,
}

/// Magnitude cap the cost and gradient functions accept on output
/// activations: twice one unit.
pub const ACT_LIMIT: i64 = 2 * SCALE;

/// The rows of a matrix held as a vector of row vectors.
pub open spec fn rows_view(img: Seq<Vec<i64>>) -> Seq<Seq<i64>> {
    Seq::new(img.len(), |i: int| img[i]@)
}

pub open spec fn all_bounded(s: Seq<i64>, m: i64) -> bool {
    forall|i: int| 0 <= i < s.len() ==> -m <= #[trigger] s[i] <= m
}

pub open spec fn all_zero(s: Seq<i64>) -> bool {
    forall|i: int| 0 <= i < s.len() ==> #[trigger] s[i] == 0
}

impl NetworkLayer {
    /// Number of neurons in this layer.
    pub open spec fn size(self) -> nat {
        self.activations.activations@.len()
    }

    /// Shape discipline for a computing layer fed by `prior` activations.
    pub open spec fn wf(self, prior: nat) -> bool {
        &&& self.activations.arguments@.len() == self.size()
        &&& self.weights.matrix@.len() == self.size()
        &&& self.weights.gradient@.len() == self.size()
        &&& forall|i: int|
            0 <= i < self.size() ==> (#[trigger] self.weights.matrix@[i])@.len() == prior
        &&& forall|i: int|
            0 <= i < self.size() ==> (#[trigger] self.weights.gradient@[i])@.len() == prior
        &&& self.biases.biases@.len() == self.size()
        &&& self.biases.gradient@.len() == self.size()
    }

    /// The input layer holds empty parameter storage: it never computes.
    pub open spec fn wf_input(self) -> bool {
        &&& self.activations.arguments@.len() == self.size()
        &&& self.weights.matrix@.len() == 0
        &&& self.weights.gradient@.len() == 0
        &&& self.biases.biases@.len() == 0
        &&& self.biases.gradient@.len() == 0
    }

    /// Every weight and bias within `PARAM_LIMIT`.
    pub open spec fn params_bounded(self) -> bool {
        &&& forall|i: int, j: int|
            0 <= i < self.weights.matrix@.len() && 0 <= j < self.weights.matrix@[i]@.len()
                ==> -PARAM_LIMIT <= #[trigger] self.weights.matrix@[i]@[j] <= PARAM_LIMIT
        &&& all_bounded(self.biases.biases@, PARAM_LIMIT)
    }

    /// Every weight and bias zero.
    pub open spec fn params_zero(self) -> bool {
        &&& forall|i: int|
            0 <= i < self.weights.matrix@.len() ==> all_zero((#[trigger] self.weights.matrix@[i])@)
        &&& all_zero(self.biases.biases@)
    }

    /// Allocate a zero-filled layer of `layer_size` neurons fed by
    /// `prior_act` activations.
    pub fn new(layer_size: usize, prior_act: usize) -> (l: NetworkLayer)
        ensures
            l.wf(prior_act as nat),
            l.size() == layer_size,
            l.params_zero(),
            l.params_bounded(),
            all_zero(l.activations.activations@),
            all_zero(l.activations.arguments@),
            forall|i: int|
                0 <= i < layer_size ==> all_zero((#[trigger] l.weights.gradient@[i])@),
            all_zero(l.biases.gradient@),
    {
        let mut matrix: Vec<Vec<i64>> = Vec::new();
        let mut gradient: Vec<Vec<i64>> = Vec::new();
        let mut i: usize = 0;
        while i < layer_size
            invariant
                0 <= i <= layer_size,
                matrix.len() == i,
                gradient.len() == i,
                forall|k: int| 0 <= k < i ==> (#[trigger] matrix@[k])@.len() == prior_act,
                forall|k: int| 0 <= k < i ==> (#[trigger] gradient@[k])@.len() == prior_act,
                forall|k: int| 0 <= k < i ==> all_zero((#[trigger] matrix@[k])@),
                forall|k: int| 0 <= k < i ==> all_zero((#[trigger] gradient@[k])@),
            decreases layer_size - i,
        {
            matrix.push(zero_vec(prior_act));
            gradient.push(zero_vec(prior_act));
            i = i + 1;
        }
        NetworkLayer {
            activations: Activations {
                activations: zero_vec(layer_size),
                arguments: zero_vec(layer_size),
            },
            weights: WeightMatrix { matrix, gradient },
            biases: Biases { biases: zero_vec(layer_size), gradient: zero_vec(layer_size) },
        }
    }

    /// Allocate the input layer: activation storage only, empty parameters.
    pub fn new_input(layer_size: usize) -> (l: NetworkLayer)
        ensures
            l.wf_input(),
            l.size() == layer_size,
            l.params_zero(),
            l.params_bounded(),
            all_zero(l.activations.activations@),
            all_zero(l.activations.arguments@),
    {
        NetworkLayer {
            activations: Activations {
                activations: zero_vec(layer_size),
                arguments: zero_vec(layer_size),
            },
            weights: WeightMatrix { matrix: Vec::new(), gradient: Vec::new() },
            biases: Biases { biases: Vec::new(), gradient: Vec::new() },
        }
    }
}

/// The affine result of row `j`: the row's dot product with the input,
/// scaled back to `SCALE` units, plus the row's bias.
pub open spec fn affine_entry(l: NetworkLayer, x: Seq<i64>, j: int) -> int {
    div_scale_spec(dot_spec(l.weights.matrix@[j]@, x)) + l.biases.biases@[j]
}

impl NetworkLayer {
    /// Draw every weight and bias independently from `[a, b)`; the
    /// activations and the gradient buffers stay as they are.
    pub fn randomize_layer(&mut self, a: i64, b: i64)
        requires
            a < b,
        ensures
            final(self).weights.matrix@.len() == old(self).weights.matrix@.len(),
            forall|i: int|
                0 <= i < final(self).weights.matrix@.len() ==> (
                #[trigger] final(self).weights.matrix@[i])@.len()
                    == old(self).weights.matrix@[i]@.len(),
            forall|i: int, j: int|
                0 <= i < final(self).weights.matrix@.len() && 0 <= j
                    < final(self).weights.matrix@[i]@.len() ==> a <= #[trigger] final(self).weights.matrix@[i]@[j] < b,
            final(self).biases.biases@.len() == old(self).biases.biases@.len(),
            forall|i: int|
                0 <= i < final(self).biases.biases@.len() ==> a <= #[trigger] final(self).biases.biases@[i] < b,
            final(self).weights.gradient == old(self).weights.gradient,
            final(self).biases.gradient == old(self).biases.gradient,
            final(self).activations == old(self).activations,
            final(self).size() == old(self).size(),
    {
        let rows = self.weights.matrix.len();
        let mut new_matrix: Vec<Vec<i64>> = Vec::new();
        let mut i: usize = 0;
        while i < rows
            invariant
                a < b,
                0 <= i <= rows == self.weights.matrix@.len(),
                new_matrix.len() == i,
                forall|k: int|
                    0 <= k < i ==> (#[trigger] new_matrix@[k])@.len()
                        == self.weights.matrix@[k]@.len(),
                forall|k: int, j: int|
                    0 <= k < i && 0 <= j < new_matrix@[k]@.len() ==> a
                        <= #[trigger] new_matrix@[k]@[j] < b,
            decreases rows - i,
        {
            let cols = self.weights.matrix[i].len();
            let mut row: Vec<i64> = Vec::new();
            let mut j: usize = 0;
            while j < cols
                invariant
                    a < b,
                    0 <= j <= cols,
                    row.len() == j,
                    forall|m: int| 0 <= m < j ==> a <= #[trigger] row@[m] < b,
                decreases cols - j,
            {
                row.push(randomize_value(a, b));
                j = j + 1;
            }
            new_matrix.push(row);
            i = i + 1;
        }
        self.weights.matrix = new_matrix;
        let n = self.biases.biases.len();
        let mut new_biases: Vec<i64> = Vec::new();
        let mut k: usize = 0;
        while k < n
            invariant
                a < b,
                0 <= k <= n,
                new_biases.len() == k,
                forall|m: int| 0 <= m < k ==> a <= #[trigger] new_biases@[m] < b,
            decreases n - k,
        {
            new_biases.push(randomize_value(a, b));
            k = k + 1;
        }
        self.biases.biases = new_biases;
    }

    /// Draw every activation independently from `[a, b)`.
    pub fn randomize_activations(&mut self, a: i64, b: i64)
        requires
            a < b,
        ensures
            final(self).activations.activations@.len()
                == old(self).activations.activations@.len(),
            forall|i: int|
                0 <= i < final(self).activations.activations@.len() ==> a <= #[trigger] final(self).activations.activations@[i] < b,
            final(self).activations.arguments == old(self).activations.arguments,
            final(self).weights == old(self).weights,
            final(self).biases == old(self).biases,
    {
        let n = self.activations.activations.len();
        let mut fresh: Vec<i64> = Vec::new();
        let mut i: usize = 0;
        while i < n
            invariant
                a < b,
                0 <= i <= n,
                fresh.len() == i,
                forall|m: int| 0 <= m < i ==> a <= #[trigger] fresh@[m] < b,
            decreases n - i,
        {
            fresh.push(randomize_value(a, b));
            i = i + 1;
        }
        self.activations.activations = fresh;
    }

    /// Overwrite every activation with zero.
    pub fn reset_activations(&mut self)
        ensures
            final(self).activations.activations@.len()
                == old(self).activations.activations@.len(),
            all_zero(final(self).activations.activations@),
            final(self).activations.arguments == old(self).activations.arguments,
            final(self).weights == old(self).weights,
            final(self).biases == old(self).biases,
    {
        let n = self.activations.activations.len();
        self.activations.activations = zero_vec(n);
    }

    /// Apply the leaky ramp elementwise, in place, to the activations.
    pub fn relu(&mut self)
        requires
            forall|i: int|
                0 <= i < old(self).activations.activations@.len() ==> #[trigger] old(self).activations.activations@[i] > i64::MIN,
        ensures
            final(self).activations.activations@.len()
                == old(self).activations.activations@.len(),
            forall|i: int|
                0 <= i < final(self).activations.activations@.len() ==> #[trigger] final(self).activations.activations@[i] as int == leaky_spec(
                    old(self).activations.activations@[i] as int,
                ),
            final(self).activations.arguments == old(self).activations.arguments,
            final(self).weights == old(self).weights,
            final(self).biases == old(self).biases,
    {
        let n = self.activations.activations.len();
        let mut fresh: Vec<i64> = Vec::new();
        let mut i: usize = 0;
        while i < n
            invariant
                0 <= i <= n == self.activations.activations@.len(),
                fresh.len() == i,
                forall|k: int|
                    0 <= k < n ==> #[trigger] self.activations.activations@[k] > i64::MIN,
                forall|k: int|
                    0 <= k < i ==> #[trigger] fresh@[k] as int == leaky_spec(
                        self.activations.activations@[k] as int,
                    ),
            decreases n - i,
        {
            fresh.push(leaky_ramp(self.activations.activations[i]));
            i = i + 1;
        }
        self.activations.activations = fresh;
    }

    /// Apply the hyperbolic tangent elementwise, in place, to the
    /// activations.
    pub fn tanh(&mut self)
        requires
            forall|i: int|
                0 <= i < old(self).activations.activations@.len() ==> #[trigger] old(self).activations.activations@[i] > i64::MIN,
        ensures
            final(self).activations.activations@.len()
                == old(self).activations.activations@.len(),
            forall|i: int|
                0 <= i < final(self).activations.activations@.len() ==> #[trigger] final(self).activations.activations@[i] as int == tanh_spec(
                    old(self).activations.activations@[i] as int,
                ),
            all_bounded(final(self).activations.activations@, SCALE),
            final(self).activations.arguments == old(self).activations.arguments,
            final(self).weights == old(self).weights,
            final(self).biases == old(self).biases,
    {
        let n = self.activations.activations.len();
        let mut fresh: Vec<i64> = Vec::new();
        let mut i: usize = 0;
        while i < n
            invariant
                0 <= i <= n == self.activations.activations@.len(),
                fresh.len() == i,
                forall|k: int|
                    0 <= k < n ==> #[trigger] self.activations.activations@[k] > i64::MIN,
                forall|k: int|
                    0 <= k < i ==> #[trigger] fresh@[k] as int == tanh_spec(
                        self.activations.activations@[k] as int,
                    ),
                forall|k: int| 0 <= k < i ==> -SCALE <= #[trigger] fresh@[k] <= SCALE,
            decreases n - i,
        {
            fresh.push(tanh_approx(self.activations.activations[i]));
            i = i + 1;
        }
        self.activations.activations = fresh;
    }

    /// Replace the activations with their softmax distribution.
    pub fn softmax(&mut self)
        requires
            1 <= old(self).activations.activations@.len() <= MAX_DIM,
        ensures
            final(self).activations.activations@.len()
                == old(self).activations.activations@.len(),
            forall|i: int|
                0 <= i < final(self).activations.activations@.len() ==> #[trigger] final(self).activations.activations@[i] as int == softmax_spec(
                    old(self).activations.activations@,
                )[i],
            forall|i: int|
                0 <= i < final(self).activations.activations@.len() ==> 0 <= #[trigger] final(self).activations.activations@[i] <= SCALE,
            final(self).activations.arguments == old(self).activations.arguments,
            final(self).weights == old(self).weights,
            final(self).biases == old(self).biases,
    {
        let fresh = softmax_vec(&self.activations.activations);
        self.activations.activations = fresh;
    }

    /// Compute the affine transform `W . x + b` and store it into both the
    /// arguments and the activations (the nonlinearity is applied to the
    /// activations afterward, so the arguments keep the pre-activation).
    #[allow(non_snake_case)]
    pub fn calculate_Z(&mut self, x: &Vec<i64>)
        requires
            old(self).wf(x@.len() as nat),
            x@.len() <= MAX_DIM,
            old(self).params_bounded(),
            all_bounded(x@, PARAM_LIMIT),
        ensures
            final(self).wf(x@.len() as nat),
            final(self).size() == old(self).size(),
            final(self).weights == old(self).weights,
            final(self).biases == old(self).biases,
            forall|j: int|
                0 <= j < final(self).size() ==> #[trigger] final(self).activations.arguments@[j] as int == affine_entry(*old(self), x@, j),
            final(self).activations.activations@ == final(self).activations.arguments@,
            all_bounded(final(self).activations.arguments@, Z_LIMIT),
    {
        let n = self.weights.matrix.len();
        let prior = x.len();
        let mut new_args: Vec<i64> = Vec::new();
        let mut i: usize = 0;
        while i < n
            invariant
                0 <= i <= n == self.weights.matrix@.len(),
                self.wf(x@.len() as nat),
                self.params_bounded(),
                all_bounded(x@, PARAM_LIMIT),
                prior == x@.len() <= MAX_DIM,
                n == self.size(),
                new_args.len() == i,
                forall|j: int|
                    0 <= j < i ==> #[trigger] new_args@[j] as int == affine_entry(*self, x@, j),
                all_bounded(new_args@, Z_LIMIT),
            decreases n - i,
        {
            let row_len = self.weights.matrix[i].len();
            let mut acc: i64 = 0;
            let mut j: usize = 0;
            while j < row_len
                invariant
                    0 <= j <= row_len,
                    0 <= i < self.weights.matrix@.len(),
                    self.wf(x@.len() as nat),
                    self.params_bounded(),
                    all_bounded(x@, PARAM_LIMIT),
                    row_len == self.weights.matrix@[i as int]@.len() == x@.len() <= MAX_DIM,
                    acc as int == dot_prefix(self.weights.matrix@[i as int]@, x@, j as int),
                    -((j as int) * ((PARAM_LIMIT as int) * (PARAM_LIMIT as int))) <= acc as int
                        <= (j as int) * ((PARAM_LIMIT as int) * (PARAM_LIMIT as int)),
                decreases row_len - j,
            {
                let w = self.weights.matrix[i][j];
                let xv = x[j];
                proof {
                    assert(-((PARAM_LIMIT as int) * (PARAM_LIMIT as int)) <= w * xv <= (
                    PARAM_LIMIT as int) * (PARAM_LIMIT as int)) by (nonlinear_arith)
                        requires
                            -PARAM_LIMIT <= w <= PARAM_LIMIT,
                            -PARAM_LIMIT <= xv <= PARAM_LIMIT,
                    ;
                    assert((j as int + 1) * ((PARAM_LIMIT as int) * (PARAM_LIMIT as int)) == (
                    j as int) * ((PARAM_LIMIT as int) * (PARAM_LIMIT as int)) + (
                    PARAM_LIMIT as int) * (PARAM_LIMIT as int)) by (nonlinear_arith);
                    assert((j as int + 1) * ((PARAM_LIMIT as int) * (PARAM_LIMIT as int)) <= (
                    MAX_DIM as int) * ((PARAM_LIMIT as int) * (PARAM_LIMIT as int)))
                        by (nonlinear_arith)
                        requires
                            0 <= j + 1 <= MAX_DIM,
                    ;
                    assert((PARAM_LIMIT as int) * (PARAM_LIMIT as int) == 1099511627776)
                        by (nonlinear_arith)
                        requires
                            PARAM_LIMIT == 1048576,
                    ;
                    assert((MAX_DIM as int) * ((PARAM_LIMIT as int) * (PARAM_LIMIT as int))
                        == 1099511627776000000) by (nonlinear_arith)
                        requires
                            MAX_DIM == 1000000,
                            PARAM_LIMIT == 1048576,
                    ;
                }
                let term = w * xv;
                acc = acc + term;
                j = j + 1;
            }
            proof {
                assert((j as int) * ((PARAM_LIMIT as int) * (PARAM_LIMIT as int)) <= (
                MAX_DIM as int) * ((PARAM_LIMIT as int) * (PARAM_LIMIT as int)))
                    by (nonlinear_arith)
                    requires
                        0 <= j <= MAX_DIM,
                ;
                assert((MAX_DIM as int) * ((PARAM_LIMIT as int) * (PARAM_LIMIT as int)) == ((
                Z_LIMIT - PARAM_LIMIT) as int) * (SCALE as int));
                lemma_div_scale_bound(acc as int, ((Z_LIMIT - PARAM_LIMIT) as int) * (
                SCALE as int));
                vstd::arithmetic::div_mod::lemma_div_multiples_vanish(
                    (Z_LIMIT - PARAM_LIMIT) as int,
                    SCALE as int,
                );
                assert((((Z_LIMIT - PARAM_LIMIT) as int) * (SCALE as int)) == (SCALE as int) * ((
                Z_LIMIT - PARAM_LIMIT) as int)) by (nonlinear_arith);
            }
            let ds = div_scale(acc);
            let z = ds + self.biases.biases[i];
            new_args.push(z);
            i = i + 1;
        }
        let copy = copy_vec(&new_args);
        self.activations.arguments = new_args;
        self.activations.activations = copy;
    }
}

/// The full layer stack, input layer first, output layer last.
pub struct Network {
    pub network: Vec<NetworkLayer>,
    pub train_sessions: usize,
}

impl Network {
    /// Number of layers, the input layer included.
    pub open spec fn depth(self) -> nat {
        self.network@.len()
    }

    pub open spec fn layer_size(self, i: int) -> nat {
        self.network@[i].size()
    }

    pub open spec fn output_size(self) -> nat {
        self.layer_size(self.depth() as int - 1)
    }

    pub open spec fn input_activations(self) -> Seq<i64> {
        self.network@[0].activations.activations@
    }

    pub open spec fn output_activations(self) -> Seq<i64> {
        self.network@[self.depth() as int - 1].activations.activations@
    }

    /// Shape discipline of the whole stack: at least two layers, an input
    /// layer with empty parameters, and every later layer's weight rows as
    /// long as the layer before it; every width in `[1, MAX_DIM]`.
    pub open spec fn wf(self) -> bool {
        &&& self.depth() >= 2
        &&& self.network@[0].wf_input()
        &&& forall|i: int|
            1 <= i < self.depth() ==> (#[trigger] self.network@[i]).wf(
                self.network@[i - 1].size(),
            )
        &&& forall|i: int|
            0 <= i < self.depth() ==> 1 <= (#[trigger] self.network@[i]).size() <= MAX_DIM
    }

    pub open spec fn params_bounded(self) -> bool {
        forall|i: int| 0 <= i < self.depth() ==> (#[trigger] self.network@[i]).params_bounded()
    }

    pub open spec fn params_zero(self) -> bool {
        forall|i: int| 0 <= i < self.depth() ==> (#[trigger] self.network@[i]).params_zero()
    }

    /// Build a network from an architecture: one layer per listed width,
    /// layer 0 as the input layer, every layer zero-filled.
    pub fn new(architecture: &Vec<usize>) -> (n: Network)
        requires
            architecture@.len() >= 2,
            forall|i: int|
                0 <= i < architecture@.len() ==> 1 <= #[trigger] architecture@[i] <= MAX_DIM,
        ensures
            n.wf(),
            n.depth() == architecture@.len(),
            forall|i: int|
                0 <= i < architecture@.len() ==> #[trigger] n.layer_size(i) == architecture@[i],
            n.params_zero(),
            n.params_bounded(),
            forall|i: int|
                0 <= i < n.depth() ==> all_zero(
                    (#[trigger] n.network@[i]).activations.activations@,
                ),
            n.train_sessions == 0,
    {
        let mut layers: Vec<NetworkLayer> = Vec::new();
        layers.push(NetworkLayer::new_input(architecture[0]));
        let mut i: usize = 1;
        while i < architecture.len()
            invariant
                1 <= i <= architecture@.len(),
                architecture@.len() >= 2,
                forall|k: int|
                    0 <= k < architecture@.len() ==> 1 <= #[trigger] architecture@[k] <= MAX_DIM,
                layers.len() == i,
                layers@[0].wf_input(),
                forall|k: int|
                    0 <= k < i ==> (#[trigger] layers@[k]).size() == architecture@[k],
                forall|k: int|
                    1 <= k < i ==> (#[trigger] layers@[k]).wf(layers@[k - 1].size()),
                forall|k: int| 0 <= k < i ==> (#[trigger] layers@[k]).params_zero(),
                forall|k: int| 0 <= k < i ==> (#[trigger] layers@[k]).params_bounded(),
                forall|k: int|
                    0 <= k < i ==> all_zero((#[trigger] layers@[k]).activations.activations@),
            decreases architecture@.len() - i,
        {
            layers.push(NetworkLayer::new(architecture[i], architecture[i - 1]));
            i = i + 1;
        }
        Network { network: layers, train_sessions: 0 }
    }

    /// Flatten a row-major image and assign it as the input layer's
    /// activation vector. The flattened length must match the input width.
    pub fn mount(&mut self, image: &Vec<Vec<i64>>, row_size: usize)
        requires
            old(self).wf(),
            image@.len() == row_size,
            row_size >= 1,
            forall|r: int|
                0 <= r < image@.len() ==> (#[trigger] image@[r])@.len() == image@[0]@.len(),
            row_size * image@[0]@.len() == old(self).layer_size(0),
            forall|r: int|
                0 <= r < image@.len() ==> all_bounded((#[trigger] image@[r])@, PARAM_LIMIT),
        ensures
            final(self).wf(),
            final(self).depth() == old(self).depth(),
            final(self).network@[0].activations.activations@ == flatten_spec(rows_view(image@)),
            all_bounded(final(self).network@[0].activations.activations@, PARAM_LIMIT),
            final(self).network@[0].activations.arguments@ == old(self).network@[0].activations.arguments@,
            forall|i: int|
                1 <= i < final(self).depth() ==> #[trigger] final(self).network@[i] == old(self).network@[i],
            final(self).train_sessions == old(self).train_sessions,
    {
        let cols = image[0].len();
        let mut linear_data: Vec<i64> = Vec::new();
        let mut r: usize = 0;
        while r < row_size
            invariant
                0 <= r <= row_size == image@.len(),
                forall|k: int|
                    0 <= k < image@.len() ==> (#[trigger] image@[k])@.len() == cols,
                forall|k: int|
                    0 <= k < image@.len() ==> all_bounded((#[trigger] image@[k])@, PARAM_LIMIT),
                linear_data@ == flatten_spec(rows_view(image@).subrange(0, r as int)),
                all_bounded(linear_data@, PARAM_LIMIT),
            decreases row_size - r,
        {
            let mut c: usize = 0;
            let ghost before = linear_data@;
            while c < cols
                invariant
                    0 <= c <= cols,
                    0 <= r < image@.len(),
                    forall|k: int|
                        0 <= k < image@.len() ==> (#[trigger] image@[k])@.len() == cols,
                    forall|k: int|
                        0 <= k < image@.len() ==> all_bounded((#[trigger] image@[k])@, PARAM_LIMIT),
                    linear_data@ == before + image@[r as int]@.subrange(0, c as int),
                    all_bounded(before, PARAM_LIMIT),
                    all_bounded(linear_data@, PARAM_LIMIT),
                decreases cols - c,
            {
                let v = image[r][c];
                linear_data.push(v);
                proof {
                    assert(linear_data@ =~= before + image@[r as int]@.subrange(0, c + 1));
                }
                c = c + 1;
            }
            proof {
                lemma_flatten_prefix(rows_view(image@), r as int);
                assert(image@[r as int]@.subrange(0, cols as int) =~= rows_view(image@)[r as int]);
                assert(linear_data@ =~= flatten_spec(rows_view(image@).subrange(0, r as int))
                    + rows_view(image@)[r as int]);
            }
            r = r + 1;
        }
        proof {
            assert(rows_view(image@).subrange(0, row_size as int) =~= rows_view(image@));
        }
        let mut layer0 = self.network.remove(0);
        layer0.activations.activations = linear_data;
        self.network.insert(0, layer0);
        proof {
            crate::vecops::lemma_flatten_len(rows_view(image@), image@[0]@.len());
            assert(self.network@ =~= old(self).network@.update(
                0,
                self.network@[0],
            ));
        }
    }
}

/// The forward result of layer `i` against the layer before it: the
/// arguments hold the affine transform of the previous activations, and the
/// activations hold the tanh of the arguments for a hidden layer, or their
/// softmax distribution for the output layer.
pub open spec fn layer_forward_ok(post: Network, i: int) -> bool {
    let l = post.network@[i];
    let prev = post.network@[i - 1].activations.activations@;
    let n = post.network@.len() as int;
    &&& forall|j: int|
        0 <= j < l.size() ==> #[trigger] l.activations.arguments@[j] as int == affine_entry(
            l,
            prev,
            j,
        )
    &&& (i < n - 1 ==> forall|j: int|
        0 <= j < l.size() ==> #[trigger] l.activations.activations@[j] as int == tanh_spec(
            l.activations.arguments@[j] as int,
        ))
    &&& (i == n - 1 ==> forall|j: int|
        0 <= j < l.size() ==> #[trigger] l.activations.activations@[j] as int == softmax_spec(
            l.activations.arguments@,
        )[j])
}

/// What one forward pass does: the input layer and every parameter are
/// untouched, and every later layer is the forward result of the one before
/// it, in order.
pub open spec fn forward_rel(pre: Network, post: Network) -> bool {
    &&& post.network@.len() == pre.network@.len()
    &&& post.network@[0] == pre.network@[0]
    &&& forall|i: int|
        1 <= i < post.network@.len() ==> (#[trigger] post.network@[i]).weights
            == pre.network@[i].weights
    &&& forall|i: int|
        1 <= i < post.network@.len() ==> (#[trigger] post.network@[i]).biases
            == pre.network@[i].biases
    &&& forall|i: int| 1 <= i < post.network@.len() ==> #[trigger] layer_forward_ok(post, i)
}

/// On a network whose weights and biases are all zero, one forward pass
/// leaves every hidden layer's activations all zero (tanh of zero is zero)
/// and puts the uniform distribution in the output layer: every entry is
/// one unit divided by the output width.
pub proof fn lemma_zero_network_uniform(pre: Network, post: Network)
    requires
        pre.wf(),
        post.wf(),
        pre.params_zero(),
        forward_rel(pre, post),
    ensures
        forall|i: int|
            1 <= i < post.depth() ==> all_zero(
                (#[trigger] post.network@[i]).activations.arguments@,
            ),
        forall|i: int|
            1 <= i < post.depth() - 1 ==> all_zero(
                (#[trigger] post.network@[i]).activations.activations@,
            ),
        forall|j: int|
            0 <= j < post.output_size() ==> #[trigger] post.output_activations()[j] as int == (
            SCALE as int) / (post.output_size() as int),
{
    let n = post.depth() as int;
    assert forall|i: int| 1 <= i < n implies all_zero(
        (#[trigger] post.network@[i]).activations.arguments@,
    ) by {
        let l = post.network@[i];
        let prev = post.network@[i - 1].activations.activations@;
        assert(layer_forward_ok(post, i));
        assert(l.weights == pre.network@[i].weights);
        assert(l.biases == pre.network@[i].biases);
        assert(pre.network@[i].params_zero());
        assert forall|j: int| 0 <= j < l.activations.arguments@.len() implies #[trigger] l
            .activations.arguments@[j] == 0 by {
            assert(l.activations.arguments@[j] as int == affine_entry(l, prev, j));
            assert(all_zero(l.weights.matrix@[j]@));
            crate::vecops::lemma_dot_prefix_zero(
                l.weights.matrix@[j]@,
                prev,
                l.weights.matrix@[j]@.len() as int,
            );
            vstd::arithmetic::div_mod::lemma_div_of0(SCALE as int);
            assert(l.biases.biases@[j] == 0);
        }
    }
    assert forall|i: int| 1 <= i < n - 1 implies all_zero(
        (#[trigger] post.network@[i]).activations.activations@,
    ) by {
        let l = post.network@[i];
        assert(layer_forward_ok(post, i));
        assert forall|j: int| 0 <= j < l.activations.activations@.len() implies #[trigger] l
            .activations.activations@[j] == 0 by {
            assert(l.activations.arguments@[j] == 0);
            lemma_tanh_spec_bounds(0);
        }
    }
    let last = post.network@[n - 1];
    let args = last.activations.arguments@;
    let m = post.output_size() as int;
    assert(layer_forward_ok(post, n - 1));
    assert forall|j: int| 0 <= j < m implies #[trigger] post.output_activations()[j] as int == (
    SCALE as int) / m by {
        crate::fixed::lemma_exp_spec_zero();
        assert forall|k: int| 0 <= k < args.len() implies #[trigger] crate::vecops::exp_seq(
            args,
        )[k] == SCALE as int by {
            assert(args[k] == 0);
        }
        crate::vecops::lemma_seq_sum_bounds(
            crate::vecops::exp_seq(args),
            SCALE as int,
            SCALE as int,
        );
        assert(crate::vecops::exp_sum(args) == m * SCALE);
        assert(post.output_activations()[j] as int == softmax_spec(args)[j]);
        assert(softmax_spec(args)[j] == (SCALE as int) * SCALE / (m * SCALE));
        vstd::arithmetic::div_mod::lemma_div_denominator(
            (SCALE as int) * SCALE,
            SCALE as int,
            m,
        );
        vstd::arithmetic::div_mod::lemma_div_multiples_vanish(SCALE as int, SCALE as int);
        assert((SCALE as int) * m == m * SCALE) by (nonlinear_arith);
    }
}

impl Network {
    /// One forward pass: for layers 1 onward, in order, compute the affine
    /// transform of the previous layer's activations, then apply tanh to
    /// every hidden layer and softmax to the output layer.
    pub fn forward_calculate(&mut self)
        requires
            old(self).wf(),
            old(self).params_bounded(),
            all_bounded(old(self).input_activations(), PARAM_LIMIT),
        ensures
            final(self).wf(),
            forward_rel(*old(self), *final(self)),
            final(self).params_bounded(),
            final(self).depth() == old(self).depth(),
            forall|i: int|
                0 <= i < final(self).depth() ==> #[trigger] final(self).layer_size(i) == old(self).layer_size(i),
            forall|i: int|
                1 <= i < final(self).depth() - 1 ==> all_bounded(
                    (#[trigger] final(self).network@[i]).activations.activations@,
                    SCALE,
                ),
            forall|j: int|
                0 <= j < final(self).output_size() ==> 0 <= #[trigger] final(self).output_activations()[j] <= SCALE,
            final(self).train_sessions == old(self).train_sessions,
    {
        let n = self.network.len();
        let mut prev = copy_vec(&self.network[0].activations.activations);
        let mut i: usize = 1;
        while i < n
            invariant
                1 <= i <= n == self.network@.len(),
                self.wf(),
                self.params_bounded(),
                self.train_sessions == old(self).train_sessions,
                self.network@[0] == old(self).network@[0],
                forall|k: int| i <= k < n ==> #[trigger] self.network@[k] == old(self).network@[k],
                forall|k: int|
                    1 <= k < i ==> (#[trigger] self.network@[k]).weights
                        == old(self).network@[k].weights,
                forall|k: int|
                    1 <= k < i ==> (#[trigger] self.network@[k]).biases
                        == old(self).network@[k].biases,
                forall|k: int|
                    0 <= k < n ==> (#[trigger] self.network@[k]).size() == old(self).network@[k].size(),
                forall|k: int| 1 <= k < i ==> #[trigger] layer_forward_ok(*self, k),
                forall|k: int|
                    1 <= k < i && k < n - 1 ==> all_bounded(
                        (#[trigger] self.network@[k]).activations.activations@,
                        SCALE,
                    ),
                i == n ==> forall|j: int|
                    0 <= j < self.output_size() ==> 0 <= #[trigger] self.output_activations()[j]
                        <= SCALE,
                prev@ == self.network@[i - 1].activations.activations@,
                all_bounded(prev@, PARAM_LIMIT),
            decreases n - i,
        {
            let ghost pre_loop = *self;
            let mut layer = self.network.remove(i);
            layer.calculate_Z(&prev);
            if i != n - 1 {
                layer.tanh();
            } else {
                layer.softmax();
            }
            prev = copy_vec(&layer.activations.activations);
            self.network.insert(i, layer);
            proof {
                assert(self.network@ =~= pre_loop.network@.update(i as int, self.network@[
                i as int]));
                assert(layer_forward_ok(*self, i as int));
                assert forall|k: int| 1 <= k < i + 1 implies #[trigger] layer_forward_ok(
                    *self,
                    k,
                ) by {
                    if k < i {
                        assert(self.network@[k] == pre_loop.network@[k]);
                        assert(self.network@[k - 1] == pre_loop.network@[k - 1]);
                        assert(layer_forward_ok(pre_loop, k));
                    }
                }
                assert(all_bounded(prev@, PARAM_LIMIT)) by {
                    assert(SCALE < PARAM_LIMIT);
                }
            }
            i = i + 1;
        }
    }

    /// Apply `randomize_layer` to every non-input layer: every weight and
    /// bias of the computing layers is drawn independently from `[a, b)`.
    pub fn randomize_layers(&mut self, a: i64, b: i64)
        requires
            old(self).wf(),
            -PARAM_LIMIT <= a < b <= PARAM_LIMIT,
        ensures
            final(self).wf(),
            final(self).params_bounded(),
            final(self).depth() == old(self).depth(),
            forall|i: int|
                0 <= i < final(self).depth() ==> #[trigger] final(self).layer_size(i) == old(self).layer_size(i),
            final(self).network@[0] == old(self).network@[0],
            forall|i: int, j: int, k: int|
                1 <= i < final(self).depth() && 0 <= j < final(self).network@[i].weights.matrix@.len()
                    && 0 <= k < final(self).network@[i].weights.matrix@[j]@.len() ==> a
                    <= #[trigger] final(self).network@[i].weights.matrix@[j]@[k] < b,
            forall|i: int, j: int|
                1 <= i < final(self).depth() && 0 <= j
                    < final(self).network@[i].biases.biases@.len() ==> a <= #[trigger] final(self).network@[i].biases.biases@[j] < b,
            forall|i: int|
                1 <= i < final(self).depth() ==> (#[trigger] final(self).network@[i]).activations
                    == old(self).network@[i].activations,
            forall|i: int|
                1 <= i < final(self).depth() ==> (#[trigger] final(self).network@[i]).weights.gradient
                    == old(self).network@[i].weights.gradient,
            forall|i: int|
                1 <= i < final(self).depth() ==> (#[trigger] final(self).network@[i]).biases.gradient
                    == old(self).network@[i].biases.gradient,
            final(self).train_sessions == old(self).train_sessions,
    {
        let n = self.network.len();
        let mut i: usize = 1;
        while i < n
            invariant
                1 <= i <= n == self.network@.len(),
                old(self).wf(),
                -PARAM_LIMIT <= a < b <= PARAM_LIMIT,
                self.wf(),
                self.train_sessions == old(self).train_sessions,
                self.network@[0] == old(self).network@[0],
                forall|k: int| i <= k < n ==> #[trigger] self.network@[k] == old(self).network@[k],
                forall|k: int|
                    0 <= k < n ==> (#[trigger] self.network@[k]).size() == old(self).network@[k].size(),
                forall|k: int, j: int, m: int|
                    1 <= k < i && 0 <= j < self.network@[k].weights.matrix@.len() && 0 <= m
                        < self.network@[k].weights.matrix@[j]@.len() ==> a
                        <= #[trigger] self.network@[k].weights.matrix@[j]@[m] < b,
                forall|k: int, j: int|
                    1 <= k < i && 0 <= j < self.network@[k].biases.biases@.len() ==> a
                        <= #[trigger] self.network@[k].biases.biases@[j] < b,
                forall|k: int|
                    1 <= k < i ==> (#[trigger] self.network@[k]).activations == old(self).network@[k].activations,
                forall|k: int|
                    1 <= k < i ==> (#[trigger] self.network@[k]).weights.gradient == old(self).network@[k].weights.gradient,
                forall|k: int|
                    1 <= k < i ==> (#[trigger] self.network@[k]).biases.gradient == old(self).network@[k].biases.gradient,
                forall|k: int| 1 <= k < i ==> (#[trigger] self.network@[k]).params_bounded(),
            decreases n - i,
        {
            let ghost pre_loop = *self;
            let mut layer = self.network.remove(i);
            layer.randomize_layer(a, b);
            self.network.insert(i, layer);
            proof {
                assert(self.network@ =~= pre_loop.network@.update(i as int, self.network@[
                i as int]));
            }
            i = i + 1;
        }
        proof {
            assert forall|k: int| 0 <= k < self.depth() implies (
            #[trigger] self.network@[k]).params_bounded() by {
                if k == 0 {
                    assert(self.network@[0] == old(self).network@[0]);
                }
            }
        }
    }

    /// Mean squared error of the output distribution against the one-hot
    /// target of `answer`, scaled by `1 / (2 * outputSize)`. Pure: nothing is
    /// mutated.
    pub fn cost(&self, answer: i8) -> (r: i64)
        requires
            self.wf(),
            0 <= answer < self.output_size(),
            all_bounded(self.output_activations(), ACT_LIMIT),
        ensures
            r as int == crate::vecops::cost_spec(self.output_activations(), answer as int),
            r >= 0,
    {
        let n = self.network.len();
        let out = &self.network[n - 1].activations.activations;
        let out_len = out.len();
        let ghost target = one_hot(out@.len(), answer as int);
        let ghost errs = sq_err_seq(target, out@);
        let mut total: i64 = 0;
        let mut i: usize = 0;
        while i < out_len
            invariant
                0 <= i <= out_len == out@.len() <= MAX_DIM,
                0 <= answer < out@.len(),
                all_bounded(out@, ACT_LIMIT),
                target == one_hot(out@.len(), answer as int),
                errs == sq_err_seq(target, out@),
                total as int == seq_sum(errs.subrange(0, i as int)),
                0 <= total <= (i as int) * 115964116992,
            decreases out_len - i,
        {
            let t: i64 = if i == answer as usize {
                SCALE
            } else {
                0
            };
            proof {
                assert(i == answer as usize <==> i as int == answer as int);
            }
            let d = t - out[i];
            proof {
                assert(0 <= d * d <= 115964116992) by (nonlinear_arith)
                    requires
                        -196608 <= d <= 196608,
                ;
                assert((i as int + 1) * 115964116992 == (i as int) * 115964116992
                    + 115964116992);
                lemma_seq_sum_prefix(errs, i as int);
                assert(errs[i as int] == d * d);
            }
            let sq = d * d;
            total = total + sq;
            i = i + 1;
        }
        proof {
            assert(errs.subrange(0, out_len as int) =~= errs);
            assert(2 * (out@.len() as int) * SCALE > 0);
        }
        let divisor = 2 * (out_len as i64) * SCALE;
        proof {
            vstd::arithmetic::div_mod::lemma_div_pos_is_pos(total as int, divisor as int);
            vstd::arithmetic::div_mod::lemma_div_is_ordered(
                total as int,
                i64::MAX as int,
                divisor as int,
            );
        }
        total / divisor
    }

    /// Compute the output layer's bias gradient for the one-hot target of
    /// `answer`: the elementwise product of the cost derivative with the
    /// diagonal softmax derivative recomputed from the stored arguments. Only
    /// the output layer's bias-gradient buffer is overwritten.
    pub fn initial_backpropagate(&mut self, answer: usize)
        requires
            old(self).wf(),
            answer < old(self).output_size(),
            all_bounded(old(self).output_activations(), ACT_LIMIT),
        ensures
            final(self).wf(),
            final(self).depth() == old(self).depth(),
            forall|k: int|
                0 <= k < final(self).depth() - 1 ==> #[trigger] final(self).network@[k] == old(self).network@[k],
            final(self).network@[final(self).depth() - 1].activations == old(self).network@[old(self).depth() - 1].activations,
            final(self).network@[final(self).depth() - 1].weights == old(self).network@[old(self).depth() - 1].weights,
            final(self).network@[final(self).depth() - 1].biases.biases == old(self).network@[old(self).depth() - 1].biases.biases,
            final(self).network@[final(self).depth() - 1].biases.gradient@.len() == old(self).output_size(),
            forall|i: int|
                0 <= i < final(self).output_size() ==> #[trigger] final(self).network@[final(self).depth() - 1].biases.gradient@[i] as int == crate::vecops::bias_grad_spec(
                    old(self).network@[old(self).depth() - 1].activations.arguments@,
                    old(self).output_activations(),
                    answer as int,
                    i,
                ),
            final(self).train_sessions == old(self).train_sessions,
    {
        let n = self.network.len();
        let ghost pre = *self;
        let mut last = self.network.remove(n - 1);
        let ghost args = last.activations.arguments@;
        let ghost acts = last.activations.activations@;
        let p = softmax_vec(&last.activations.arguments);
        let out_len = last.activations.activations.len();
        let mut grad: Vec<i64> = Vec::new();
        let mut i: usize = 0;
        while i < out_len
            invariant
                0 <= i <= out_len == acts.len() <= MAX_DIM,
                answer < acts.len(),
                args.len() == acts.len(),
                p.len() == acts.len(),
                all_bounded(acts, ACT_LIMIT),
                last.activations.arguments@ == args,
                last.activations.activations@ == acts,
                forall|k: int|
                    0 <= k < acts.len() ==> p@[k] as int == #[trigger] softmax_spec(args)[k],
                forall|k: int| 0 <= k < acts.len() ==> 0 <= #[trigger] p@[k] <= SCALE,
                grad.len() == i,
                forall|k: int|
                    0 <= k < i ==> #[trigger] grad@[k] as int == crate::vecops::bias_grad_spec(
                        args,
                        acts,
                        answer as int,
                        k,
                    ),
            decreases out_len - i,
        {
            let t: i64 = if i == answer {
                SCALE
            } else {
                0
            };
            let pi = p[i];
            proof {
                assert(0 <= pi * (SCALE - pi) <= 4294967296) by (nonlinear_arith)
                    requires
                        0 <= pi <= 65536,
                ;
                vstd::arithmetic::div_mod::lemma_div_pos_is_pos(
                    pi * (SCALE - pi),
                    SCALE as int,
                );
                vstd::arithmetic::div_mod::lemma_div_is_ordered(
                    pi * (SCALE - pi),
                    4294967296,
                    SCALE as int,
                );
            }
            let s = pi * (SCALE - pi) / SCALE;
            proof {
                assert(s as int == crate::vecops::softmax_deriv(args, i as int));
                assert(0 <= s <= SCALE);
            }
            let d = last.activations.activations[i] - t;
            let g: i64 = if d >= 0 {
                proof {
                    assert(0 <= s * d <= 12884901888) by (nonlinear_arith)
                        requires
                            0 <= s <= 65536,
                            0 <= d <= 196608,
                    ;
                    vstd::arithmetic::div_mod::lemma_div_pos_is_pos(s * d, SCALE as int);
                    vstd::arithmetic::div_mod::lemma_div_is_ordered(
                        s * d,
                        12884901888,
                        SCALE as int,
                    );
                }
                s * d / SCALE
            } else {
                proof {
                    assert(0 <= s * (-d) <= 12884901888) by (nonlinear_arith)
                        requires
                            0 <= s <= 65536,
                            0 < -d <= 196608,
                    ;
                    vstd::arithmetic::div_mod::lemma_div_pos_is_pos(s * (-d), SCALE as int);
                    vstd::arithmetic::div_mod::lemma_div_is_ordered(
                        s * (-d),
                        12884901888,
                        SCALE as int,
                    );
                }
                -(s * (-d) / SCALE)
            };
            proof {
                assert(one_hot(acts.len(), answer as int)[i as int] == t as int);
                assert(g as int == crate::vecops::bias_grad_spec(
                    args,
                    acts,
                    answer as int,
                    i as int,
                ));
            }
            grad.push(g);
            i = i + 1;
        }
        last.biases.gradient = grad;
        self.network.insert(n - 1, last);
        proof {
            assert(self.network@ =~= pre.network@.update(n - 1, self.network@[n - 1]));
        }
    }
}

} // verus!
