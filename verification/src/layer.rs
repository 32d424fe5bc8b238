//! Layers: fixed-arity vector transforms and their combinators.
//!
//! A layer consumes a fixed number of input vectors of fixed lengths and
//! produces a fixed number of output vectors of fixed lengths; `in_lens` and
//! `out_lens` give those shapes, `wf` says when a composed graph is
//! well-formed, and composition with mismatched shapes is rejected at
//! construction time by the checked constructors.
//!
//! Evaluation is split into two spec-level views: `eval_out`, the outputs as
//! a pure function of the layer, its inputs and the noise samples drawn this
//! call; and `eval_next`, the relation tying the layer to its successor state
//! (only a recurrent wrapper changes: its memory vector is replaced by the
//! rectified tail segment of its inner layer's output).

use vstd::prelude::*;
use crate::codec::BrainError;
use crate::fixed::{in_range, seq_in_range, spec_sat_add, sat_add, spec_fx_mul, fx_mul, spec_relu,
    relu};

verus! {

/// A node of the dataflow graph.
pub enum Layer {
    /// Elementwise rectification: one input, one output of the same length.
    Rectify { size: usize },
    /// Affine transform: one input of length `in_len`, one output of length
    /// `weights.len()`. Each row holds `in_len` weights plus a final bias
    /// weight, the bias trick: the input behaves as if a constant one unit
    /// were appended.
    Affine { in_len: usize, weights: Vec<Vec<i64>> },
    /// Ordered concatenation of `n` inputs of equal length `each`.
    ConcatN { n: usize, each: usize },
    /// Split one input of length `len` into its first `at` elements and the
    /// rest.
    Split { len: usize, at: usize },
    /// Identity on one input.
    PassThrough { size: usize },
    /// No inputs; one output of length `size` drawn from the noise samples
    /// supplied to the call.
    RandomNoise { size: usize },
    /// Feed `above`'s outputs into `below`.
    Sequential { above: Box<Layer>, below: Box<Layer> },
    /// Run `left` and `right` independently and concatenate their single
    /// outputs.
    SideBySide { left: Box<Layer>, right: Box<Layer> },
    /// Thread a persistent memory vector of length `msize` through `inner`:
    /// the call input is extended with the memory, and the tail segment of
    /// `inner`'s output, rectified, becomes the new memory.
    Recurrent { inner: Box<Layer>, msize: usize, memory: Vec<i64> },
}

/// Lengths of the input vectors a layer accepts, in argument order.
pub open spec fn in_lens(l: Layer) -> Seq<int>
    decreases l,
{
    match l {
        Layer::Rectify { size } => seq![size as int],
        Layer::Affine { in_len, weights } => seq![in_len as int],
        Layer::ConcatN { n, each } => Seq::new(n as nat, |i: int| each as int),
        Layer::Split { len, at } => seq![len as int],
        Layer::PassThrough { size } => seq![size as int],
        Layer::RandomNoise { size } => Seq::empty(),
        Layer::Sequential { above, below } => in_lens(*above),
        Layer::SideBySide { left, right } => in_lens(*left) + in_lens(*right),
        Layer::Recurrent { inner, msize, memory } => seq![in_lens(*inner)[0] - msize],
    }
}

/// Lengths of the output vectors a layer produces, in order.
pub open spec fn out_lens(l: Layer) -> Seq<int>
    decreases l,
{
    match l {
        Layer::Rectify { size } => seq![size as int],
        Layer::Affine { in_len, weights } => seq![weights@.len() as int],
        Layer::ConcatN { n, each } => seq![(n as int) * (each as int)],
        Layer::Split { len, at } => seq![at as int, len - at],
        Layer::PassThrough { size } => seq![size as int],
        Layer::RandomNoise { size } => seq![size as int],
        Layer::Sequential { above, below } => out_lens(*below),
        Layer::SideBySide { left, right } => seq![out_lens(*left)[0] + out_lens(*right)[0]],
        Layer::Recurrent { inner, msize, memory } => seq![out_lens(*inner)[0] - msize],
    }
}

/// How many noise samples one call of the layer consumes.
pub open spec fn noise_len(l: Layer) -> int
    decreases l,
{
    match l {
        Layer::RandomNoise { size } => size as int,
        Layer::Sequential { above, below } => noise_len(*above) + noise_len(*below),
        Layer::SideBySide { left, right } => noise_len(*left) + noise_len(*right),
        Layer::Recurrent { inner, msize, memory } => noise_len(*inner),
        _ => 0,
    }
}

/// A layer is stateless when no recurrent wrapper occurs in it: evaluation
/// then leaves it unchanged.
pub open spec fn stateless(l: Layer) -> bool
    decreases l,
{
    match l {
        Layer::Sequential { above, below } => stateless(*above) && stateless(*below),
        Layer::SideBySide { left, right } => stateless(*left) && stateless(*right),
        Layer::Recurrent { inner, msize, memory } => false,
        _ => true,
    }
}

/// The memory vectors of the recurrent wrappers in the graph, in traversal
/// order: the whole cross-call state of a layer.
pub open spec fn memories(l: Layer) -> Seq<Seq<i64>>
    decreases l,
{
    match l {
        Layer::Sequential { above, below } => memories(*above) + memories(*below),
        Layer::SideBySide { left, right } => memories(*left) + memories(*right),
        Layer::Recurrent { inner, msize, memory } => seq![memory@] + memories(*inner),
        _ => Seq::empty(),
    }
}

/// Well-formedness: every composition matches shapes exactly, stored vectors
/// are in range, and the derived counts fit the machine's sizes.
pub open spec fn wf(l: Layer) -> bool
    decreases l,
{
    match l {
        Layer::Rectify { size } => true,
        Layer::Affine { in_len, weights } => {
            &&& weights@.len() >= 1
            &&& in_len < usize::MAX
            &&& forall|i: int|
                0 <= i < weights@.len() ==> (#[trigger] weights@[i])@.len() == in_len + 1
            &&& forall|i: int| 0 <= i < weights@.len() ==> seq_in_range((#[trigger] weights@[i])@)
        },
        Layer::ConcatN { n, each } => n >= 1 && (n as int) * (each as int) <= usize::MAX as int,
        Layer::Split { len, at } => at <= len,
        Layer::PassThrough { size } => true,
        Layer::RandomNoise { size } => true,
        Layer::Sequential { above, below } => {
            &&& wf(*above)
            &&& wf(*below)
            &&& out_lens(*above) == in_lens(*below)
            &&& noise_len(*above) + noise_len(*below) <= usize::MAX as int
        },
        Layer::SideBySide { left, right } => {
            &&& wf(*left)
            &&& wf(*right)
            &&& out_lens(*left).len() == 1
            &&& out_lens(*right).len() == 1
            &&& out_lens(*left)[0] + out_lens(*right)[0] <= usize::MAX as int
            &&& in_lens(*left).len() + in_lens(*right).len() <= usize::MAX as int
            &&& noise_len(*left) + noise_len(*right) <= usize::MAX as int
        },
        Layer::Recurrent { inner, msize, memory } => {
            &&& wf(*inner)
            &&& in_lens(*inner).len() == 1
            &&& out_lens(*inner).len() == 1
            &&& msize <= in_lens(*inner)[0]
            &&& msize <= out_lens(*inner)[0]
            &&& memory@.len() == msize
            &&& seq_in_range(memory@)
        },
    }
}

/// The inputs have exactly the given lengths.
pub open spec fn shape_ok(ins: Seq<Seq<i64>>, lens: Seq<int>) -> bool {
    &&& ins.len() == lens.len()
    &&& forall|i: int| 0 <= i < ins.len() ==> (#[trigger] ins[i]).len() == lens[i]
}

/// Every input vector holds only in-range scalars.
pub open spec fn all_in_range(ins: Seq<Seq<i64>>) -> bool {
    forall|i: int| 0 <= i < ins.len() ==> seq_in_range(#[trigger] ins[i])
}

/// Elementwise rectification of a vector.
pub open spec fn seq_relu(s: Seq<i64>) -> Seq<i64> {
    s.map_values(|x: i64| spec_relu(x))
}

/// Saturating dot product of the first `k` coordinates, accumulated left to
/// right.
pub open spec fn dot_prefix(row: Seq<i64>, x: Seq<i64>, k: int) -> i64
    decreases k,
{
    if k <= 0 {
        0
    } else {
        spec_sat_add(dot_prefix(row, x, k - 1), spec_fx_mul(row[k - 1], x[k - 1]))
    }
}

/// One output coordinate of an affine layer: the dot product of the row with
/// the input, plus the row's final bias weight (the appended constant one
/// unit times that weight).
pub open spec fn affine_entry(row: Seq<i64>, x: Seq<i64>) -> i64 {
    spec_sat_add(dot_prefix(row, x, x.len() as int), row[x.len() as int])
}

/// The affine layer's output vector.
pub open spec fn affine_out(w: Seq<Seq<i64>>, x: Seq<i64>) -> Seq<i64> {
    Seq::new(w.len(), |i: int| affine_entry(w[i], x))
}

/// Ordered concatenation of a list of vectors.
pub open spec fn concat_all(ins: Seq<Seq<i64>>) -> Seq<i64>
    decreases ins.len(),
{
    if ins.len() == 0 {
        Seq::empty()
    } else {
        concat_all(ins.drop_last()) + ins.last()
    }
}

/// The outputs of one evaluation of a layer, as a pure function of the
/// layer, its inputs and the noise samples consumed by this call (in
/// traversal order: a sequential or side-by-side node hands the first
/// samples to its first child).
pub open spec fn eval_out(l: Layer, ins: Seq<Seq<i64>>, noise: Seq<i64>) -> Seq<Seq<i64>>
    decreases l,
{
    match l {
        Layer::Rectify { size } => seq![seq_relu(ins[0])],
        Layer::Affine { in_len, weights } => seq![affine_out(weights.deep_view(), ins[0])],
        Layer::ConcatN { n, each } => seq![concat_all(ins)],
        Layer::Split { len, at } => seq![ins[0].take(at as int), ins[0].skip(at as int)],
        Layer::PassThrough { size } => seq![ins[0]],
        Layer::RandomNoise { size } => seq![noise],
        Layer::Sequential { above, below } => {
            let na = noise_len(*above);
            eval_out(*below, eval_out(*above, ins, noise.take(na)), noise.skip(na))
        },
        Layer::SideBySide { left, right } => {
            let ka = in_lens(*left).len() as int;
            let na = noise_len(*left);
            let lo = eval_out(*left, ins.take(ka), noise.take(na));
            let ro = eval_out(*right, ins.skip(ka), noise.skip(na));
            seq![lo[0] + ro[0]]
        },
        Layer::Recurrent { inner, msize, memory } => {
            let y = eval_out(*inner, seq![ins[0] + memory@], noise)[0];
            seq![y.take(y.len() - msize)]
        },
    }
}

/// The successor-state relation of one evaluation: `post` is `l` with every
/// recurrent wrapper's memory replaced by the rectified tail segment of its
/// inner layer's output for this call.
pub open spec fn eval_next(l: Layer, ins: Seq<Seq<i64>>, noise: Seq<i64>, post: Layer) -> bool
    decreases l,
{
    match l {
        Layer::Sequential { above, below } => match post {
            Layer::Sequential { above: a2, below: b2 } => {
                let na = noise_len(*above);
                &&& eval_next(*above, ins, noise.take(na), *a2)
                &&& eval_next(*below, eval_out(*above, ins, noise.take(na)), noise.skip(na), *b2)
            },
            _ => false,
        },
        Layer::SideBySide { left, right } => match post {
            Layer::SideBySide { left: l2, right: r2 } => {
                let ka = in_lens(*left).len() as int;
                let na = noise_len(*left);
                &&& eval_next(*left, ins.take(ka), noise.take(na), *l2)
                &&& eval_next(*right, ins.skip(ka), noise.skip(na), *r2)
            },
            _ => false,
        },
        Layer::Recurrent { inner, msize, memory } => match post {
            Layer::Recurrent { inner: i2, msize: m2, memory: mem2 } => {
                let y = eval_out(*inner, seq![ins[0] + memory@], noise)[0];
                &&& m2 == msize
                &&& eval_next(*inner, seq![ins[0] + memory@], noise, *i2)
                &&& mem2@ == seq_relu(y.skip(y.len() - msize))
            },
            _ => false,
        },
        _ => post == l,
    }
}

/// A layer consumes a non-negative number of noise samples.
pub proof fn lemma_noise_len_nonneg(l: Layer)
    ensures
        noise_len(l) >= 0,
    decreases l,
{
    match l {
        Layer::Sequential { above, below } => {
            lemma_noise_len_nonneg(*above);
            lemma_noise_len_nonneg(*below);
        },
        Layer::SideBySide { left, right } => {
            lemma_noise_len_nonneg(*left);
            lemma_noise_len_nonneg(*right);
        },
        Layer::Recurrent { inner, msize, memory } => {
            lemma_noise_len_nonneg(*inner);
        },
        _ => {},
    }
}

/// The accumulated dot product is always a well-formed scalar.
pub proof fn lemma_dot_prefix_in_range(row: Seq<i64>, x: Seq<i64>, k: int)
    ensures
        in_range(dot_prefix(row, x, k)),
    decreases k,
{
    if k > 0 {
        lemma_dot_prefix_in_range(row, x, k - 1);
    }
}

/// Concatenating vectors of one common length multiplies it by their number,
/// and preserves ranges.
pub proof fn lemma_concat_uniform(ins: Seq<Seq<i64>>, each: int)
    requires
        forall|i: int| 0 <= i < ins.len() ==> (#[trigger] ins[i]).len() == each,
        all_in_range(ins),
    ensures
        concat_all(ins).len() == ins.len() * each,
        seq_in_range(concat_all(ins)),
    decreases ins.len(),
{
    if ins.len() > 0 {
        lemma_concat_uniform(ins.drop_last(), each);
        assert((ins.len() - 1) * each + each == ins.len() * each) by (nonlinear_arith);
    }
}

/// A well-formed layer applied to well-shaped, in-range inputs and noise
/// produces well-shaped, in-range outputs.
pub proof fn lemma_eval_shape(l: Layer, ins: Seq<Seq<i64>>, noise: Seq<i64>)
    requires
        wf(l),
        shape_ok(ins, in_lens(l)),
        all_in_range(ins),
        noise.len() == noise_len(l),
        seq_in_range(noise),
    ensures
        shape_ok(eval_out(l, ins, noise), out_lens(l)),
        all_in_range(eval_out(l, ins, noise)),
    decreases l,
{
    match l {
        Layer::Rectify { size } => {
            assert(seq_relu(ins[0]).len() == ins[0].len());
            assert(seq_in_range(seq_relu(ins[0])));
        },
        Layer::Affine { in_len, weights } => {
            let w = weights.deep_view();
            assert forall|i: int| 0 <= i < w.len() implies in_range(
                #[trigger] affine_out(w, ins[0])[i],
            ) by {
                lemma_dot_prefix_in_range(w[i], ins[0], ins[0].len() as int);
            }
        },
        Layer::ConcatN { n, each } => {
            lemma_concat_uniform(ins, each as int);
        },
        Layer::Split { len, at } => {},
        Layer::PassThrough { size } => {},
        Layer::RandomNoise { size } => {},
        Layer::Sequential { above, below } => {
            let na = noise_len(*above);
            lemma_noise_len_nonneg(*above);
            lemma_noise_len_nonneg(*below);
            lemma_eval_shape(*above, ins, noise.take(na));
            lemma_eval_shape(*below, eval_out(*above, ins, noise.take(na)), noise.skip(na));
        },
        Layer::SideBySide { left, right } => {
            let ka = in_lens(*left).len() as int;
            let na = noise_len(*left);
            lemma_noise_len_nonneg(*left);
            lemma_noise_len_nonneg(*right);
            assert(shape_ok(ins.take(ka), in_lens(*left)));
            assert(shape_ok(ins.skip(ka), in_lens(*right)));
            lemma_eval_shape(*left, ins.take(ka), noise.take(na));
            lemma_eval_shape(*right, ins.skip(ka), noise.skip(na));
            let lo = eval_out(*left, ins.take(ka), noise.take(na));
            let ro = eval_out(*right, ins.skip(ka), noise.skip(na));
            assert(seq_in_range(lo[0] + ro[0]));
        },
        Layer::Recurrent { inner, msize, memory } => {
            let x = ins[0] + memory@;
            assert(seq_in_range(x));
            assert(shape_ok(seq![x], in_lens(*inner)));
            lemma_eval_shape(*inner, seq![x], noise);
            let y = eval_out(*inner, seq![x], noise)[0];
            assert(seq_in_range(y.take(y.len() - msize)));
        },
    }
}

/// Evaluation preserves the layer's signature: the successor state is
/// well-formed and has the same shapes, noise demand and statelessness.
pub proof fn lemma_next_preserves(l: Layer, ins: Seq<Seq<i64>>, noise: Seq<i64>, post: Layer)
    requires
        wf(l),
        shape_ok(ins, in_lens(l)),
        all_in_range(ins),
        noise.len() == noise_len(l),
        seq_in_range(noise),
        eval_next(l, ins, noise, post),
    ensures
        wf(post),
        in_lens(post) == in_lens(l),
        out_lens(post) == out_lens(l),
        noise_len(post) == noise_len(l),
        stateless(post) == stateless(l),
    decreases l,
{
    match l {
        Layer::Sequential { above, below } => {
            let na = noise_len(*above);
            lemma_noise_len_nonneg(*above);
            lemma_noise_len_nonneg(*below);
            match post {
                Layer::Sequential { above: a2, below: b2 } => {
                    lemma_eval_shape(*above, ins, noise.take(na));
                    lemma_next_preserves(*above, ins, noise.take(na), *a2);
                    lemma_next_preserves(
                        *below,
                        eval_out(*above, ins, noise.take(na)),
                        noise.skip(na),
                        *b2,
                    );
                },
                _ => {},
            }
        },
        Layer::SideBySide { left, right } => {
            let ka = in_lens(*left).len() as int;
            let na = noise_len(*left);
            lemma_noise_len_nonneg(*left);
            lemma_noise_len_nonneg(*right);
            match post {
                Layer::SideBySide { left: l2, right: r2 } => {
                    assert(shape_ok(ins.take(ka), in_lens(*left)));
                    assert(shape_ok(ins.skip(ka), in_lens(*right)));
                    lemma_next_preserves(*left, ins.take(ka), noise.take(na), *l2);
                    lemma_next_preserves(*right, ins.skip(ka), noise.skip(na), *r2);
                    assert(in_lens(post) == in_lens(l));
                },
                _ => {},
            }
        },
        Layer::Recurrent { inner, msize, memory } => {
            let x = ins[0] + memory@;
            match post {
                Layer::Recurrent { inner: i2, msize: m2, memory: mem2 } => {
                    assert(seq_in_range(x));
                    assert(shape_ok(seq![x], in_lens(*inner)));
                    lemma_eval_shape(*inner, seq![x], noise);
                    lemma_next_preserves(*inner, seq![x], noise, *i2);
                    let y = eval_out(*inner, seq![x], noise)[0];
                    assert(mem2@.len() == msize);
                    assert(seq_in_range(mem2@));
                },
                _ => {},
            }
        },
        _ => {},
    }
}

/// Law: the successor state of an evaluation is unique — the memory left
/// behind depends only on the layer, its inputs and the noise of this call.
pub proof fn lemma_next_deterministic(
    l: Layer,
    ins: Seq<Seq<i64>>,
    noise: Seq<i64>,
    p1: Layer,
    p2: Layer,
)
    requires
        eval_next(l, ins, noise, p1),
        eval_next(l, ins, noise, p2),
    ensures
        memories(p1) == memories(p2),
    decreases l,
{
    match l {
        Layer::Sequential { above, below } => {
            let na = noise_len(*above);
            match (p1, p2) {
                (
                    Layer::Sequential { above: a1, below: b1 },
                    Layer::Sequential { above: a2, below: b2 },
                ) => {
                    lemma_next_deterministic(*above, ins, noise.take(na), *a1, *a2);
                    lemma_next_deterministic(
                        *below,
                        eval_out(*above, ins, noise.take(na)),
                        noise.skip(na),
                        *b1,
                        *b2,
                    );
                },
                _ => {},
            }
        },
        Layer::SideBySide { left, right } => {
            let ka = in_lens(*left).len() as int;
            let na = noise_len(*left);
            match (p1, p2) {
                (
                    Layer::SideBySide { left: l1, right: r1 },
                    Layer::SideBySide { left: l2, right: r2 },
                ) => {
                    lemma_next_deterministic(*left, ins.take(ka), noise.take(na), *l1, *l2);
                    lemma_next_deterministic(*right, ins.skip(ka), noise.skip(na), *r1, *r2);
                },
                _ => {},
            }
        },
        Layer::Recurrent { inner, msize, memory } => {
            match (p1, p2) {
                (
                    Layer::Recurrent { inner: i1, msize: m1, memory: mem1 },
                    Layer::Recurrent { inner: i2, msize: m2, memory: mem2 },
                ) => {
                    lemma_next_deterministic(*inner, seq![ins[0] + memory@], noise, *i1, *i2);
                },
                _ => {},
            }
        },
        _ => {},
    }
}

/// Law: a stateless layer is left exactly as it was by every evaluation, so
/// repeated calls on the same input and noise produce the same output.
pub proof fn lemma_stateless_unchanged(l: Layer, ins: Seq<Seq<i64>>, noise: Seq<i64>, post: Layer)
    requires
        stateless(l),
        eval_next(l, ins, noise, post),
    ensures
        post == l,
    decreases l,
{
    match l {
        Layer::Sequential { above, below } => {
            let na = noise_len(*above);
            match post {
                Layer::Sequential { above: a2, below: b2 } => {
                    lemma_stateless_unchanged(*above, ins, noise.take(na), *a2);
                    lemma_stateless_unchanged(
                        *below,
                        eval_out(*above, ins, noise.take(na)),
                        noise.skip(na),
                        *b2,
                    );
                },
                _ => {},
            }
        },
        Layer::SideBySide { left, right } => {
            let ka = in_lens(*left).len() as int;
            let na = noise_len(*left);
            match post {
                Layer::SideBySide { left: l2, right: r2 } => {
                    lemma_stateless_unchanged(*left, ins.take(ka), noise.take(na), *l2);
                    lemma_stateless_unchanged(*right, ins.skip(ka), noise.skip(na), *r2);
                },
                _ => {},
            }
        },
        _ => {},
    }
}

/// The deep view of a list of vectors indexes to the views of its elements.
pub proof fn lemma_dv(v: Vec<Vec<i64>>)
    ensures
        v.deep_view().len() == v@.len(),
        forall|i: int| 0 <= i < v@.len() ==> v.deep_view()[i] == (#[trigger] v@[i])@,
{
    assert forall|i: int| 0 <= i < v@.len() implies v.deep_view()[i] == (#[trigger] v@[i])@ by {
        assert(v@[i].deep_view() =~= v@[i]@);
    }
}

/// How many noise samples one call of the layer consumes.
pub fn noise_count(l: &Layer) -> (n: usize)
    requires
        wf(*l),
    ensures
        n as int == noise_len(*l),
    decreases *l,
{
    match l {
        Layer::RandomNoise { size } => *size,
        Layer::Sequential { above, below } => {
            proof {
                lemma_noise_len_nonneg(**above);
                lemma_noise_len_nonneg(**below);
            }
            noise_count(above) + noise_count(below)
        },
        Layer::SideBySide { left, right } => {
            proof {
                lemma_noise_len_nonneg(**left);
                lemma_noise_len_nonneg(**right);
            }
            noise_count(left) + noise_count(right)
        },
        Layer::Recurrent { inner, msize, memory } => noise_count(inner),
        _ => 0,
    }
}

/// How many input vectors the layer accepts.
pub fn in_count(l: &Layer) -> (n: usize)
    requires
        wf(*l),
    ensures
        n as int == in_lens(*l).len(),
    decreases *l,
{
    match l {
        Layer::ConcatN { n, each } => *n,
        Layer::RandomNoise { size } => 0,
        Layer::Sequential { above, below } => in_count(above),
        Layer::SideBySide { left, right } => in_count(left) + in_count(right),
        _ => 1,
    }
}

/// One evaluation of the layer: consumes the layer value and its inputs and
/// noise, and returns the successor state together with the outputs.
pub fn forward(l: Layer, ins: Vec<Vec<i64>>, noise: Vec<i64>) -> (res: (Layer, Vec<Vec<i64>>))
    requires
        wf(l),
        shape_ok(ins.deep_view(), in_lens(l)),
        all_in_range(ins.deep_view()),
        noise@.len() == noise_len(l),
        seq_in_range(noise@),
    ensures
        res.1.deep_view() == eval_out(l, ins.deep_view(), noise@),
        eval_next(l, ins.deep_view(), noise@, res.0),
    decreases l,
{
    proof {
        lemma_dv(ins);
    }
    match l {
        Layer::Rectify { size } => {
            let mut xs = ins;
            let x = xs.pop().unwrap();
            let mut out: Vec<i64> = Vec::new();
            let mut j: usize = 0;
            while j < x.len()
                invariant
                    j <= x@.len(),
                    out@.len() == j,
                    forall|t: int| 0 <= t < j ==> out@[t] == spec_relu(x@[t]),
                decreases x@.len() - j,
            {
                out.push(relu(x[j]));
                j += 1;
            }
            proof {
                assert(out@ =~= seq_relu(x@));
            }
            let outs = vec![out];
            proof {
                lemma_dv(outs);
                assert(outs.deep_view() =~= eval_out(l, ins.deep_view(), noise@));
            }
            (Layer::Rectify { size }, outs)
        },
        Layer::Affine { in_len, weights } => {
            let mut xs = ins;
            let x = xs.pop().unwrap();
            let ghost w = weights.deep_view();
            proof {
                lemma_dv(weights);
            }
            let mut out: Vec<i64> = Vec::new();
            let mut i: usize = 0;
            while i < weights.len()
                invariant
                    i <= weights@.len(),
                    out@.len() == i,
                    w == weights.deep_view(),
                    x@.len() == in_len,
                    wf(Layer::Affine { in_len, weights }),
                    seq_in_range(x@),
                    forall|t: int| 0 <= t < i ==> out@[t] == affine_entry(w[t], x@),
                decreases weights@.len() - i,
            {
                proof {
                    lemma_dv(weights);
                }
                let row = &weights[i];
                let mut acc: i64 = 0;
                let mut j: usize = 0;
                while j < x.len()
                    invariant
                        j <= x@.len(),
                        x@.len() == in_len,
                        row@.len() == in_len + 1,
                        seq_in_range(row@),
                        seq_in_range(x@),
                        acc == dot_prefix(row@, x@, j as int),
                        in_range(acc),
                    decreases x@.len() - j,
                {
                    acc = sat_add(acc, fx_mul(row[j], x[j]));
                    j += 1;
                }
                let entry = sat_add(acc, row[x.len()]);
                out.push(entry);
                proof {
                    assert(entry == affine_entry(w[i as int], x@));
                }
                i += 1;
            }
            proof {
                assert(out@ =~= affine_out(w, x@));
            }
            let outs = vec![out];
            proof {
                lemma_dv(outs);
                assert(outs.deep_view() =~= eval_out(l, ins.deep_view(), noise@));
            }
            (Layer::Affine { in_len, weights }, outs)
        },
        Layer::ConcatN { n, each } => {
            let ghost dv = ins.deep_view();
            let mut out: Vec<i64> = Vec::new();
            let mut i: usize = 0;
            while i < ins.len()
                invariant
                    i <= ins@.len(),
                    dv == ins.deep_view(),
                    dv.len() == ins@.len(),
                    forall|t: int| 0 <= t < ins@.len() ==> dv[t] == (#[trigger] ins@[t])@,
                    out@ == concat_all(dv.take(i as int)),
                decreases ins@.len() - i,
            {
                let vi = &ins[i];
                let mut j: usize = 0;
                while j < vi.len()
                    invariant
                        j <= vi@.len(),
                        vi@ == dv[i as int],
                        out@ == concat_all(dv.take(i as int)) + vi@.take(j as int),
                    decreases vi@.len() - j,
                {
                    out.push(vi[j]);
                    proof {
                        assert(vi@.take(j + 1) =~= vi@.take(j as int).push(vi@[j as int]));
                    }
                    j += 1;
                }
                proof {
                    assert(dv.take(i + 1).drop_last() =~= dv.take(i as int));
                    assert(dv.take(i + 1).last() == dv[i as int]);
                    assert(vi@.take(vi@.len() as int) =~= vi@);
                    assert(out@ == concat_all(dv.take(i + 1)));
                }
                i += 1;
            }
            proof {
                assert(dv.take(dv.len() as int) =~= dv);
            }
            let outs = vec![out];
            proof {
                lemma_dv(outs);
                assert(outs.deep_view() =~= eval_out(l, ins.deep_view(), noise@));
            }
            (Layer::ConcatN { n, each }, outs)
        },
        Layer::Split { len, at } => {
            let mut xs = ins;
            let mut v = xs.pop().unwrap();
            let tail = v.split_off(at);
            let mut outs: Vec<Vec<i64>> = Vec::new();
            outs.push(v);
            outs.push(tail);
            proof {
                lemma_dv(outs);
                assert(outs.deep_view() =~= eval_out(l, ins.deep_view(), noise@));
            }
            (Layer::Split { len, at }, outs)
        },
        Layer::PassThrough { size } => {
            proof {
                assert(ins.deep_view() =~= eval_out(l, ins.deep_view(), noise@));
            }
            (Layer::PassThrough { size }, ins)
        },
        Layer::RandomNoise { size } => {
            let outs = vec![noise];
            proof {
                lemma_dv(outs);
                assert(outs.deep_view() =~= eval_out(l, ins.deep_view(), noise@));
            }
            (Layer::RandomNoise { size }, outs)
        },
        Layer::Sequential { above, below } => {
            proof {
                lemma_noise_len_nonneg(*above);
                lemma_noise_len_nonneg(*below);
            }
            let na = noise_count(&above);
            let mut noise1 = noise;
            let noise2 = noise1.split_off(na);
            proof {
                assert(noise1@ =~= noise@.take(na as int));
                assert(noise2@ =~= noise@.skip(na as int));
                lemma_eval_shape(*above, ins.deep_view(), noise@.take(na as int));
            }
            let (a2, mid) = forward(*above, ins, noise1);
            let (b2, out) = forward(*below, mid, noise2);
            (Layer::Sequential { above: Box::new(a2), below: Box::new(b2) }, out)
        },
        Layer::SideBySide { left, right } => {
            proof {
                lemma_noise_len_nonneg(*left);
                lemma_noise_len_nonneg(*right);
            }
            let ka = in_count(&left);
            let na = noise_count(&left);
            let mut ins1 = ins;
            let ins2 = ins1.split_off(ka);
            let mut noise1 = noise;
            let noise2 = noise1.split_off(na);
            let ghost dv = ins.deep_view();
            proof {
                lemma_dv(ins1);
                lemma_dv(ins2);
                assert(ins1.deep_view() =~= dv.take(ka as int));
                assert(ins2.deep_view() =~= dv.skip(ka as int));
                assert(noise1@ =~= noise@.take(na as int));
                assert(noise2@ =~= noise@.skip(na as int));
                assert(shape_ok(dv.take(ka as int), in_lens(*left)));
                assert(shape_ok(dv.skip(ka as int), in_lens(*right)));
                lemma_eval_shape(*left, dv.take(ka as int), noise@.take(na as int));
                lemma_eval_shape(*right, dv.skip(ka as int), noise@.skip(na as int));
            }
            let (l2, louts) = forward(*left, ins1, noise1);
            let (r2, routs) = forward(*right, ins2, noise2);
            proof {
                lemma_dv(louts);
                lemma_dv(routs);
            }
            let mut lv = louts;
            let mut o = lv.pop().unwrap();
            let mut rv = routs;
            let r0 = rv.pop().unwrap();
            let ghost lo0 = o@;
            let mut j: usize = 0;
            while j < r0.len()
                invariant
                    j <= r0@.len(),
                    o@ == lo0 + r0@.take(j as int),
                decreases r0@.len() - j,
            {
                o.push(r0[j]);
                proof {
                    assert(r0@.take(j + 1) =~= r0@.take(j as int).push(r0@[j as int]));
                    assert(lo0 + r0@.take(j + 1) =~= (lo0 + r0@.take(j as int)).push(
                        r0@[j as int],
                    ));
                }
                j += 1;
            }
            proof {
                assert(r0@.take(r0@.len() as int) =~= r0@);
            }
            let outs = vec![o];
            proof {
                lemma_dv(outs);
                assert(outs.deep_view() =~= eval_out(l, ins.deep_view(), noise@));
            }
            (Layer::SideBySide { left: Box::new(l2), right: Box::new(r2) }, outs)
        },
        Layer::Recurrent { inner, msize, memory } => {
            let mut xs = ins;
            let mut x = xs.pop().unwrap();
            let ghost x0 = x@;
            let mut k: usize = 0;
            while k < memory.len()
                invariant
                    k <= memory@.len(),
                    x@ == x0 + memory@.take(k as int),
                decreases memory@.len() - k,
            {
                x.push(memory[k]);
                proof {
                    assert(memory@.take(k + 1) =~= memory@.take(k as int).push(
                        memory@[k as int],
                    ));
                    assert(x0 + memory@.take(k + 1) =~= (x0 + memory@.take(k as int)).push(
                        memory@[k as int],
                    ));
                }
                k += 1;
            }
            proof {
                assert(memory@.take(memory@.len() as int) =~= memory@);
            }
            let ghost xv = x@;
            let mut inp: Vec<Vec<i64>> = Vec::new();
            inp.push(x);
            proof {
                lemma_dv(inp);
                assert(inp.deep_view() =~= seq![xv]);
                assert(shape_ok(seq![xv], in_lens(*inner)));
                assert(seq_in_range(xv));
                lemma_eval_shape(*inner, seq![xv], noise@);
            }
            let (i2, youts) = forward(*inner, inp, noise);
            proof {
                lemma_dv(youts);
            }
            let mut ys = youts;
            let mut y = ys.pop().unwrap();
            let ghost yv = y@;
            let cut = y.len() - msize;
            let tail = y.split_off(cut);
            let mut mem2: Vec<i64> = Vec::new();
            let mut t: usize = 0;
            while t < tail.len()
                invariant
                    t <= tail@.len(),
                    mem2@.len() == t,
                    forall|u: int| 0 <= u < t ==> mem2@[u] == spec_relu(tail@[u]),
                decreases tail@.len() - t,
            {
                mem2.push(relu(tail[t]));
                t += 1;
            }
            proof {
                assert(tail@ =~= yv.skip(cut as int));
                assert(mem2@ =~= seq_relu(yv.skip(yv.len() - msize)));
                assert(y@ =~= yv.take(yv.len() - msize));
            }
            let outs = vec![y];
            proof {
                lemma_dv(outs);
                assert(outs.deep_view() =~= eval_out(l, ins.deep_view(), noise@));
            }
            (Layer::Recurrent { inner: Box::new(i2), msize, memory: mem2 }, outs)
        },
    }
}

/// Law: the non-random, memory-free layers — rectification, affine with its
/// fixed weights, concatenation and split, and their compositions — are
/// deterministic: a second evaluation on the same input produces exactly the
/// same outputs as the first.
pub proof fn lemma_repeated_call_deterministic(
    l: Layer,
    ins: Seq<Seq<i64>>,
    noise: Seq<i64>,
    post: Layer,
)
    requires
        stateless(l),
        noise_len(l) == 0,
        noise.len() == 0,
        eval_next(l, ins, noise, post),
    ensures
        eval_out(post, ins, noise) == eval_out(l, ins, noise),
{
    lemma_stateless_unchanged(l, ins, noise, post);
}

/// The weight matrices of the affine layers in the graph, in traversal
/// order: the graph's fixed parameters.
pub open spec fn affine_weights(l: Layer) -> Seq<Seq<Seq<i64>>>
    decreases l,
{
    match l {
        Layer::Affine { in_len, weights } => seq![weights.deep_view()],
        Layer::Sequential { above, below } => affine_weights(*above) + affine_weights(*below),
        Layer::SideBySide { left, right } => affine_weights(*left) + affine_weights(*right),
        Layer::Recurrent { inner, msize, memory } => affine_weights(*inner),
        _ => Seq::empty(),
    }
}

/// Law: the affine weights are parameters, not state — an evaluation leaves
/// every weight matrix in the graph exactly as it was, so weights sampled at
/// construction are never resampled or mutated by a step.
pub proof fn lemma_weights_fixed(l: Layer, ins: Seq<Seq<i64>>, noise: Seq<i64>, post: Layer)
    requires
        eval_next(l, ins, noise, post),
    ensures
        affine_weights(post) == affine_weights(l),
    decreases l,
{
    match l {
        Layer::Sequential { above, below } => {
            let na = noise_len(*above);
            match post {
                Layer::Sequential { above: a2, below: b2 } => {
                    lemma_weights_fixed(*above, ins, noise.take(na), *a2);
                    lemma_weights_fixed(
                        *below,
                        eval_out(*above, ins, noise.take(na)),
                        noise.skip(na),
                        *b2,
                    );
                },
                _ => {},
            }
        },
        Layer::SideBySide { left, right } => {
            let ka = in_lens(*left).len() as int;
            let na = noise_len(*left);
            match post {
                Layer::SideBySide { left: l2, right: r2 } => {
                    lemma_weights_fixed(*left, ins.take(ka), noise.take(na), *l2);
                    lemma_weights_fixed(*right, ins.skip(ka), noise.skip(na), *r2);
                },
                _ => {},
            }
        },
        Layer::Recurrent { inner, msize, memory } => {
            match post {
                Layer::Recurrent { inner: i2, msize: m2, memory: mem2 } => {
                    lemma_weights_fixed(*inner, seq![ins[0] + memory@], noise, *i2);
                },
                _ => {},
            }
        },
        _ => {},
    }
}

/// Law: a concatenation accepts only inputs of its one common length — its
/// declared input shapes are all equal, so evaluation on unequal-length
/// inputs is barred before any concatenated output is produced.
pub proof fn lemma_concat_inputs_equal_length(n: usize, each: usize, ins: Seq<Seq<i64>>)
    requires
        shape_ok(ins, in_lens(Layer::ConcatN { n, each })),
    ensures
        ins.len() == n,
        forall|k: int| 0 <= k < ins.len() ==> (#[trigger] ins[k]).len() == each,
{
}

/// Law: a well-formed split never cuts past the end of its declared input —
/// the offset is checked when the layer is built, so evaluation cannot reach
/// an out-of-range slice.
pub proof fn lemma_split_within_bounds(len: usize, at: usize)
    requires
        wf(Layer::Split { len, at }),
    ensures
        at <= len,
        in_lens(Layer::Split { len, at }) == seq![len as int],
{
}

/// Law: a layer that consumes no noise is deterministic — its outputs do not
/// depend on the noise argument at all.
pub proof fn lemma_no_noise_deterministic(
    l: Layer,
    ins: Seq<Seq<i64>>,
    n1: Seq<i64>,
    n2: Seq<i64>,
)
    requires
        noise_len(l) == 0,
        n1.len() == 0,
        n2.len() == 0,
    ensures
        eval_out(l, ins, n1) == eval_out(l, ins, n2),
{
    assert(n1 =~= n2);
}

/// Lengths of the layer's input vectors, as machine sizes.
pub fn in_lens_vec(l: &Layer) -> (r: Vec<usize>)
    requires
        wf(*l),
    ensures
        r@.len() == in_lens(*l).len(),
        forall|i: int| 0 <= i < r@.len() ==> (#[trigger] r@[i]) as int == in_lens(*l)[i],
    decreases *l,
{
    match l {
        Layer::Rectify { size } => vec![*size],
        Layer::Affine { in_len, weights } => vec![*in_len],
        Layer::ConcatN { n, each } => {
            let mut r: Vec<usize> = Vec::new();
            let mut i: usize = 0;
            while i < *n
                invariant
                    i <= *n,
                    r@.len() == i,
                    forall|t: int| 0 <= t < i ==> (#[trigger] r@[t]) == *each,
                decreases *n - i,
            {
                r.push(*each);
                i += 1;
            }
            r
        },
        Layer::Split { len, at } => vec![*len],
        Layer::PassThrough { size } => vec![*size],
        Layer::RandomNoise { size } => Vec::new(),
        Layer::Sequential { above, below } => in_lens_vec(above),
        Layer::SideBySide { left, right } => {
            let mut a = in_lens_vec(left);
            let mut b = in_lens_vec(right);
            a.append(&mut b);
            a
        },
        Layer::Recurrent { inner, msize, memory } => {
            let v = in_lens_vec(inner);
            vec![v[0] - *msize]
        },
    }
}

/// Lengths of the layer's output vectors, as machine sizes.
pub fn out_lens_vec(l: &Layer) -> (r: Vec<usize>)
    requires
        wf(*l),
    ensures
        r@.len() == out_lens(*l).len(),
        forall|i: int| 0 <= i < r@.len() ==> (#[trigger] r@[i]) as int == out_lens(*l)[i],
    decreases *l,
{
    match l {
        Layer::Rectify { size } => vec![*size],
        Layer::Affine { in_len, weights } => vec![weights.len()],
        Layer::ConcatN { n, each } => vec![*n * *each],
        Layer::Split { len, at } => vec![*at, *len - *at],
        Layer::PassThrough { size } => vec![*size],
        Layer::RandomNoise { size } => vec![*size],
        Layer::Sequential { above, below } => out_lens_vec(below),
        Layer::SideBySide { left, right } => {
            let a = out_lens_vec(left);
            let b = out_lens_vec(right);
            vec![a[0] + b[0]]
        },
        Layer::Recurrent { inner, msize, memory } => {
            let v = out_lens_vec(inner);
            vec![v[0] - *msize]
        },
    }
}

/// Build an affine layer, rejecting weights that are not a rectangle of
/// in-range scalars with one bias column.
pub fn affine(in_len: usize, weights: Vec<Vec<i64>>) -> (r: Result<Layer, BrainError>)
    ensures
        r is Ok <==> {
            &&& weights.deep_view().len() >= 1
            &&& in_len < usize::MAX
            &&& forall|i: int|
                0 <= i < weights@.len() ==> (#[trigger] weights@[i])@.len() == in_len + 1
            &&& forall|i: int| 0 <= i < weights@.len() ==> seq_in_range((#[trigger] weights@[i])@)
        },
        r is Ok ==> r->Ok_0 == (Layer::Affine { in_len, weights }) && wf(r->Ok_0),
        r is Err ==> r->Err_0 == BrainError::ShapeMismatch,
{
    proof {
        lemma_dv(weights);
    }
    if weights.len() == 0 || in_len == usize::MAX {
        return Err(BrainError::ShapeMismatch);
    }
    let mut i: usize = 0;
    while i < weights.len()
        invariant
            i <= weights@.len(),
            in_len < usize::MAX,
            forall|t: int| 0 <= t < i ==> (#[trigger] weights@[t])@.len() == in_len + 1,
            forall|t: int| 0 <= t < i ==> seq_in_range((#[trigger] weights@[t])@),
        decreases weights@.len() - i,
    {
        let row = &weights[i];
        if row.len() != in_len + 1 {
            proof {
                assert((weights@[i as int])@.len() != in_len + 1);
            }
            return Err(BrainError::ShapeMismatch);
        }
        let mut j: usize = 0;
        while j < row.len()
            invariant
                j <= row@.len(),
                row@ == (weights@[i as int])@,
                i < weights@.len(),
                forall|u: int| 0 <= u < j ==> in_range(#[trigger] row@[u]),
            decreases row@.len() - j,
        {
            let w = row[j];
            if w < crate::fixed::NEG_BOUND || w > crate::fixed::BOUND {
                proof {
                    assert(!in_range((weights@[i as int])@[j as int]));
                    assert(!seq_in_range((weights@[i as int])@));
                }
                return Err(BrainError::ShapeMismatch);
            }
            j += 1;
        }
        i += 1;
    }
    Ok(Layer::Affine { in_len, weights })
}

/// Build a concatenation of `n` inputs of length `each`, rejecting a count
/// of zero or a total length beyond the machine's sizes.
pub fn concat_n(n: usize, each: usize) -> (r: Result<Layer, BrainError>)
    ensures
        r is Ok <==> (n >= 1 && (n as int) * (each as int) <= usize::MAX as int),
        r is Ok ==> r->Ok_0 == (Layer::ConcatN { n, each }) && wf(r->Ok_0),
        r is Err ==> r->Err_0 == BrainError::ShapeMismatch,
{
    if n == 0 {
        return Err(BrainError::ShapeMismatch);
    }
    if each > 0 {
        let q = usize::MAX / each;
        proof {
            vstd::arithmetic::div_mod::lemma_fundamental_div_mod(usize::MAX as int, each as int);
            vstd::arithmetic::div_mod::lemma_mod_bound(usize::MAX as int, each as int);
            if n <= q {
                vstd::arithmetic::mul::lemma_mul_inequality(n as int, q as int, each as int);
                assert((each as int) * (q as int) == (q as int) * (each as int))
                    by (nonlinear_arith);
            } else {
                vstd::arithmetic::mul::lemma_mul_inequality(
                    q as int + 1,
                    n as int,
                    each as int,
                );
                assert((q as int + 1) * (each as int) == (each as int) * (q as int) + each as int)
                    by (nonlinear_arith);
            }
        }
        if n > q {
            return Err(BrainError::ShapeMismatch);
        }
    }
    Ok(Layer::ConcatN { n, each })
}

/// Build a split of a vector of length `len` at offset `at`, rejecting an
/// offset past the end.
pub fn split(len: usize, at: usize) -> (r: Result<Layer, BrainError>)
    ensures
        r is Ok <==> at <= len,
        r is Ok ==> r->Ok_0 == (Layer::Split { len, at }) && wf(r->Ok_0),
        r is Err ==> r->Err_0 == BrainError::ShapeMismatch,
{
    if at > len {
        return Err(BrainError::ShapeMismatch);
    }
    Ok(Layer::Split { len, at })
}

/// Compose two layers in sequence, rejecting the composition unless
/// `above`'s output shapes match `below`'s input shapes exactly.
pub fn sequential(above: Layer, below: Layer) -> (r: Result<Layer, BrainError>)
    requires
        wf(above),
        wf(below),
    ensures
        r is Ok <==> (out_lens(above) == in_lens(below) && noise_len(above) + noise_len(below)
            <= usize::MAX as int),
        r is Ok ==> (r->Ok_0 matches Layer::Sequential { above: a2, below: b2 } && *a2 == above
            && *b2 == below) && wf(r->Ok_0),
        r is Err ==> r->Err_0 == BrainError::ShapeMismatch,
{
    let oa = out_lens_vec(&above);
    let ib = in_lens_vec(&below);
    if oa.len() != ib.len() {
        proof {
            assert(out_lens(above).len() != in_lens(below).len());
        }
        return Err(BrainError::ShapeMismatch);
    }
    let mut i: usize = 0;
    while i < oa.len()
        invariant
            i <= oa@.len(),
            oa@.len() == ib@.len(),
            oa@.len() == out_lens(above).len(),
            ib@.len() == in_lens(below).len(),
            forall|t: int| 0 <= t < oa@.len() ==> (#[trigger] oa@[t]) as int == out_lens(above)[t],
            forall|t: int| 0 <= t < ib@.len() ==> (#[trigger] ib@[t]) as int == in_lens(below)[t],
            forall|t: int| 0 <= t < i ==> out_lens(above)[t] == in_lens(below)[t],
        decreases oa@.len() - i,
    {
        if oa[i] != ib[i] {
            proof {
                assert(out_lens(above)[i as int] != in_lens(below)[i as int]);
            }
            return Err(BrainError::ShapeMismatch);
        }
        i += 1;
    }
    proof {
        assert(out_lens(above) =~= in_lens(below));
        lemma_noise_len_nonneg(above);
        lemma_noise_len_nonneg(below);
    }
    let na = noise_count(&above);
    let nb = noise_count(&below);
    if na > usize::MAX - nb {
        return Err(BrainError::ShapeMismatch);
    }
    Ok(Layer::Sequential { above: Box::new(above), below: Box::new(below) })
}

/// Compose two layers side by side, rejecting the composition unless each
/// side produces exactly one output vector.
pub fn side_by_side(left: Layer, right: Layer) -> (r: Result<Layer, BrainError>)
    requires
        wf(left),
        wf(right),
    ensures
        r is Ok <==> {
            &&& out_lens(left).len() == 1
            &&& out_lens(right).len() == 1
            &&& out_lens(left)[0] + out_lens(right)[0] <= usize::MAX as int
            &&& in_lens(left).len() + in_lens(right).len() <= usize::MAX as int
            &&& noise_len(left) + noise_len(right) <= usize::MAX as int
        },
        r is Ok ==> (r->Ok_0 matches Layer::SideBySide { left: l2, right: r2 } && *l2 == left
            && *r2 == right) && wf(r->Ok_0),
        r is Err ==> r->Err_0 == BrainError::ShapeMismatch,
{
    let ol = out_lens_vec(&left);
    let orr = out_lens_vec(&right);
    if ol.len() != 1 || orr.len() != 1 {
        return Err(BrainError::ShapeMismatch);
    }
    if ol[0] > usize::MAX - orr[0] {
        return Err(BrainError::ShapeMismatch);
    }
    let ka = in_count(&left);
    let kb = in_count(&right);
    if ka > usize::MAX - kb {
        return Err(BrainError::ShapeMismatch);
    }
    proof {
        lemma_noise_len_nonneg(left);
        lemma_noise_len_nonneg(right);
    }
    let na = noise_count(&left);
    let nb = noise_count(&right);
    if na > usize::MAX - nb {
        return Err(BrainError::ShapeMismatch);
    }
    Ok(Layer::SideBySide { left: Box::new(left), right: Box::new(right) })
}

/// Wrap a layer recurrently with a zero-initialised memory of length
/// `msize`, rejecting an inner layer that does not take and produce exactly
/// one vector with room for the memory segment.
pub fn recurrent(inner: Layer, msize: usize) -> (r: Result<Layer, BrainError>)
    requires
        wf(inner),
    ensures
        r is Ok <==> {
            &&& in_lens(inner).len() == 1
            &&& out_lens(inner).len() == 1
            &&& msize <= in_lens(inner)[0]
            &&& msize <= out_lens(inner)[0]
        },
        r is Ok ==> (r->Ok_0 matches Layer::Recurrent { inner: i2, msize: m2, memory: mem }
            && *i2 == inner && m2 == msize && mem@ == Seq::new(msize as nat, |j: int| 0i64))
            && wf(r->Ok_0),
        r is Err ==> r->Err_0 == BrainError::ShapeMismatch,
{
    let iv = in_lens_vec(&inner);
    let ov = out_lens_vec(&inner);
    if iv.len() != 1 || ov.len() != 1 {
        return Err(BrainError::ShapeMismatch);
    }
    if msize > iv[0] || msize > ov[0] {
        return Err(BrainError::ShapeMismatch);
    }
    let mut memory: Vec<i64> = Vec::new();
    let mut i: usize = 0;
    while i < msize
        invariant
            i <= msize,
            memory@.len() == i,
            forall|t: int| 0 <= t < i ==> (#[trigger] memory@[t]) == 0i64,
        decreases msize - i,
    {
        memory.push(0);
        i += 1;
    }
    proof {
        assert(memory@ =~= Seq::new(msize as nat, |j: int| 0i64));
    }
    Ok(Layer::Recurrent { inner: Box::new(inner), msize, memory })
}

} // verus!
