//! The Brain: the composed layer graph, its persistent memory and its logs.
//!
//! One step encodes the incoming event as a one-hot vector, appends it to
//! the input log, feeds it through the root layer (a recurrent wrapper,
//! which updates its memory as a side effect), normalises the external
//! output segment with softmax, appends that to the output log, and decodes
//! it into the outgoing event.
//!
//! The fixed topology wraps recurrently, with a memory of `MEMORY_SIZE`
//! entries, the pipeline: pass the 273-entry concatenation of event vector
//! and memory beside a fresh noise vector, then an affine stage into the
//! hidden width and a rectification. The hidden width `HIDDEN` equals the
//! external width plus the memory width, so the split inside the wrapper is
//! exact. (The memory width is a design choice documented here: one
//! consistent width, sixteen, and weights sampled once, at construction.)

use vstd::prelude::*;
use crate::codec::{BrainInput, BrainOutput, BrainError, WIDTH, encodable, encode_index, one_hot,
    encode, decode, decode_spec};
use crate::layer::{Layer, wf, in_lens, out_lens, noise_len, memories, affine_weights, eval_out,
    eval_next, shape_ok, forward, noise_count, lemma_eval_shape, lemma_next_preserves,
    lemma_next_deterministic, lemma_weights_fixed, lemma_dv, seq_relu};
use crate::softmax::{softmax, spec_softmax, seq_sum, lemma_softmax_distribution};
use crate::fixed::{SCALE, seq_in_range};
use crate::rng::{rng_from_seed, draw_noise};

verus! {

/// Width of the persistent memory vector.
pub const MEMORY_SIZE: usize = 16;

/// Width of the hidden stage: the external width plus the memory width.
pub const HIDDEN: usize = 273;

/// The engine: the root layer (a recurrent wrapper), the seeded generator,
/// and the diagnostic, unbounded logs of every encoded input and every
/// normalised output.
pub struct Brain {
    pub root: Layer,
    pub rng: rand::rngs::StdRng,
    pub input_log: Vec<Vec<i64>>,
    pub output_log: Vec<Vec<i64>>,
    /// The noise samples drawn by the latest step, kept for specification
    /// purposes only: the step contract is stated over them.
    pub step_noise: Ghost<Seq<i64>>,
}

/// A well-formed brain: its root layer is well-formed and exchanges single
/// vectors of the event width.
pub open spec fn brain_wf(b: Brain) -> bool {
    &&& wf(b.root)
    &&& in_lens(b.root) == seq![WIDTH as int]
    &&& out_lens(b.root) == seq![WIDTH as int]
}

/// Every entry of a sampled weight row lies in the fixed-point image of
/// `[-1, 1)`.
pub open spec fn unit_row(s: Seq<i64>) -> bool {
    forall|j: int| 0 <= j < s.len() ==> -SCALE <= #[trigger] s[j] < SCALE
}

/// The affine stage of the fixed topology: `HIDDEN` rows over the
/// 289-entry working vector plus the bias column, every weight in the
/// fixed-point image of `[-1, 1)`. The weight values themselves are
/// sampled, so only their shape and range are pinned.
pub open spec fn fixed_affine(l: Layer) -> bool {
    match l {
        Layer::Affine { in_len, weights } => {
            &&& in_len == HIDDEN + MEMORY_SIZE
            &&& weights@.len() == HIDDEN
            &&& forall|i: int|
                0 <= i < weights@.len() ==> (#[trigger] weights@[i])@.len() == HIDDEN
                    + MEMORY_SIZE + 1
            &&& forall|i: int| 0 <= i < weights@.len() ==> unit_row((#[trigger] weights@[i])@)
        },
        _ => false,
    }
}

/// The dense stage of the fixed topology: the affine stage followed by a
/// rectification of the hidden width.
pub open spec fn fixed_dense(l: Layer) -> bool {
    match l {
        Layer::Sequential { above, below } => {
            &&& fixed_affine(*above)
            &&& *below == (Layer::Rectify { size: HIDDEN })
        },
        _ => false,
    }
}

/// The entry stage of the fixed topology: the 273-entry working vector
/// passed through beside a fresh noise source of the memory width.
pub open spec fn fixed_entry(l: Layer) -> bool {
    match l {
        Layer::SideBySide { left, right } => {
            &&& *left == (Layer::PassThrough { size: HIDDEN })
            &&& *right == (Layer::RandomNoise { size: MEMORY_SIZE })
        },
        _ => false,
    }
}

/// The engine's fixed topology, exactly as spec'd by the construction: a
/// recurrent wrapper of memory width `MEMORY_SIZE`, zero-initialised, around
/// the entry stage fed into the dense stage. Only the sampled weight values
/// are left open.
pub open spec fn fixed_topology(root: Layer) -> bool {
    match root {
        Layer::Recurrent { inner, msize, memory } => {
            &&& msize == MEMORY_SIZE
            &&& memory@ == Seq::new(MEMORY_SIZE as nat, |j: int| 0i64)
            &&& match *inner {
                Layer::Sequential { above, below } => fixed_entry(*above) && fixed_dense(
                    *below,
                ),
                _ => false,
            }
        },
        _ => false,
    }
}

/// The root recurrent wrapper's memory vector; empty for any other root.
pub open spec fn memory_view(b: Brain) -> Seq<i64> {
    match b.root {
        Layer::Recurrent { inner, msize, memory } => memory@,
        _ => Seq::empty(),
    }
}

/// The noise drawn for one step: the right count, each sample in the
/// fixed-point image of `[-1, 1)`.
pub open spec fn noise_ok(noise: Seq<i64>, n: int) -> bool {
    &&& noise.len() == n
    &&& forall|i: int| 0 <= i < noise.len() ==> -SCALE <= #[trigger] noise[i] < SCALE
}

/// One step of the engine: how the post-state and the output event relate to
/// the pre-state, the input event and the noise drawn during the step.
pub open spec fn step_rel(
    pre: Brain,
    e: BrainInput,
    noise: Seq<i64>,
    post: Brain,
    out: BrainOutput,
) -> bool {
    let enc = one_hot(encode_index(e));
    let ext = eval_out(pre.root, seq![enc], noise)[0];
    let dist = spec_softmax(ext);
    &&& encodable(e)
    &&& noise_ok(noise, noise_len(pre.root))
    &&& eval_next(pre.root, seq![enc], noise, post.root)
    &&& post.input_log.deep_view() == pre.input_log.deep_view().push(enc)
    &&& post.output_log.deep_view() == pre.output_log.deep_view().push(dist)
    &&& out == decode_spec(dist)
}

impl Brain {
    /// Build the fixed topology with freshly sampled affine weights, a
    /// zero-initialised memory and empty logs, from the given seed.
    pub fn new(seed: u64) -> (b: Brain)
        ensures
            brain_wf(b),
            fixed_topology(b.root),
            b.root is Recurrent,
            noise_len(b.root) == MEMORY_SIZE,
            memory_view(b) == Seq::new(MEMORY_SIZE as nat, |j: int| 0i64),
            b.input_log@.len() == 0,
            b.output_log@.len() == 0,
    {
        let mut rng = rng_from_seed(seed);
        let mut weights: Vec<Vec<i64>> = Vec::new();
        let mut i: usize = 0;
        while i < HIDDEN
            invariant
                i <= HIDDEN,
                weights@.len() == i,
                forall|t: int|
                    0 <= t < i ==> (#[trigger] weights@[t])@.len() == HIDDEN + MEMORY_SIZE + 1,
                forall|t: int| 0 <= t < i ==> seq_in_range((#[trigger] weights@[t])@),
                forall|t: int| 0 <= t < i ==> unit_row((#[trigger] weights@[t])@),
            decreases HIDDEN - i,
        {
            let row = draw_noise(&mut rng, HIDDEN + MEMORY_SIZE + 1);
            proof {
                assert(seq_in_range(row@));
                assert(unit_row(row@));
            }
            weights.push(row);
            i += 1;
        }
        let aff = Layer::Affine { in_len: HIDDEN + MEMORY_SIZE, weights };
        let dense = Layer::Sequential {
            above: Box::new(aff),
            below: Box::new(Layer::Rectify { size: HIDDEN }),
        };
        let sbs = Layer::SideBySide {
            left: Box::new(Layer::PassThrough { size: HIDDEN }),
            right: Box::new(Layer::RandomNoise { size: MEMORY_SIZE }),
        };
        let inner = Layer::Sequential { above: Box::new(sbs), below: Box::new(dense) };
        proof {
            reveal_with_fuel(in_lens, 8);
            reveal_with_fuel(out_lens, 8);
            reveal_with_fuel(noise_len, 8);
            reveal_with_fuel(wf, 8);
            assert(out_lens(aff) =~= seq![HIDDEN as int]);
            assert(out_lens(sbs) =~= seq![(HIDDEN + MEMORY_SIZE) as int]);
            assert(in_lens(inner) =~= seq![HIDDEN as int]);
            assert(out_lens(inner) =~= seq![HIDDEN as int]);
            assert(wf(inner));
        }
        let mut memory: Vec<i64> = Vec::new();
        let mut k: usize = 0;
        while k < MEMORY_SIZE
            invariant
                k <= MEMORY_SIZE,
                memory@.len() == k,
                forall|t: int| 0 <= t < k ==> (#[trigger] memory@[t]) == 0i64,
            decreases MEMORY_SIZE - k,
        {
            memory.push(0);
            k += 1;
        }
        proof {
            assert(memory@ =~= Seq::new(MEMORY_SIZE as nat, |j: int| 0i64));
        }
        let root = Layer::Recurrent { inner: Box::new(inner), msize: MEMORY_SIZE, memory };
        proof {
            reveal_with_fuel(in_lens, 8);
            reveal_with_fuel(out_lens, 8);
            reveal_with_fuel(noise_len, 8);
            reveal_with_fuel(wf, 8);
            assert(in_lens(root) =~= seq![WIDTH as int]);
            assert(out_lens(root) =~= seq![WIDTH as int]);
            assert(fixed_topology(root));
        }
        Brain {
            root,
            rng,
            input_log: Vec::new(),
            output_log: Vec::new(),
            step_noise: Ghost(Seq::empty()),
        }
    }

    /// Process one event: encode it, log it, feed it through the graph
    /// (updating the recurrent memory), normalise, log and decode the
    /// answer. A character outside the single-byte alphabet is rejected and
    /// the state is left untouched.
    pub fn input(&mut self, input: BrainInput) -> (r: Result<BrainOutput, BrainError>)
        requires
            brain_wf(*old(self)),
        ensures
            brain_wf(*final(self)),
            r is Ok <==> encodable(input),
            !encodable(input) ==> *final(self) == *old(self) && r->Err_0
                == BrainError::UnencodableCharacter,
            r is Ok ==> step_rel(
                *old(self),
                input,
                final(self).step_noise@,
                *final(self),
                r->Ok_0,
            ),
    {
        let enc = match encode(input) {
            Ok(v) => v,
            Err(e) => {
                return Err(e);
            },
        };
        let ghost encv = enc@;
        proof {
            assert(seq_in_range(encv));
        }
        let mut logv: Vec<i64> = Vec::new();
        let mut k: usize = 0;
        while k < enc.len()
            invariant
                k <= enc@.len(),
                logv@ == enc@.take(k as int),
            decreases enc@.len() - k,
        {
            logv.push(enc[k]);
            proof {
                assert(enc@.take(k + 1) =~= enc@.take(k as int).push(enc@[k as int]));
            }
            k += 1;
        }
        proof {
            assert(logv@ =~= encv);
        }
        self.input_log.push(logv);
        let n = noise_count(&self.root);
        let noise = draw_noise(&mut self.rng, n);
        proof {
            assert(seq_in_range(noise@));
        }
        let mut root = Layer::PassThrough { size: 0 };
        core::mem::swap(&mut self.root, &mut root);
        let mut ins: Vec<Vec<i64>> = Vec::new();
        ins.push(enc);
        let ghost noisev = noise@;
        proof {
            lemma_dv(ins);
            assert(ins.deep_view() =~= seq![encv]);
            assert(shape_ok(seq![encv], in_lens(root)));
            lemma_eval_shape(root, seq![encv], noisev);
        }
        let ghost root0 = root;
        let (root2, mut outs) = forward(root, ins, noise);
        proof {
            lemma_next_preserves(root0, seq![encv], noisev, root2);
            lemma_dv(outs);
        }
        self.root = root2;
        let ext = outs.pop().unwrap();
        let dist = softmax(&ext);
        let mut logd: Vec<i64> = Vec::new();
        let mut k2: usize = 0;
        while k2 < dist.len()
            invariant
                k2 <= dist@.len(),
                logd@ == dist@.take(k2 as int),
            decreases dist@.len() - k2,
        {
            logd.push(dist[k2]);
            proof {
                assert(dist@.take(k2 + 1) =~= dist@.take(k2 as int).push(dist@[k2 as int]));
            }
            k2 += 1;
        }
        proof {
            assert(logd@ =~= dist@);
        }
        self.output_log.push(logd);
        let out = decode(&dist);
        self.step_noise = Ghost(noisev);
        proof {
            lemma_dv(self.input_log);
            lemma_dv(old(self).input_log);
            lemma_dv(self.output_log);
            lemma_dv(old(self).output_log);
            assert(self.input_log.deep_view() =~= old(self).input_log.deep_view().push(encv));
            assert(self.output_log.deep_view() =~= old(self).output_log.deep_view().push(dist@));
            assert(step_rel(*old(self), input, noisev, *self, out));
        }
        Ok(out)
    }

    /// The reward path is declared in the public contract but intentionally
    /// unimplemented: it fails loudly so a caller cannot mistake it for a
    /// working training signal.
    pub fn feedback(&mut self, _reward: i64) -> (r: Result<(), BrainError>)
        ensures
            r is Err,
            r->Err_0 == BrainError::Unimplemented,
            *final(self) == *old(self),
    {
        Err(BrainError::Unimplemented)
    }

    /// A copy of the root recurrent wrapper's memory vector.
    pub fn memory(&self) -> (r: Vec<i64>)
        ensures
            r@ == memory_view(*self),
    {
        match &self.root {
            Layer::Recurrent { inner, msize, memory } => {
                let mut r: Vec<i64> = Vec::new();
                let mut k: usize = 0;
                while k < memory.len()
                    invariant
                        k <= memory@.len(),
                        r@ == memory@.take(k as int),
                    decreases memory@.len() - k,
                {
                    r.push(memory[k]);
                    proof {
                        assert(memory@.take(k + 1) =~= memory@.take(k as int).push(
                            memory@[k as int],
                        ));
                    }
                    k += 1;
                }
                proof {
                    assert(r@ =~= memory@);
                }
                r
            },
            _ => Vec::new(),
        }
    }
}

/// Law: memory persistence — the state one step leaves behind depends only
/// on the pre-state, the event and the noise of that step, never on any
/// later input: two runs that agree on their first step agree on every
/// memory vector, on both logs and on the emitted event after it.
pub proof fn lemma_memory_depends_only_on_history(
    pre: Brain,
    e: BrainInput,
    noise: Seq<i64>,
    p1: Brain,
    o1: BrainOutput,
    p2: Brain,
    o2: BrainOutput,
)
    requires
        step_rel(pre, e, noise, p1, o1),
        step_rel(pre, e, noise, p2, o2),
    ensures
        memories(p1.root) == memories(p2.root),
        o1 == o2,
        p1.input_log.deep_view() == p2.input_log.deep_view(),
        p1.output_log.deep_view() == p2.output_log.deep_view(),
{
    lemma_next_deterministic(pre.root, seq![one_hot(encode_index(e))], noise, p1.root, p2.root);
}

/// Law: every vector a step appends to the output log is a valid
/// probability distribution: each entry lies in `[0, SCALE]` and the entries
/// sum to one unit, short by at most one rounding step per slot.
pub proof fn lemma_logged_output_is_distribution(
    pre: Brain,
    e: BrainInput,
    noise: Seq<i64>,
    post: Brain,
    out: BrainOutput,
)
    requires
        brain_wf(pre),
        step_rel(pre, e, noise, post, out),
    ensures
        post.output_log.deep_view().len() > 0,
        ({
            let dist = post.output_log.deep_view().last();
            &&& dist.len() == WIDTH
            &&& forall|i: int| 0 <= i < dist.len() ==> 0 <= #[trigger] dist[i] <= SCALE
            &&& (SCALE as int) - WIDTH <= seq_sum(dist) <= SCALE as int
        }),
{
    let enc = one_hot(encode_index(e));
    assert(seq_in_range(enc));
    assert(shape_ok(seq![enc], in_lens(pre.root)));
    lemma_eval_shape(pre.root, seq![enc], noise);
    let ext = eval_out(pre.root, seq![enc], noise)[0];
    lemma_softmax_distribution(ext);
}

/// Law: the affine weights are sampled once, at construction, and never
/// touched again: a step leaves every weight matrix of the graph exactly as
/// it was.
pub proof fn lemma_step_preserves_weights(
    pre: Brain,
    e: BrainInput,
    noise: Seq<i64>,
    post: Brain,
    out: BrainOutput,
)
    requires
        step_rel(pre, e, noise, post, out),
    ensures
        affine_weights(post.root) == affine_weights(pre.root),
{
    lemma_weights_fixed(pre.root, seq![one_hot(encode_index(e))], noise, post.root);
}

/// Law: after every step of a well-formed brain with a recurrent root, the
/// memory vector has its declared length and every entry is non-negative —
/// it is the rectified tail segment of the inner layer's output.
pub proof fn lemma_memory_rectified(
    pre: Brain,
    e: BrainInput,
    noise: Seq<i64>,
    post: Brain,
    out: BrainOutput,
)
    requires
        brain_wf(pre),
        pre.root is Recurrent,
        step_rel(pre, e, noise, post, out),
    ensures
        post.root is Recurrent,
        memory_view(post).len() == memory_view(pre).len(),
        forall|i: int| 0 <= i < memory_view(post).len() ==> #[trigger] memory_view(post)[i] >= 0,
{
    let enc = one_hot(encode_index(e));
    assert(seq_in_range(enc));
    assert(shape_ok(seq![enc], in_lens(pre.root)));
    match pre.root {
        Layer::Recurrent { inner, msize, memory } => {
            let x = enc + memory@;
            assert(seq_in_range(x));
            assert(shape_ok(seq![x], in_lens(*inner)));
            lemma_eval_shape(*inner, seq![x], noise);
            let y = eval_out(*inner, seq![x], noise)[0];
            match post.root {
                Layer::Recurrent { inner: i2, msize: m2, memory: mem2 } => {
                    assert(mem2@ == seq_relu(y.skip(y.len() - msize)));
                },
                _ => {},
            }
        },
        _ => {},
    }
}

} // verus!
