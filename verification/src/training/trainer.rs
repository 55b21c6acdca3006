//! Pieces of the training loop: batching and shuffling.
use vstd::prelude::*;
use vstd::slice::SliceAdditionalExecFns;
use crate::compute::random::{Rng, next_state, mix};
use crate::compute::tensor::{Tensor, shape_product, shape_fits, lemma_shape4};
use crate::data::datasets::make_fake_dataset;
use crate::compute::scalar::{Scalar, arith_total, exact_arith, exact_order};
use crate::config::ModelConfig;
use crate::training::network::{Network, NetworkError, batch_ok as net_batch_ok, logits_of, probs_ok, argmax_seq, count_matches, sgd_updated, step_recorded};

verus! {

/// Number of samples in the synthetic demo dataset.
pub fn demo_dataset_len() -> (n: usize)
    ensures
        n == 12,
{
    make_fake_dataset(0u8, 1u8).len()
}

/// Number of samples in the batch starting at `start`: `batch_size` or what is left.
pub open spec fn batch_len(len: int, start: int, batch_size: int) -> int {
    if start + batch_size < len { batch_size } else { len - start }
}

/// The samples `indices[start .. start + count]` exist and share the shape of the first one,
/// which has rank 3, and the stacked batch fits in memory.
pub open spec fn batch_ok<T>(samples: Seq<(Tensor<T>, usize)>, indices: Seq<usize>, start: int, count: int) -> bool {
    let first = samples[indices[start] as int].0;
    &&& 0 <= start
    &&& count >= 1
    &&& start + count <= indices.len()
    &&& forall|q: int| start <= q < start + count ==> #[trigger] indices[q] < samples.len()
    &&& first.shape.len() == 3
    &&& forall|q: int| start <= q < start + count ==> {
        let t = #[trigger] samples[indices[q] as int].0;
        &&& t.wf()
        &&& t.shape@ == first.shape@
    }
    &&& shape_fits(seq![count as usize, first.shape@[0], first.shape@[1], first.shape@[2]])
}

/// The images of `samples[indices[start]], ..., samples[indices[start + count - 1]]`, one
/// after the other (each as long as the first).
pub open spec fn batch_images<T>(samples: Seq<(Tensor<T>, usize)>, indices: Seq<usize>, start: int, count: int) -> Seq<T> {
    let len = samples[indices[start] as int].0.data.len() as int;
    Seq::new((count * len) as nat, |i: int| samples[indices[start + i / len] as int].0.data@[i % len])
}

/// The labels of `samples[indices[start]], ..., samples[indices[start + count - 1]]`.
pub open spec fn batch_labels<T>(samples: Seq<(Tensor<T>, usize)>, indices: Seq<usize>, start: int, count: int) -> Seq<
    usize,
> {
    Seq::new(count as nat, |q: int| samples[indices[start + q] as int].1)
}

/// Stacks the samples `indices[start .. end]` (with `end = min(start + batch_size, len)`)
/// into one `[count, c, h, w]` tensor, in order, with their labels.
pub fn make_batch<T: Copy>(
    samples: &[(Tensor<T>, usize)],
    indices: &[usize],
    start: usize,
    batch_size: usize,
) -> (res: (Tensor<T>, Vec<usize>))
    requires
        start + batch_size <= usize::MAX,
        batch_ok(samples@, indices@, start as int, batch_len(indices@.len() as int, start as int, batch_size as int)),
    ensures
        ({
            let count = batch_len(indices@.len() as int, start as int, batch_size as int);
            let first = samples@[indices@[start as int] as int].0;
            let sample_len = first.data.len() as int;
            &&& res.0.wf()
            &&& res.0.shape@ == seq![count as usize, first.shape@[0], first.shape@[1], first.shape@[2]]
            &&& res.0.data.len() == count * sample_len
            &&& forall|q: int, e: int|
                0 <= q < count && 0 <= e < sample_len ==> res.0.data@[q * sample_len + e]
                    == #[trigger] samples@[indices@[start + q] as int].0.data@[e]
            &&& res.1.len() == count
            &&& forall|q: int| 0 <= q < count ==> #[trigger] res.1@[q] == samples@[indices@[start + q] as int].1
            &&& res.0.data@ == batch_images(samples@, indices@, start as int, count)
            &&& res.1@ == batch_labels(samples@, indices@, start as int, count)
        }),
{
    let end = if start + batch_size < indices.len() { start + batch_size } else { indices.len() };
    let count = end - start;
    let first = &samples[indices[start]].0;
    let sample_len = first.data.len();
    let ghost c0 = first.shape@[0];
    let ghost c1 = first.shape@[1];
    let ghost c2 = first.shape@[2];
    proof {
        lemma_shape4(count, c0, c1, c2);
        assert(first.shape@ =~= seq![c0, c1, c2]);
        crate::compute::tensor::lemma_shape3(c0, c1, c2);
        assert(shape_product(first.shape@) == c0 * c1 * c2);
        assert(shape_product(seq![count, c0, c1, c2]) == count * (c0 * c1 * c2)) by (nonlinear_arith)
            requires
                shape_product(seq![count, c0, c1, c2]) == (count * c0) * (c1 * c2),
        ;
    }
    let mut data: Vec<T> = Vec::new();
    let mut targets: Vec<usize> = Vec::new();
    let mut q: usize = 0;
    while q < count
        invariant
            q <= count,
            count == end - start,
            end <= indices@.len(),
            start + count == end,
            batch_ok(samples@, indices@, start as int, count as int),
            sample_len == first.data.len(),
            first == samples@[indices@[start as int] as int].0,
            count * sample_len <= usize::MAX,
            data.len() == q * sample_len,
            forall|qq: int, e: int|
                0 <= qq < q && 0 <= e < sample_len ==> data@[qq * sample_len + e]
                    == #[trigger] samples@[indices@[start + qq] as int].0.data@[e],
            targets.len() == q,
            forall|qq: int| 0 <= qq < q ==> #[trigger] targets@[qq] == samples@[indices@[start + qq] as int].1,
        decreases count - q,
    {
        let idx = indices[start + q];
        let input = &samples[idx].0;
        proof {
            assert(input.shape@ == first.shape@);
            assert(input.data.len() == first.data.len());
            assert((q + 1) * sample_len <= count * sample_len) by (nonlinear_arith)
                requires
                    q < count,
            ;
            assert((q + 1) * sample_len == q * sample_len + sample_len) by (nonlinear_arith);
        }
        let ghost before = data@;
        let mut e: usize = 0;
        while e < sample_len
            invariant
                e <= sample_len,
                sample_len == input.data.len(),
                data.len() == q * sample_len + e,
                q * sample_len + sample_len <= usize::MAX,
                data@.take(q * sample_len) == before,
                before.len() == q * sample_len,
                forall|k: int| 0 <= k < e ==> #[trigger] data@[q * sample_len + k] == input.data@[k],
            decreases sample_len - e,
        {
            data.push(input.data[e]);
            e = e + 1;
            proof {
                assert(data@.take(q * sample_len) =~= before);
            }
        }
        targets.push(samples[idx].1);
        proof {
            assert forall|qq: int, e2: int|
                0 <= qq < q + 1 && 0 <= e2 < sample_len implies data@[qq * sample_len + e2]
                    == #[trigger] samples@[indices@[start + qq] as int].0.data@[e2] by {
                if qq < q {
                    crate::compute::index::lemma_offset_in_grid(qq, e2, q as int, sample_len as int);
                    assert(data@.take(q * sample_len)[qq * sample_len + e2] == data@[qq * sample_len + e2]);
                }
            }
            assert((q + 1) * sample_len == q * sample_len + sample_len) by (nonlinear_arith);
        }
        q = q + 1;
    }
    let mut shape: Vec<usize> = Vec::with_capacity(4);
    shape.push(count);
    shape.push(first.shape[0]);
    shape.push(first.shape[1]);
    shape.push(first.shape[2]);
    proof {
        assert(shape@ =~= seq![count, c0, c1, c2]);
        let ghost (sm, ix) = (samples@, indices@);
        crate::compute::kernels::lemma_cells_seq(
            data@,
            |q: int, e: int| sm[ix[start + q] as int].0.data@[e],
            count as int,
            sample_len as int,
        );
        assert(data@ =~= batch_images(samples@, indices@, start as int, count as int));
        assert(targets@ =~= batch_labels(samples@, indices@, start as int, count as int));
    }
    (Tensor { data, shape }, targets)
}

/// `s` with the elements at `i` and `j` exchanged.
pub open spec fn swap_spec(s: Seq<usize>, i: int, j: int) -> Seq<usize> {
    s.update(i, s[j]).update(j, s[i])
}

/// Fisher-Yates shuffle of `s` for positions `i, i - 1, ..., 1`, drawing from a generator in
/// state `state`: position `i` is exchanged with a position drawn from `0 ..= i`.
/// Returns the shuffled sequence and the generator's final state.
pub open spec fn fisher_yates(s: Seq<usize>, state: u64, i: nat) -> (Seq<usize>, u64)
    decreases i,
{
    if i == 0 {
        (s, state)
    } else {
        let st = next_state(state);
        let j = (mix(st) as int) % ((i + 1) as int);
        fisher_yates(swap_spec(s, i as int, j), st, (i - 1) as nat)
    }
}

/// Exchanging two positions keeps the multiset of elements.
pub proof fn lemma_swap_permutes(s: Seq<usize>, i: int, j: int)
    requires
        0 <= i < s.len(),
        0 <= j < s.len(),
    ensures
        swap_spec(s, i, j).to_multiset() =~= s.to_multiset(),
        swap_spec(s, i, j).len() == s.len(),
{
    broadcast use vstd::multiset::group_multiset_axioms;
    broadcast use vstd::multiset::group_multiset_properties;
    let s1 = s.update(i, s[j]);
    vstd::seq_lib::to_multiset_contains(s, s[i]);
    assert(s.contains(s[i]));
    let m = s.to_multiset();
    assert(m.count(s[i]) > 0);
    vstd::seq_lib::to_multiset_update(s, i, s[j]);
    vstd::seq_lib::to_multiset_update(s1, j, s[i]);
    if i == j {
        assert(s1 =~= s);
        assert(s1.update(j, s[i]) =~= s);
    } else {
        assert(s1[j] == s[j]);
    }
    let m1 = m.insert(s[j]).remove(s[i]);
    let m2 = m1.insert(s[i]).remove(s[j]);
    assert forall|x: usize| #[trigger] m2.count(x) == m.count(x) by {
        if s[i] == s[j] {
        } else {
        }
    }
    assert(m2 =~= m);
}

/// The Fisher-Yates shuffle is a permutation.
pub proof fn lemma_fisher_yates_permutes(s: Seq<usize>, state: u64, i: nat)
    requires
        i < s.len(),
    ensures
        fisher_yates(s, state, i).0.to_multiset() =~= s.to_multiset(),
        fisher_yates(s, state, i).0.len() == s.len(),
    decreases i,
{
    if i > 0 {
        let st = next_state(state);
        let j = (mix(st) as int) % ((i + 1) as int);
        lemma_swap_permutes(s, i as int, j);
        lemma_fisher_yates_permutes(swap_spec(s, i as int, j), st, (i - 1) as nat);
    }
}

/// Shuffles `indices` in place with the Fisher-Yates algorithm driven by `rng`.
pub fn shuffle_indices(indices: &mut [usize], rng: &mut Rng)
    ensures
        final(indices)@.len() == old(indices)@.len(),
        old(indices)@.len() == 0 ==> final(indices)@ == old(indices)@ && final(rng).state() == old(rng).state(),
        old(indices)@.len() > 0 ==> (final(indices)@, final(rng).state()) == fisher_yates(
            old(indices)@,
            old(rng).state(),
            (old(indices)@.len() - 1) as nat,
        ),
        final(indices)@.to_multiset() == old(indices)@.to_multiset(),
{
    let len = indices.len();
    if len == 0 {
        return;
    }
    let mut i: usize = len - 1;
    while i > 0
        invariant
            i < len,
            len == indices@.len(),
            len == old(indices)@.len(),
            fisher_yates(indices@, rng.state(), i as nat) == fisher_yates(
                old(indices)@,
                old(rng).state(),
                (len - 1) as nat,
            ),
        decreases i,
    {
        let ghost s0 = indices@;
        let j = rng.gen_range(i + 1);
        let a = indices[i];
        let b = indices[j];
        indices.set(i, b);
        indices.set(j, a);
        proof {
            assert(indices@ =~= swap_spec(s0, i as int, j as int));
        }
        i = i - 1;
    }
    proof {
        lemma_fisher_yates_permutes(old(indices)@, old(rng).state(), (len - 1) as nat);
    }
}

/// Every sample is a well-formed `[channels, height, width]` image of the configured size
/// with a label below the number of classes.
pub open spec fn dataset_ok<T>(cfg: ModelConfig, samples: Seq<(Tensor<T>, usize)>) -> bool {
    forall|i: int| 0 <= i < samples.len() ==> {
        let s = #[trigger] samples[i];
        &&& s.0.wf()
        &&& s.0.shape@ == seq![cfg.input_channels, cfg.input_height, cfg.input_width]
        &&& s.1 < cfg.num_classes
    }
}

/// Every batch of up to `batch_size` images can be stacked and run.
pub open spec fn batches_fit(cfg: ModelConfig, batch_size: usize) -> bool {
    forall|m: usize| 1 <= m <= batch_size ==> {
        &&& #[trigger] net_batch_ok(cfg, m)
        &&& shape_fits(seq![m, cfg.input_channels, cfg.input_height, cfg.input_width])
    }
}

/// Indices `0 .. n` in order.
fn identity_indices(n: usize) -> (r: Vec<usize>)
    ensures
        r@.len() == n,
        forall|i: int| 0 <= i < n ==> #[trigger] r@[i] == i,
{
    let mut r: Vec<usize> = Vec::with_capacity(n);
    let mut i: usize = 0;
    while i < n
        invariant
            i <= n,
            r@.len() == i,
            forall|k: int| 0 <= k < i ==> #[trigger] r@[k] == k,
        decreases n - i,
    {
        r.push(i);
        i = i + 1;
    }
    r
}

/// The batch `indices[start ..]` of at most `batch_size` samples can be stacked and run.
proof fn lemma_batch_ready<T>(
    cfg: ModelConfig,
    samples: Seq<(Tensor<T>, usize)>,
    indices: Seq<usize>,
    start: int,
    batch_size: int,
)
    requires
        dataset_ok(cfg, samples),
        batches_fit(cfg, batch_size as usize),
        0 < batch_size <= usize::MAX,
        0 <= start < indices.len(),
        forall|q: int| 0 <= q < indices.len() ==> #[trigger] indices[q] < samples.len(),
    ensures
        batch_ok(samples, indices, start, batch_len(indices.len() as int, start, batch_size)),
        net_batch_ok(cfg, batch_len(indices.len() as int, start, batch_size) as usize),
{
    let count = batch_len(indices.len() as int, start, batch_size);
    let first = samples[indices[start] as int].0;
    assert(1 <= count <= batch_size);
    assert(dataset_ok(cfg, samples));
    let s = samples[indices[start] as int];
    assert(first.shape@ == seq![cfg.input_channels, cfg.input_height, cfg.input_width]);
    let m = count as usize;
    assert(1 <= m <= batch_size as usize);
    assert(net_batch_ok(cfg, m) && shape_fits(seq![m, cfg.input_channels, cfg.input_height, cfg.input_width]));
    assert forall|q: int| start <= q < start + count implies {
        let t = #[trigger] samples[indices[q] as int].0;
        &&& t.wf()
        &&& t.shape@ == first.shape@
    } by {
        let s2 = samples[indices[q] as int];
    }
}

/// `0, 1, ..., n - 1`.
pub open spec fn in_order(n: nat) -> Seq<usize> {
    Seq::new(n, |i: int| i as usize)
}

/// `outs[b]` holds, for batch `b` of `samples` (taken in order, `batch_size` at a time), the
/// logits the network `net` computes for it and what `softmax` returned for those logits.
pub open spec fn eval_outputs<T: Scalar, F: Fn(&Tensor<T>) -> Tensor<T>>(
    net: Network<T>,
    samples: Seq<(Tensor<T>, usize)>,
    batch_size: int,
    softmax: F,
    outs: Seq<(Tensor<T>, Tensor<T>)>,
) -> bool {
    forall|b: int| 0 <= b < outs.len() ==> {
        let start = b * batch_size;
        let count = batch_len(samples.len() as int, start, batch_size);
        &&& logits_of(
            (#[trigger] outs[b]).0,
            net,
            batch_images(samples, in_order(samples.len()), start, count),
            count as usize,
        )
        &&& softmax.ensures((&outs[b].0,), outs[b].1)
    }
}

/// The probabilities in `outs[.. m]` have the shape of their batch.
pub open spec fn probs_fit<T>(len: int, batch_size: int, classes: usize, outs: Seq<(Tensor<T>, Tensor<T>)>, m: int) -> bool {
    forall|b: int|
        0 <= b < m ==> probs_ok((#[trigger] outs[b]).1, batch_len(len, b * batch_size, batch_size) as usize, classes)
}

/// Correct predictions (row-wise argmax of `probs(b)` equal to the label) in the first `m`
/// batches of `samples` taken in the order `indices`, `batch_size` at a time.
pub open spec fn hits_upto<T: Scalar>(
    samples: Seq<(Tensor<T>, usize)>,
    indices: Seq<usize>,
    batch_size: int,
    classes: usize,
    probs: spec_fn(int) -> Tensor<T>,
    m: nat,
) -> nat
    decreases m,
{
    if m == 0 {
        0
    } else {
        let start = (m - 1) * batch_size;
        let count = batch_len(indices.len() as int, start, batch_size);
        hits_upto(samples, indices, batch_size, classes, probs, (m - 1) as nat) + count_matches(
            argmax_seq(probs(m - 1), count as usize, classes),
            batch_labels(samples, indices, start, count),
            count as nat,
        )
    }
}

/// How many images of `dataset` the network classifies correctly, predicting batches of
/// `batch_size` in order; `softmax` turns logits into probabilities. Returns the count and
/// the dataset size, and leaves the weights unchanged; fails at the first batch whose
/// probabilities do not have the batch's shape.
pub fn evaluate<T: Scalar>(
    net: &mut Network<T>,
    dataset: &[(Tensor<T>, usize)],
    batch_size: usize,
    softmax: impl Fn(&Tensor<T>) -> Tensor<T>,
) -> (r: Result<(usize, usize), NetworkError>)
    requires
        arith_total::<T>(),
        old(net).wf(),
        old(net).config().num_classes > 0,
        batch_size > 0,
        dataset@.len() + batch_size <= usize::MAX,
        dataset_ok(old(net).config(), dataset@),
        batches_fit(old(net).config(), batch_size),
        forall|t: &Tensor<T>| softmax.requires((t,)),
    ensures
        final(net).wf(),
        final(net).config() == old(net).config(),
        final(net).weights() == old(net).weights(),
        exists|outs: Seq<(Tensor<T>, Tensor<T>)>|
            #![trigger eval_outputs(*old(net), dataset@, batch_size as int, softmax, outs)]
            {
                let n = dataset@.len() as int;
                let bs = batch_size as int;
                let classes = old(net).config().num_classes;
                &&& eval_outputs(*old(net), dataset@, bs, softmax, outs)
                &&& outs.len() == 0 || (outs.len() - 1) * bs < n
                &&& (r is Ok ==> outs.len() * bs >= n && probs_fit(n, bs, classes, outs, outs.len() as int))
                &&& (r is Err ==> {
                    &&& outs.len() >= 1
                    &&& probs_fit(n, bs, classes, outs, outs.len() - 1)
                    &&& !probs_ok(outs.last().1, batch_len(n, (outs.len() - 1) * bs, bs) as usize, classes)
                })
                &&& (r matches Ok((correct, total)) ==> {
                    &&& total == n
                    &&& correct <= total
                    &&& exact_order::<T>() ==> correct == hits_upto(dataset@, in_order(n as nat), bs, classes, |b: int| outs[b].1, outs.len())
                })
            },
{
    let n = dataset.len();
    let indices = identity_indices(n);
    let mut correct: usize = 0;
    let mut start: usize = 0;
    let ghost cfg = net.config();
    let ghost net0 = *net;
    let ghost bs = batch_size as int;
    let ghost mut outs: Seq<(Tensor<T>, Tensor<T>)> = Seq::empty();
    proof {
        assert(indices@ =~= in_order(n as nat));
        assert(outs.len() * bs == 0) by (nonlinear_arith)
            requires
                outs.len() == 0,
        ;
    }
    while start < n
        invariant
            arith_total::<T>(),
            n == dataset@.len(),
            indices@ == in_order(n as nat),
            batch_size > 0,
            bs == batch_size,
            n + batch_size <= usize::MAX,
            net.wf(),
            net.config() == cfg,
            net.weights() == net0.weights(),
            net.zero() == net0.zero(),
            net.lowest() == net0.lowest(),
            cfg.num_classes > 0,
            dataset_ok(cfg, dataset@),
            batches_fit(cfg, batch_size),
            forall|t: &Tensor<T>| softmax.requires((t,)),
            cfg == old(net).config(),
            net0 == *old(net),
            start == outs.len() * bs,
            outs.len() == 0 || (outs.len() - 1) * bs < n,
            eval_outputs(net0, dataset@, bs, softmax, outs),
            probs_fit(n as int, bs, cfg.num_classes, outs, outs.len() as int),
            exact_order::<T>() ==> correct == hits_upto(dataset@, in_order(n as nat), bs, cfg.num_classes, |b: int| outs[b].1, outs.len()),
            correct <= start,
            correct <= n,
            start <= n + batch_size,
        decreases n + batch_size - start,
    {
        proof {
            lemma_batch_ready(cfg, dataset@, indices@, start as int, batch_size as int);
        }
        let (input, targets) = make_batch(dataset, indices.as_slice(), start, batch_size);
        let ghost count = batch_len(n as int, start as int, batch_size as int);
        let ghost before = *net;
        let r = net.predict_batch(&input, &softmax);
        let ghost (logits, probs) = choose|logits: Tensor<T>, probs: Tensor<T>|
            {
                &&& crate::training::network::logits_of(logits, before, input.data@, input.shape@[0])
                &&& #[trigger] softmax.ensures((&logits,), probs)
                &&& (r is Ok <==> probs_ok(probs, input.shape@[0], cfg.num_classes))
                &&& (r matches Ok(p) ==> crate::training::network::predictions_of(
                    p@,
                    probs,
                    input.shape@[0],
                    cfg.num_classes,
                ))
            };
        let ghost outs0 = outs;
        proof {
            outs = outs.push((logits, probs));
            assert(input.shape@[0] == count);
            assert forall|b: int| 0 <= b < outs.len() implies {
                let st = b * bs;
                let c = batch_len(n as int, st, bs);
                &&& crate::training::network::logits_of(
                    (#[trigger] outs[b]).0,
                    net0,
                    batch_images(dataset@, in_order(n as nat), st, c),
                    c as usize,
                )
                &&& softmax.ensures((&outs[b].0,), outs[b].1)
            } by {
                if b < outs0.len() {
                    assert(outs[b] == outs0[b]);
                }
            }
            assert(outs.len() - 1 == outs0.len());
            assert(outs.last() == (logits, probs));
            assert forall|b: int| 0 <= b < outs0.len() implies probs_ok(
                (#[trigger] outs[b]).1,
                batch_len(n as int, b * bs, bs) as usize,
                cfg.num_classes,
            ) by {
                assert(outs[b] == outs0[b]);
            }
            lemma_hits_prefix(
                dataset@,
                in_order(n as nat),
                bs,
                cfg.num_classes,
                |b: int| outs0[b].1,
                |b: int| outs[b].1,
                outs0.len(),
            );
        }
        let predictions = match r {
            Ok(p) => p,
            Err(e) => {
                proof {
                    assert((outs.len() - 1) * bs == start);
                    assert(probs_fit(n as int, bs, cfg.num_classes, outs, outs.len() - 1));
                    assert(!probs_ok(outs.last().1, batch_len(n as int, (outs.len() - 1) * bs, bs) as usize, cfg.num_classes));
                    assert(eval_outputs(*old(net), dataset@, batch_size as int, softmax, outs));
                }
                return Err(e);
            },
        };
        let hits = crate::training::network::count_correct(&predictions, targets.as_slice());
        proof {
            assert(hits <= count);
            assert(count <= n - start);
            if exact_order::<T>() {
                assert(predictions@ =~= argmax_seq(probs, count as usize, cfg.num_classes));
            }
        }
        correct = correct + hits;
        start = start + batch_size;
        proof {
            assert(start == outs.len() * bs) by (nonlinear_arith)
                requires
                    start == outs0.len() * bs + bs,
                    outs.len() == outs0.len() + 1,
            ;
        }
    }
    Ok((correct, n))
}

/// `hits_upto` over `m` batches depends on the first `m` probability tensors only.
proof fn lemma_hits_prefix<T: Scalar>(
    samples: Seq<(Tensor<T>, usize)>,
    indices: Seq<usize>,
    batch_size: int,
    classes: usize,
    a: spec_fn(int) -> Tensor<T>,
    b: spec_fn(int) -> Tensor<T>,
    m: nat,
)
    requires
        forall|i: int| 0 <= i < m ==> #[trigger] a(i) == b(i),
    ensures
        hits_upto(samples, indices, batch_size, classes, a, m) == hits_upto(samples, indices, batch_size, classes, b, m),
    decreases m,
{
    if m > 0 {
        lemma_hits_prefix(samples, indices, batch_size, classes, a, b, (m - 1) as nat);
        assert(a(m - 1) == b(m - 1));
    }
}

/// What `loss_fn` returned for batch `b` (of `samples` in the order `indices`, `batch_size` at
/// a time), whose logits under the network `net` are `logits`: `out` is its output on those
/// logits and the batch's labels.
pub open spec fn batch_loss<T: Scalar, F: Fn(&Tensor<T>, &[usize]) -> (Tensor<T>, T, T)>(
    net: Network<T>,
    samples: Seq<(Tensor<T>, usize)>,
    indices: Seq<usize>,
    b: int,
    batch_size: int,
    loss_fn: F,
    logits: Tensor<T>,
    out: (Tensor<T>, T, T),
) -> bool {
    let start = b * batch_size;
    let count = batch_len(indices.len() as int, start, batch_size);
    &&& logits_of(logits, net, batch_images(samples, indices, start, count), count as usize)
    &&& exists|ts: &[usize]|
        #![trigger loss_fn.ensures((&logits, ts), out)]
        ts@ == batch_labels(samples, indices, start, count) && loss_fn.ensures((&logits, ts), out)
}

/// The network `next` is `net` after one SGD step with learning rate `lr`.
pub open spec fn stepped<T: Scalar>(next: Network<T>, net: Network<T>, lr: T) -> bool {
    &&& next.config() == net.config()
    &&& next.zero() == net.zero()
    &&& next.lowest() == net.lowest()
    &&& exact_arith::<T>() ==> forall|k: int|
        0 <= k < net.param_len() ==> #[trigger] sgd_updated(next.weights()[k], net.weights()[k], lr)
}

/// The first `m` batches of an epoch: `nets[b]` is the network before batch `b` and `outs[b]`
/// the batch's logits and loss output, whose probabilities have the batch's shape; `nets[b + 1]`
/// is `nets[b]` after the SGD step on the batch.
pub open spec fn epoch_run<T: Scalar, F: Fn(&Tensor<T>, &[usize]) -> (Tensor<T>, T, T)>(
    nets: Seq<Network<T>>,
    outs: Seq<(Tensor<T>, (Tensor<T>, T, T))>,
    samples: Seq<(Tensor<T>, usize)>,
    indices: Seq<usize>,
    batch_size: int,
    lr: T,
    loss_fn: F,
    m: int,
) -> bool {
    &&& nets.len() == m + 1
    &&& m <= outs.len()
    &&& forall|b: int| 0 <= b < m ==> {
        &&& batch_loss(#[trigger] nets[b], samples, indices, b, batch_size, loss_fn, outs[b].0, outs[b].1)
        &&& probs_ok(
            outs[b].1.0,
            batch_len(indices.len() as int, b * batch_size, batch_size) as usize,
            nets[b].config().num_classes,
        )
        &&& stepped(nets[b + 1], nets[b], lr)
        &&& exact_arith::<T>() && exact_order::<T>() ==> step_recorded(
            nets[b + 1],
            nets[b],
            batch_images(samples, indices, b * batch_size, batch_len(indices.len() as int, b * batch_size, batch_size)),
            batch_labels(samples, indices, b * batch_size, batch_len(indices.len() as int, b * batch_size, batch_size)),
            outs[b].0,
            outs[b].1,
            lr,
        )
    }
}

/// One pass over `train` in the order `indices`: an SGD step (learning rate `lr`, loss from
/// `loss_fn`) on each batch of `batch_size` samples, the last batch taking what is left.
/// Returns each batch's loss with its size, and how many samples were predicted correctly;
/// fails at the first batch whose probabilities do not have the batch's shape, leaving the
/// weights as the previous batches made them.
pub fn train_epoch<T: Scalar>(
    net: &mut Network<T>,
    train: &[(Tensor<T>, usize)],
    indices: &[usize],
    batch_size: usize,
    lr: T,
    loss_fn: impl Fn(&Tensor<T>, &[usize]) -> (Tensor<T>, T, T),
) -> (r: Result<(Vec<(T, usize)>, usize), NetworkError>)
    requires
        arith_total::<T>(),
        old(net).wf(),
        old(net).config().num_classes > 0,
        batch_size > 0,
        indices@.len() + batch_size <= usize::MAX,
        forall|q: int| 0 <= q < indices@.len() ==> #[trigger] indices@[q] < train@.len(),
        dataset_ok(old(net).config(), train@),
        batches_fit(old(net).config(), batch_size),
        forall|t: &Tensor<T>, ts: &[usize]| loss_fn.requires((t, ts)),
    ensures
        final(net).wf(),
        final(net).config() == old(net).config(),
        exists|nets: Seq<Network<T>>, outs: Seq<(Tensor<T>, (Tensor<T>, T, T))>|
            #![trigger epoch_run(nets, outs, train@, indices@, batch_size as int, lr, loss_fn, nets.len() - 1)]
            {
                let n = indices@.len() as int;
                let bs = batch_size as int;
                let m = nets.len() - 1;
                &&& nets[0] == *old(net)
                &&& epoch_run(nets, outs, train@, indices@, bs, lr, loss_fn, m)
                &&& final(net).weights() == nets[m].weights()
                &&& (r is Ok ==> {
                    &&& outs.len() == m
                    &&& m * bs >= n
                    &&& (m == 0 || (m - 1) * bs < n)
                })
                &&& (r is Err ==> {
                    &&& outs.len() == m + 1
                    &&& m * bs < n
                    &&& batch_loss(nets[m], train@, indices@, m, bs, loss_fn, outs[m].0, outs[m].1)
                    &&& !probs_ok(outs[m].1.0, batch_len(n, m * bs, bs) as usize, old(net).config().num_classes)
                })
                &&& (r matches Ok((losses, correct)) ==> {
                    &&& losses.len() == m
                    &&& forall|b: int| 0 <= b < m ==> #[trigger] losses@[b] == (
                        outs[b].1.1,
                        batch_len(n, b * bs, bs) as usize,
                    )
                    &&& correct <= n
                    &&& exact_order::<T>() ==> correct == hits_upto(
                        train@,
                        indices@,
                        bs,
                        old(net).config().num_classes,
                        |b: int| outs[b].1.0,
                        m as nat,
                    )
                })
            },
{
    let n = indices.len();
    let mut losses: Vec<(T, usize)> = Vec::new();
    let mut correct: usize = 0;
    let mut start: usize = 0;
    let ghost cfg = net.config();
    let ghost bs = batch_size as int;
    let ghost mut nets: Seq<Network<T>> = seq![*net];
    let ghost mut outs: Seq<(Tensor<T>, (Tensor<T>, T, T))> = Seq::empty();
    assert(losses.len() * batch_size == 0) by (nonlinear_arith)
        requires
            losses.len() == 0,
    ;
    while start < n
        invariant
            arith_total::<T>(),
            n == indices@.len(),
            forall|q: int| 0 <= q < n ==> #[trigger] indices@[q] < train@.len(),
            batch_size > 0,
            bs == batch_size,
            n + batch_size <= usize::MAX,
            net.wf(),
            net.config() == cfg,
            cfg == old(net).config(),
            cfg.num_classes > 0,
            dataset_ok(cfg, train@),
            batches_fit(cfg, batch_size),
            forall|t: &Tensor<T>, ts: &[usize]| loss_fn.requires((t, ts)),
            nets[0] == *old(net),
            nets.len() == losses.len() + 1,
            outs.len() == losses.len(),
            *net == nets.last(),
            epoch_run(nets, outs, train@, indices@, bs, lr, loss_fn, losses.len() as int),
            forall|b: int| 0 <= b < nets.len() ==> (#[trigger] nets[b]).config() == cfg,
            start == losses.len() * batch_size,
            losses.len() > 0 ==> start - batch_size < n,
            forall|b: int| 0 <= b < losses.len() ==> #[trigger] losses@[b] == (
                outs[b].1.1,
                batch_len(n as int, b * bs, bs) as usize,
            ),
            exact_order::<T>() ==> correct == hits_upto(train@, indices@, bs, cfg.num_classes, |b: int| outs[b].1.0, outs.len()),
            correct <= start,
            correct <= n,
            start <= n + batch_size,
        decreases n + batch_size - start,
    {
        proof {
            lemma_batch_ready(cfg, train@, indices@, start as int, batch_size as int);
        }
        let (input, targets) = make_batch(train, indices, start, batch_size);
        let ghost count = batch_len(n as int, start as int, batch_size as int);
        let ts = targets.as_slice();
        let ghost before = *net;
        let r = net.train_step_batch(&input, ts, lr, &loss_fn);
        let ghost (logits, out) = choose|logits: Tensor<T>, out: (Tensor<T>, T, T)|
            {
                let c = input.shape@[0];
                &&& logits_of(logits, before, input.data@, c)
                &&& #[trigger] loss_fn.ensures((&logits, ts), out)
                &&& (r is Ok <==> probs_ok(out.0, c, cfg.num_classes))
                &&& (r matches Ok((loss, hits)) ==> {
                    &&& loss == out.1
                    &&& hits <= c
                    &&& exact_order::<T>() ==> hits == count_matches(argmax_seq(out.0, c, cfg.num_classes), ts@, c as nat)
                })
                &&& (r is Ok && exact_arith::<T>() && exact_order::<T>() ==> step_recorded(
                    *net,
                    before,
                    input.data@,
                    ts@,
                    logits,
                    out,
                    lr,
                ))
            };
        let ghost outs0 = outs;
        let ghost nets0 = nets;
        let ghost k = losses.len() as int;
        proof {
            outs = outs.push((logits, out));
            assert(input.shape@[0] == count);
            assert(k * bs == start);
            assert(batch_loss(nets0[k], train@, indices@, k, bs, loss_fn, logits, out));
            assert forall|b: int| 0 <= b < outs0.len() implies #[trigger] outs[b] == outs0[b] by {}
            lemma_hits_prefix(
                train@,
                indices@,
                bs,
                cfg.num_classes,
                |b: int| outs0[b].1.0,
                |b: int| outs[b].1.0,
                outs0.len(),
            );
        }
        let (loss, hits) = match r {
            Ok(v) => v,
            Err(e) => {
                proof {
                    assert(epoch_run(nets, outs, train@, indices@, bs, lr, loss_fn, nets.len() - 1)) by {
                        assert forall|b: int| 0 <= b < nets.len() - 1 implies {
                            &&& batch_loss(#[trigger] nets[b], train@, indices@, b, bs, loss_fn, outs[b].0, outs[b].1)
                            &&& probs_ok(
                                outs[b].1.0,
                                batch_len(indices@.len() as int, b * bs, bs) as usize,
                                nets[b].config().num_classes,
                            )
                            &&& stepped(nets[b + 1], nets[b], lr)
                            &&& exact_arith::<T>() && exact_order::<T>() ==> step_recorded(
                                nets[b + 1],
                                nets[b],
                                batch_images(train@, indices@, b * bs, batch_len(indices@.len() as int, b * bs, bs)),
                                batch_labels(train@, indices@, b * bs, batch_len(indices@.len() as int, b * bs, bs)),
                                outs[b].0,
                                outs[b].1,
                                lr,
                            )
                        } by {
                            assert(outs[b] == outs0[b]);
                        }
                    }
                    assert(nets[k] == before);
                }
                return Err(e);
            },
        };
        proof {
            nets = nets.push(*net);
            assert forall|b: int| 0 <= b <= k implies {
                &&& batch_loss(#[trigger] nets[b], train@, indices@, b, bs, loss_fn, outs[b].0, outs[b].1)
                &&& probs_ok(
                    outs[b].1.0,
                    batch_len(indices@.len() as int, b * bs, bs) as usize,
                    nets[b].config().num_classes,
                )
                &&& stepped(nets[b + 1], nets[b], lr)
                &&& exact_arith::<T>() && exact_order::<T>() ==> step_recorded(
                    nets[b + 1],
                    nets[b],
                    batch_images(train@, indices@, b * bs, batch_len(indices@.len() as int, b * bs, bs)),
                    batch_labels(train@, indices@, b * bs, batch_len(indices@.len() as int, b * bs, bs)),
                    outs[b].0,
                    outs[b].1,
                    lr,
                )
            } by {
                if b < k {
                    assert(nets[b] == nets0[b]);
                    assert(nets[b + 1] == nets0[b + 1]);
                    assert(outs[b] == outs0[b]);
                }
            }
            if exact_order::<T>() {
                assert(ts@ =~= batch_labels(train@, indices@, start as int, count));
            }
            assert(hits <= count);
            assert(count <= n - start);
        }
        losses.push((loss, targets.len()));
        correct = correct + hits;
        proof {
            assert((losses.len() as int) * batch_size == start + batch_size) by (nonlinear_arith)
                requires
                    start == (losses.len() - 1) * batch_size,
            ;
            assert forall|b: int| 0 <= b < losses.len() implies #[trigger] losses@[b] == (
                outs[b].1.1,
                batch_len(n as int, b * bs, bs) as usize,
            ) by {
                if b < k {
                    assert(outs[b] == outs0[b]);
                }
            }
        }
        start = start + batch_size;
    }
    assert((losses.len() - 1) * batch_size == losses.len() * batch_size - batch_size) by (nonlinear_arith);
    Ok((losses, correct))
}

} // verus!
