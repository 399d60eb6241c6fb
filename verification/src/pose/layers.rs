//! Building blocks of the pose network.
//!
//! A block is a plan: it knows the hyperparameters of its convolutions and the slots of their
//! parameters in a [`LayerTable`]. Its `forward` writes the block's operations into a
//! [`Graph`](crate::pose::graph::Graph); its `runs_on` says for which operands they fit together.

use vstd::prelude::*;

use crate::pose::graph::{all_shaped, shape, Dims, Graph, Term};

verus! {

/// Activation that follows a convolution.
#[derive(Clone, Copy, Debug, PartialEq, Eq, Structural)]
pub enum ActivationKind {
    Identity,
    Relu,
    Sigmoid,
}

/// A convolution, its optional batch norm and its activation. `slot` numbers the layer's
/// parameters in its [`LayerTable`].
#[derive(Clone, Copy, Debug, PartialEq, Eq, Structural)]
pub struct ConvBnAct {
    pub slot: usize,
    pub in_channels: usize,
    pub out_channels: usize,
    pub kernel_size: usize,
    pub stride: usize,
    pub padding: usize,
    pub groups: usize,
    pub with_bn: bool,
    pub act: ActivationKind,
}

/// The layers of a network in the order in which they are made.
pub struct LayerTable {
    layers: Vec<ConvBnAct>,
}

impl View for LayerTable {
    type V = Seq<ConvBnAct>;

    closed spec fn view(&self) -> Seq<ConvBnAct> {
        self.layers@
    }
}

impl LayerTable {
    /// Each layer stands at its own slot.
    pub open spec fn wf(self) -> bool {
        forall|i: int| 0 <= i < self@.len() ==> (#[trigger] self@[i]).slot == i
    }

    /// `self` is `before` with `added` appended.
    pub open spec fn adds(self, before: LayerTable, added: Seq<ConvBnAct>) -> bool {
        &&& self.wf()
        &&& self@ == before@ + added
    }

    pub fn new() -> (r: LayerTable)
        ensures
            r.wf(),
            r@.len() == 0,
    {
        LayerTable { layers: Vec::new() }
    }

    pub fn len(&self) -> (r: usize)
        ensures
            r == self@.len(),
    {
        self.layers.len()
    }

    pub fn get(&self, slot: usize) -> (r: ConvBnAct)
        requires
            slot < self@.len(),
        ensures
            r == self@[slot as int],
    {
        self.layers[slot]
    }
}

impl ConvBnAct {
    /// The layer's hyperparameters.
    pub open spec fn has_form(
        self,
        in_channels: usize,
        out_channels: usize,
        kernel_size: usize,
        stride: usize,
        padding: usize,
        groups: usize,
        with_bn: bool,
        act: ActivationKind,
    ) -> bool {
        &&& self.in_channels == in_channels
        &&& self.out_channels == out_channels
        &&& self.kernel_size == kernel_size
        &&& self.stride == stride
        &&& self.padding == padding
        &&& self.groups == groups
        &&& self.with_bn == with_bn
        &&& self.act == act
    }

    /// A 3x3 convolution of each channel on its own, with batch norm and no activation.
    pub open spec fn is_depthwise(self, channels: usize, stride: usize) -> bool {
        self.has_form(channels, channels, 3, stride, 1, channels, true, ActivationKind::Identity)
    }

    /// A 1x1 convolution with batch norm.
    pub open spec fn is_pointwise(
        self,
        in_channels: usize,
        out_channels: usize,
        act: ActivationKind,
    ) -> bool {
        self.has_form(in_channels, out_channels, 1, 1, 0, 1, true, act)
    }

    /// Adds a layer to the table. Both channel counts are divisible by the groups.
    #[allow(clippy::too_many_arguments)]
    pub fn new(
        table: &mut LayerTable,
        in_channels: usize,
        out_channels: usize,
        kernel_size: usize,
        stride: usize,
        padding: usize,
        groups: usize,
        with_bn: bool,
        act: ActivationKind,
    ) -> (r: ConvBnAct)
        requires
            old(table).wf(),
            groups > 0,
            in_channels as int % groups as int == 0,
            out_channels as int % groups as int == 0,
        ensures
            r.has_form(in_channels, out_channels, kernel_size, stride, padding, groups, with_bn, act),
            r.slot == old(table)@.len(),
            final(table).adds(*old(table), seq![r]),
    {
        let layer = ConvBnAct {
            slot: table.layers.len(),
            in_channels,
            out_channels,
            kernel_size,
            stride,
            padding,
            groups,
            with_bn,
            act,
        };
        table.layers.push(layer);
        assert(table@ =~= old(table)@ + seq![layer]);
        layer
    }

    pub(crate) fn depthwise(table: &mut LayerTable, channels: usize, stride: usize) -> (r: ConvBnAct)
        requires
            old(table).wf(),
            channels > 0,
        ensures
            r.is_depthwise(channels, stride),
            final(table).adds(*old(table), seq![r]),
    {
        assert(channels as int % channels as int == 0) by (nonlinear_arith)
            requires
                channels > 0,
        ;
        ConvBnAct::new(table, channels, channels, 3, stride, 1, channels, true, ActivationKind::Identity)
    }

    pub(crate) fn pointwise(
        table: &mut LayerTable,
        in_channels: usize,
        out_channels: usize,
        act: ActivationKind,
    ) -> (r: ConvBnAct)
        requires
            old(table).wf(),
        ensures
            r.is_pointwise(in_channels, out_channels, act),
            final(table).adds(*old(table), seq![r]),
    {
        ConvBnAct::new(table, in_channels, out_channels, 1, 1, 0, 1, true, act)
    }

    /// What the layer makes of `t`.
    pub open spec fn of(self, t: Term) -> Term {
        Term::Conv(self, Box::new(t))
    }

    pub fn forward(&self, graph: &mut Graph, input: usize) -> (r: usize)
        requires
            old(graph).wf(),
            input < old(graph).count(),
            shape(self.of(old(graph).term(input))) is Some,
        ensures
            final(graph).provides(*old(graph), r, self.of(old(graph).term(input))),
    {
        graph.conv(*self, input)
    }
}

/// A depthwise convolution followed by a pointwise one.
#[derive(Clone, Copy, Debug)]
pub struct DepthwiseSeparableConv {
    pub depthwise: ConvBnAct,
    pub pointwise: ConvBnAct,
}

impl DepthwiseSeparableConv {
    /// The block's layers in the order in which they are made.
    pub open spec fn layers(self) -> Seq<ConvBnAct> {
        seq![self.depthwise, self.pointwise]
    }

    #[allow(clippy::too_many_arguments)]
    pub fn new(
        table: &mut LayerTable,
        in_channels: usize,
        out_channels: usize,
        kernel_size: usize,
        stride: usize,
        padding: usize,
        depthwise_act: ActivationKind,
        pointwise_act: ActivationKind,
    ) -> (r: DepthwiseSeparableConv)
        requires
            old(table).wf(),
            in_channels > 0,
        ensures
            r.depthwise.has_form(
                in_channels,
                in_channels,
                kernel_size,
                stride,
                padding,
                in_channels,
                true,
                depthwise_act,
            ),
            r.pointwise.is_pointwise(in_channels, out_channels, pointwise_act),
            final(table).adds(*old(table), r.layers()),
    {
        assert(in_channels as int % in_channels as int == 0) by (nonlinear_arith)
            requires
                in_channels > 0,
        ;
        let depthwise = ConvBnAct::new(
            table,
            in_channels,
            in_channels,
            kernel_size,
            stride,
            padding,
            in_channels,
            true,
            depthwise_act,
        );
        let pointwise = ConvBnAct::pointwise(table, in_channels, out_channels, pointwise_act);
        let r = DepthwiseSeparableConv { depthwise, pointwise };
        assert(table@ =~= old(table)@ + r.layers());
        r
    }

    /// What the block makes of `t`.
    pub open spec fn of(self, t: Term) -> Term {
        self.pointwise.of(self.depthwise.of(t))
    }

    pub fn forward(&self, graph: &mut Graph, input: usize) -> (r: usize)
        requires
            old(graph).wf(),
            input < old(graph).count(),
            shape(self.of(old(graph).term(input))) is Some,
        ensures
            final(graph).provides(*old(graph), r, self.of(old(graph).term(input))),
    {
        let x = self.depthwise.forward(graph, input);
        self.pointwise.forward(graph, x)
    }
}

/// `t` resized to a plane by nearest neighbours, or `t` itself where it has that plane.
pub open spec fn nearest_to(t: Term, height: usize, width: usize) -> Term {
    if shape(t) is Some && shape(t)->0.is_over(height, width) {
        t
    } else {
        Term::Nearest(Box::new(t), height, width)
    }
}

pub fn interpolate_nearest(graph: &mut Graph, input: usize, height: usize, width: usize) -> (r:
    usize)
    requires
        old(graph).wf(),
        input < old(graph).count(),
    ensures
        final(graph).provides(*old(graph), r, nearest_to(old(graph).term(input), height, width)),
{
    let d = graph.dims(input);
    if d.height == height && d.width == width {
        input
    } else {
        graph.nearest(input, height, width)
    }
}

/// `t` resized to a plane bilinearly, or `t` itself where it has that plane.
pub open spec fn bilinear_to(t: Term, height: usize, width: usize) -> Term {
    if shape(t) is Some && shape(t)->0.is_over(height, width) {
        t
    } else {
        Term::Bilinear(Box::new(t), height, width)
    }
}

pub fn interpolate_bilinear_aligned(
    graph: &mut Graph,
    input: usize,
    height: usize,
    width: usize,
) -> (r: usize)
    requires
        old(graph).wf(),
        input < old(graph).count(),
    ensures
        final(graph).provides(*old(graph), r, bilinear_to(old(graph).term(input), height, width)),
{
    let d = graph.dims(input);
    if d.height == height && d.width == width {
        input
    } else {
        graph.bilinear(input, height, width)
    }
}

/// Size of the first of two chunks of `channels` channels.
pub open spec fn first_chunk(channels: usize) -> usize {
    (channels - channels / 2) as usize
}

/// The first half of the channels of `t`; of an odd count, the larger part.
pub open spec fn first_half(t: Term) -> Term {
    Term::Narrow(Box::new(t), 0, first_chunk(shape(t)->0.channels))
}

/// The second half of the channels of `t`.
pub open spec fn second_half(t: Term) -> Term {
    let channels = shape(t)->0.channels;
    Term::Narrow(Box::new(t), first_chunk(channels), channels / 2)
}

/// Splits the channels in two.
fn halves(graph: &mut Graph, input: usize) -> (r: (usize, usize))
    requires
        old(graph).wf(),
        input < old(graph).count(),
        shape(old(graph).term(input))->0.channels >= 2,
    ensures
        final(graph).wf(),
        final(graph).grows(*old(graph)),
        r.0 < final(graph).count(),
        r.1 < final(graph).count(),
        final(graph).term(r.0) == first_half(old(graph).term(input)),
        final(graph).term(r.1) == second_half(old(graph).term(input)),
{
    let channels: usize = graph.dims(input).channels;
    let first: usize = channels - channels / 2;
    let a = graph.narrow(input, 0, first);
    let b = graph.narrow(input, first, channels / 2);
    (a, b)
}

/// Channel attention from the mean of each channel.
#[derive(Clone, Copy, Debug)]
pub struct SpatialWeighting {
    pub conv1: ConvBnAct,
    pub conv2: ConvBnAct,
}

/// Channels of a bottleneck: `channels / ratio`, and at least one.
pub open spec fn bottleneck(channels: int, ratio: usize) -> usize {
    if channels / (ratio as int) < 1 {
        1
    } else {
        (channels / (ratio as int)) as usize
    }
}

impl SpatialWeighting {
    pub open spec fn layers(self) -> Seq<ConvBnAct> {
        seq![self.conv1, self.conv2]
    }

    /// The hyperparameters for `channels` channels squeezed by `ratio`.
    pub open spec fn planned(self, channels: usize, ratio: usize) -> bool {
        let mid = bottleneck(channels as int, ratio);
        &&& self.conv1.has_form(channels, mid, 1, 1, 0, 1, false, ActivationKind::Relu)
        &&& self.conv2.has_form(mid, channels, 1, 1, 0, 1, false, ActivationKind::Sigmoid)
    }

    pub fn new(table: &mut LayerTable, channels: usize, ratio: usize) -> (r: SpatialWeighting)
        requires
            old(table).wf(),
            ratio > 0,
        ensures
            r.planned(channels, ratio),
            final(table).adds(*old(table), r.layers()),
    {
        let squeezed: usize = channels / ratio;
        let mid: usize = if squeezed < 1 { 1 } else { squeezed };
        let conv1 = ConvBnAct::new(table, channels, mid, 1, 1, 0, 1, false, ActivationKind::Relu);
        let conv2 = ConvBnAct::new(table, mid, channels, 1, 1, 0, 1, false, ActivationKind::Sigmoid);
        let r = SpatialWeighting { conv1, conv2 };
        assert(table@ =~= old(table)@ + r.layers());
        r
    }

    /// The weights that the block gives to the channels of `t`.
    pub open spec fn weights_of(self, t: Term) -> Term {
        self.conv2.of(self.conv1.of(Term::AvgPool(Box::new(t), 1, 1)))
    }

    /// What the block makes of `t`.
    pub open spec fn of(self, t: Term) -> Term {
        Term::Times(Box::new(t), Box::new(self.weights_of(t)))
    }

    pub fn forward(&self, graph: &mut Graph, input: usize) -> (r: usize)
        requires
            old(graph).wf(),
            input < old(graph).count(),
            shape(self.of(old(graph).term(input))) is Some,
        ensures
            final(graph).provides(*old(graph), r, self.of(old(graph).term(input))),
    {
        proof {
            reveal_with_fuel(shape, 5);
        }
        let pooled = graph.avg_pool(input, 1, 1);
        let squeezed = self.conv1.forward(graph, pooled);
        let weights = self.conv2.forward(graph, squeezed);
        graph.times(input, weights)
    }
}

/// Sum of a list of counts.
pub open spec fn total(counts: Seq<usize>) -> int
    decreases counts.len(),
{
    if counts.len() == 0 {
        0
    } else {
        total(counts.drop_last()) + counts.last()
    }
}

/// A sum of counts is not negative.
pub proof fn lemma_total_nonnegative(counts: Seq<usize>)
    ensures
        0 <= total(counts),
    decreases counts.len(),
{
    if counts.len() > 0 {
        lemma_total_nonnegative(counts.drop_last());
    }
}

/// Sums of prefixes only grow.
pub proof fn lemma_total_prefix(counts: Seq<usize>, n: int)
    requires
        0 <= n <= counts.len(),
    ensures
        0 <= total(counts.take(n)) <= total(counts),
    decreases counts.len() - n,
{
    lemma_total_nonnegative(counts.take(n));
    if n == counts.len() {
        assert(counts.take(n) =~= counts);
    } else {
        lemma_total_prefix(counts, n + 1);
        assert(counts.take(n + 1).drop_last() =~= counts.take(n));
    }
}

/// The concatenation of a list of terms along the channels.
pub open spec fn concat_all(terms: Seq<Term>) -> Term
    decreases terms.len(),
{
    if terms.len() == 0 {
        Term::Undefined
    } else if terms.len() == 1 {
        terms[0]
    } else {
        Term::Concat(Box::new(concat_all(terms.drop_last())), Box::new(terms.last()))
    }
}

/// Attention over the channels of all resolutions together.
#[derive(Debug)]
pub struct CrossResolutionWeighting {
    pub conv1: ConvBnAct,
    pub conv2: ConvBnAct,
    pub channels: Vec<usize>,
}

impl CrossResolutionWeighting {
    pub open spec fn layers(self) -> Seq<ConvBnAct> {
        seq![self.conv1, self.conv2]
    }

    /// The hyperparameters for branches of `channels` channels squeezed by `ratio`.
    pub open spec fn planned(self, channels: Seq<usize>, ratio: usize) -> bool {
        let sum = total(channels) as usize;
        let mid = bottleneck(total(channels), ratio);
        &&& self.channels@ == channels
        &&& self.conv1.is_pointwise(sum, mid, ActivationKind::Relu)
        &&& self.conv2.is_pointwise(mid, sum, ActivationKind::Sigmoid)
    }

    pub fn new(table: &mut LayerTable, channels: Vec<usize>, ratio: usize) -> (r:
        CrossResolutionWeighting)
        requires
            old(table).wf(),
            ratio > 0,
            total(channels@) <= usize::MAX,
        ensures
            r.planned(channels@, ratio),
            final(table).adds(*old(table), r.layers()),
    {
        let mut sum: usize = 0;
        let n: usize = channels.len();
        assert(channels@.take(0) =~= Seq::<usize>::empty());
        for i in 0..n
            invariant
                n == channels@.len(),
                sum == total(channels@.take(i as int)),
                total(channels@) <= usize::MAX,
        {
            proof {
                lemma_total_prefix(channels@, i + 1);
                assert(channels@.take(i + 1).drop_last() =~= channels@.take(i as int));
            }
            sum = sum + channels[i];
        }
        assert(channels@.take(n as int) =~= channels@);
        let squeezed: usize = sum / ratio;
        let mid: usize = if squeezed < 1 { 1 } else { squeezed };
        let conv1 = ConvBnAct::pointwise(table, sum, mid, ActivationKind::Relu);
        let conv2 = ConvBnAct::pointwise(table, mid, sum, ActivationKind::Sigmoid);
        let r = CrossResolutionWeighting { conv1, conv2, channels };
        assert(table@ =~= old(table)@ + r.layers());
        r
    }

    /// Branch `i` of `ts` brought to the plane of the last branch.
    pub open spec fn pooled(ts: Seq<Term>, i: int) -> Term {
        let d = shape(ts.last())->0;
        if i + 1 == ts.len() {
            ts[i]
        } else {
            Term::AvgPool(Box::new(ts[i]), d.height, d.width)
        }
    }

    /// The branches on one plane.
    pub open spec fn all_pooled(ts: Seq<Term>) -> Seq<Term> {
        Seq::new(ts.len(), |i: int| Self::pooled(ts, i))
    }

    /// The weights of all channels of all branches.
    pub open spec fn weights_of(self, ts: Seq<Term>) -> Term {
        self.conv2.of(self.conv1.of(concat_all(Self::all_pooled(ts))))
    }

    /// The weights of branch `i`.
    pub open spec fn split(self, ts: Seq<Term>, i: int) -> Term {
        Term::Narrow(
            Box::new(self.weights_of(ts)),
            total(self.channels@.take(i)) as usize,
            self.channels@[i],
        )
    }

    /// Branch `i` under its weights.
    pub open spec fn weighted(self, ts: Seq<Term>, i: int) -> Term {
        let d = shape(ts[i])->0;
        Term::Times(Box::new(ts[i]), Box::new(nearest_to(self.split(ts, i), d.height, d.width)))
    }

    /// Number of branches that come out.
    pub open spec fn outputs(self, ts: Seq<Term>) -> nat {
        if self.channels@.len() < ts.len() {
            self.channels@.len()
        } else {
            ts.len()
        }
    }

    /// What the block makes of the branches `ts`.
    pub open spec fn of(self, ts: Seq<Term>) -> Seq<Term> {
        Seq::new(self.outputs(ts), |i: int| self.weighted(ts, i))
    }

    /// Whether the block's operations fit the branches `ts`.
    pub open spec fn runs_on(self, ts: Seq<Term>) -> bool {
        &&& ts.len() > 0
        &&& shape(self.weights_of(ts)) is Some
        &&& forall|i: int|
            0 <= i < self.channels@.len() ==> shape(#[trigger] self.split(ts, i)) is Some
        &&& all_shaped(self.of(ts))
    }

    pub fn forward(&self, graph: &mut Graph, input: &Vec<usize>) -> (r: Vec<usize>)
        requires
            old(graph).wf(),
            old(graph).has_all(input@),
            self.runs_on(old(graph).terms_at(input@)),
        ensures
            final(graph).provides_all(*old(graph), r@, self.of(old(graph).terms_at(input@))),
    {
        let ghost g0 = *graph;
        let ghost ts = graph.terms_at(input@);
        let n: usize = input.len();
        let last = graph.dims(input[n - 1]);
        let ghost all = Self::all_pooled(ts);
        assert(ts.last() == graph.term(input@[n - 1]));
        assert(shape(concat_all(all)) is Some) by {
            reveal_with_fuel(shape, 3);
        }
        let mut joined: usize = self.pool_branch(graph, input, 0, last);
        assert(all.take(1) =~= seq![all[0]]);
        for i in 1..n
            invariant
                n == input@.len(),
                1 <= i <= n,
                graph.wf(),
                graph.grows(g0),
                g0.has_all(input@),
                ts == g0.terms_at(input@),
                shape(ts.last()) == Some(last),
                all == Self::all_pooled(ts),
                shape(concat_all(all)) is Some,
                joined < graph.count(),
                graph.term(joined) == concat_all(all.take(i as int)),
        {
            let ghost before = *graph;
            let branch = self.pool_branch(graph, input, i, last);
            proof {
                assert(all.take(i + 1).drop_last() =~= all.take(i as int));
                lemma_concat_prefix_shaped(all, i + 1);
            }
            joined = graph.concat(joined, branch);
        }
        assert(all.take(n as int) =~= all);
        let squeezed = self.conv1.forward(graph, joined);
        let weights = self.conv2.forward(graph, squeezed);

        let m: usize = self.channels.len();
        let mut splits: Vec<usize> = Vec::new();
        let mut start: usize = 0;
        assert(self.channels@.take(0) =~= Seq::<usize>::empty());
        for i in 0..m
            invariant
                m == self.channels@.len(),
                graph.wf(),
                graph.grows(g0),
                weights < graph.count(),
                graph.term(weights) == self.weights_of(ts),
                self.runs_on(ts),
                start == total(self.channels@.take(i as int)),
                splits@.len() == i,
                forall|j: int|
                    0 <= j < i ==> (#[trigger] splits@[j]) < graph.count() && graph.term(splits@[j])
                        == self.split(ts, j),
        {
            let ghost before = *graph;
            proof {
                assert(shape(self.split(ts, i as int)) is Some);
                assert(self.channels@.take(i + 1).drop_last() =~= self.channels@.take(i as int));
            }
            let piece = graph.narrow(weights, start, self.channels[i]);
            splits.push(piece);
            start = start + self.channels[i];
        }

        let count: usize = if m < n { m } else { n };
        let mut out: Vec<usize> = Vec::new();
        for i in 0..count
            invariant
                n == input@.len(),
                m == self.channels@.len(),
                count <= n,
                count <= m,
                count == self.outputs(ts),
                graph.wf(),
                graph.grows(g0),
                g0.has_all(input@),
                ts == g0.terms_at(input@),
                self.runs_on(ts),
                splits@.len() == m,
                forall|j: int|
                    0 <= j < m ==> (#[trigger] splits@[j]) < graph.count() && graph.term(splits@[j])
                        == self.split(ts, j),
                out@.len() == i,
                forall|j: int|
                    0 <= j < i ==> (#[trigger] out@[j]) < graph.count() && graph.term(out@[j])
                        == self.weighted(ts, j),
        {
            let ghost before = *graph;
            let branch = input[i];
            assert(ts[i as int] == g0.term(branch));
            let d = graph.dims(branch);
            let resized = interpolate_nearest(graph, splits[i], d.height, d.width);
            assert(shape(self.of(ts)[i as int]) is Some);
            let product = graph.times(branch, resized);
            out.push(product);
        }
        assert(graph.terms_at(out@) =~= self.of(ts));
        out
    }

    /// Brings one branch to the plane of the last one.
    fn pool_branch(&self, graph: &mut Graph, input: &Vec<usize>, i: usize, last: Dims) -> (r: usize)
        requires
            old(graph).wf(),
            old(graph).has_all(input@),
            i < input@.len(),
            shape(old(graph).terms_at(input@).last()) == Some(last),
        ensures
            final(graph).provides(*old(graph), r, Self::pooled(old(graph).terms_at(input@), i as int)),
    {
        proof {
            graph.lemma_shaped(input@[i as int]);
        }
        if i == input.len() - 1 {
            input[i]
        } else {
            graph.avg_pool(input[i], last.height, last.width)
        }
    }
}

/// A prefix of a concatenation that fits together fits together.
proof fn lemma_concat_prefix_shaped(terms: Seq<Term>, n: int)
    requires
        1 <= n <= terms.len(),
        shape(concat_all(terms)) is Some,
    ensures
        shape(concat_all(terms.take(n))) is Some,
    decreases terms.len(),
{
    if n == terms.len() {
        assert(terms.take(n) =~= terms);
    } else {
        lemma_concat_prefix_shaped(terms.drop_last(), n);
        assert(terms.drop_last().take(n) =~= terms.take(n));
    }
}

/// The layers of a list of blocks.
pub open spec fn spatial_layers(blocks: Seq<SpatialWeighting>) -> Seq<ConvBnAct>
    decreases blocks.len(),
{
    if blocks.len() == 0 {
        Seq::empty()
    } else {
        spatial_layers(blocks.drop_last()) + blocks.last().layers()
    }
}

/// Half of each count.
pub open spec fn halved(counts: Seq<usize>) -> Seq<usize> {
    counts.map_values(|c: usize| c / 2)
}

/// A sum of halves is at most half the sum.
pub proof fn lemma_total_halved(counts: Seq<usize>)
    ensures
        2 * total(halved(counts)) <= total(counts),
    decreases counts.len(),
{
    if counts.len() > 0 {
        lemma_total_halved(counts.drop_last());
        assert(halved(counts).drop_last() =~= halved(counts.drop_last()));
    }
}

/// The smaller of two counts.
pub open spec fn least(a: nat, b: nat) -> nat {
    if b < a {
        b
    } else {
        a
    }
}

/// A block that weights half of the channels of every branch and shuffles them with the rest.
#[derive(Debug)]
pub struct ConditionalChannelWeighting {
    pub cross_resolution_weighting: CrossResolutionWeighting,
    pub depthwise_convs: Vec<ConvBnAct>,
    pub spatial_weighting: Vec<SpatialWeighting>,
}

impl ConditionalChannelWeighting {
    pub open spec fn layers(self) -> Seq<ConvBnAct> {
        self.depthwise_convs@ + spatial_layers(self.spatial_weighting@)
            + self.cross_resolution_weighting.layers()
    }

    /// The hyperparameters for branches of `in_channels` channels.
    pub open spec fn planned(self, in_channels: Seq<usize>, stride: usize, reduce_ratio: usize) -> bool {
        &&& self.cross_resolution_weighting.planned(halved(in_channels), reduce_ratio)
        &&& self.depthwise_convs@.len() == in_channels.len()
        &&& self.spatial_weighting@.len() == in_channels.len()
        &&& forall|i: int|
            0 <= i < in_channels.len() ==> (#[trigger] self.depthwise_convs@[i]).is_depthwise(
                in_channels[i] / 2,
                stride,
            )
        &&& forall|i: int|
            0 <= i < in_channels.len() ==> (#[trigger] self.spatial_weighting@[i]).planned(
                in_channels[i] / 2,
                4,
            )
    }

    /// Whether branches of `in_channels` channels can be halved.
    pub open spec fn splits(in_channels: Seq<usize>) -> bool {
        forall|i: int|
            0 <= i < in_channels.len() ==> 2 <= #[trigger] in_channels[i] && in_channels[i] % 2 == 0
    }

    pub fn new(
        table: &mut LayerTable,
        in_channels: &Vec<usize>,
        stride: usize,
        reduce_ratio: usize,
    ) -> (r: ConditionalChannelWeighting)
        requires
            old(table).wf(),
            stride == 1 || stride == 2,
            Self::splits(in_channels@),
            reduce_ratio > 0,
            total(in_channels@) <= usize::MAX,
        ensures
            r.planned(in_channels@, stride, reduce_ratio),
            final(table).adds(*old(table), r.layers()),
    {
        let n: usize = in_channels.len();
        let ghost t0 = table@;
        let mut branch_channels: Vec<usize> = Vec::new();
        let mut depthwise_convs: Vec<ConvBnAct> = Vec::new();
        for i in 0..n
            invariant
                n == in_channels@.len(),
                Self::splits(in_channels@),
                table.wf(),
                branch_channels@ =~= halved(in_channels@).take(i as int),
                depthwise_convs@.len() == i,
                forall|j: int|
                    0 <= j < i ==> (#[trigger] depthwise_convs@[j]).is_depthwise(
                        in_channels@[j] / 2,
                        stride,
                    ),
                table@ =~= t0 + depthwise_convs@,
        {
            let half: usize = in_channels[i] / 2;
            branch_channels.push(half);
            let conv = ConvBnAct::depthwise(table, half, stride);
            depthwise_convs.push(conv);
        }
        let mut spatial_weighting: Vec<SpatialWeighting> = Vec::new();
        for i in 0..n
            invariant
                n == in_channels@.len(),
                Self::splits(in_channels@),
                table.wf(),
                branch_channels@ =~= halved(in_channels@),
                spatial_weighting@.len() == i,
                forall|j: int|
                    0 <= j < i ==> (#[trigger] spatial_weighting@[j]).planned(in_channels@[j] / 2, 4),
                table@ =~= t0 + depthwise_convs@ + spatial_layers(spatial_weighting@),
        {
            let ghost before = spatial_weighting@;
            let block = SpatialWeighting::new(table, branch_channels[i], 4);
            spatial_weighting.push(block);
            assert(spatial_weighting@.drop_last() =~= before);
        }
        proof {
            lemma_total_halved(in_channels@);
            lemma_total_nonnegative(halved(in_channels@));
        }
        let cross_resolution_weighting = CrossResolutionWeighting::new(
            table,
            branch_channels,
            reduce_ratio,
        );
        let r = ConditionalChannelWeighting {
            cross_resolution_weighting,
            depthwise_convs,
            spatial_weighting,
        };
        assert(table@ =~= t0 + r.layers());
        r
    }

    /// The halves that are weighted.
    pub open spec fn worked(ts: Seq<Term>) -> Seq<Term> {
        ts.map_values(|t: Term| second_half(t))
    }

    /// Branch `i` after the weighting across resolutions and its depthwise convolution.
    pub open spec fn convolved(self, ts: Seq<Term>, i: int) -> Term {
        self.depthwise_convs@[i].of(self.cross_resolution_weighting.weighted(Self::worked(ts), i))
    }

    /// Number of branches that are convolved.
    pub open spec fn convolutions(self, ts: Seq<Term>) -> nat {
        least(self.cross_resolution_weighting.outputs(Self::worked(ts)), self.depthwise_convs@.len())
    }

    /// Number of branches that come out.
    pub open spec fn outputs(self, ts: Seq<Term>) -> nat {
        least(self.convolutions(ts), self.spatial_weighting@.len())
    }

    /// Branch `i` as it comes out.
    pub open spec fn branch(self, ts: Seq<Term>, i: int) -> Term {
        Term::Shuffle(
            Box::new(
                Term::Concat(
                    Box::new(first_half(ts[i])),
                    Box::new(self.spatial_weighting@[i].of(self.convolved(ts, i))),
                ),
            ),
            2,
        )
    }

    /// What the block makes of the branches `ts`.
    pub open spec fn of(self, ts: Seq<Term>) -> Seq<Term> {
        Seq::new(self.outputs(ts), |i: int| self.branch(ts, i))
    }

    /// Whether the block's operations fit the branches `ts`.
    pub open spec fn runs_on(self, ts: Seq<Term>) -> bool {
        &&& forall|i: int|
            0 <= i < ts.len() ==> shape(#[trigger] ts[i]) is Some && shape(ts[i])->0.channels >= 2
        &&& self.cross_resolution_weighting.runs_on(Self::worked(ts))
        &&& forall|i: int|
            0 <= i < self.convolutions(ts) ==> shape(#[trigger] self.convolved(ts, i)) is Some
        &&& all_shaped(self.of(ts))
    }

    pub fn forward(&self, graph: &mut Graph, input: &Vec<usize>) -> (r: Vec<usize>)
        requires
            old(graph).wf(),
            old(graph).has_all(input@),
            self.runs_on(old(graph).terms_at(input@)),
        ensures
            final(graph).provides_all(*old(graph), r@, self.of(old(graph).terms_at(input@))),
    {
        let ghost g0 = *graph;
        let ghost ts = graph.terms_at(input@);
        let n: usize = input.len();
        let mut x1: Vec<usize> = Vec::new();
        let mut x2: Vec<usize> = Vec::new();
        for i in 0..n
            invariant
                n == input@.len(),
                graph.wf(),
                graph.grows(g0),
                g0.has_all(input@),
                ts == g0.terms_at(input@),
                self.runs_on(ts),
                x1@.len() == i,
                x2@.len() == i,
                forall|j: int|
                    0 <= j < i ==> (#[trigger] x1@[j]) < graph.count() && graph.term(x1@[j])
                        == first_half(ts[j]),
                forall|j: int|
                    0 <= j < i ==> (#[trigger] x2@[j]) < graph.count() && graph.term(x2@[j])
                        == second_half(ts[j]),
        {
            let branch = input[i];
            assert(ts[i as int] == g0.term(branch));
            assert(graph.term(branch) == ts[i as int]);
            let (a, b) = halves(graph, branch);
            x1.push(a);
            x2.push(b);
        }
        assert(graph.terms_at(x2@) =~= Self::worked(ts));
        let ghost g1 = *graph;
        let weighted = self.cross_resolution_weighting.forward(graph, &x2);
        assert forall|j: int| 0 <= j < weighted@.len() implies #[trigger] graph.term(weighted@[j])
            == self.cross_resolution_weighting.weighted(Self::worked(ts), j) by {
            assert(graph.terms_at(weighted@)[j]
                == self.cross_resolution_weighting.of(Self::worked(ts))[j]);
        }
        assert(graph.terms_at(weighted@).len() == weighted@.len());

        let mut convolved: Vec<usize> = Vec::new();
        let m: usize = if self.depthwise_convs.len() < weighted.len() {
            self.depthwise_convs.len()
        } else {
            weighted.len()
        };
        let ghost g2 = *graph;
        for i in 0..m
            invariant
                m == self.convolutions(ts),
                m <= weighted@.len(),
                m <= self.depthwise_convs@.len(),
                self.runs_on(ts),
                graph.wf(),
                graph.grows(g2),
                g2.has_all(weighted@),
                forall|j: int|
                    0 <= j < weighted@.len() ==> #[trigger] g2.term(weighted@[j])
                        == self.cross_resolution_weighting.weighted(Self::worked(ts), j),
                convolved@.len() == i,
                forall|j: int|
                    0 <= j < i ==> (#[trigger] convolved@[j]) < graph.count() && graph.term(convolved@[j])
                        == self.convolved(ts, j),
        {
            assert(shape(self.convolved(ts, i as int)) is Some);
            assert(graph.term(weighted@[i as int]) == g2.term(weighted@[i as int]));
            let c = self.depthwise_convs[i].forward(graph, weighted[i]);
            convolved.push(c);
        }

        let count: usize = if self.spatial_weighting.len() < m {
            self.spatial_weighting.len()
        } else {
            m
        };
        let mut out: Vec<usize> = Vec::new();
        for i in 0..count
            invariant
                m == self.convolutions(ts),
                count == self.outputs(ts),
                count <= m <= n,
                count <= self.spatial_weighting@.len(),
                n == ts.len(),
                self.runs_on(ts),
                graph.wf(),
                graph.grows(g2),
                x1@.len() == n,
                forall|j: int|
                    0 <= j < n ==> (#[trigger] x1@[j]) < graph.count() && graph.term(x1@[j])
                        == first_half(ts[j]),
                convolved@.len() == m,
                forall|j: int|
                    0 <= j < m ==> (#[trigger] convolved@[j]) < graph.count() && graph.term(convolved@[j])
                        == self.convolved(ts, j),
                out@.len() == i,
                forall|j: int|
                    0 <= j < i ==> (#[trigger] out@[j]) < graph.count() && graph.term(out@[j])
                        == self.branch(ts, j),
        {
            proof {
                assert(shape(self.of(ts)[i as int]) is Some);
                reveal_with_fuel(shape, 3);
            }
            let w = self.spatial_weighting[i].forward(graph, convolved[i]);
            let both = graph.concat(x1[i], w);
            let mixed = graph.shuffle(both, 2);
            out.push(mixed);
        }
        assert(graph.terms_at(out@) =~= self.of(ts));
        out
    }
}

/// The entry of the network: quarter resolution in two steps.
#[derive(Clone, Copy, Debug)]
pub struct Stem {
    pub conv1: ConvBnAct,
    pub branch1_depthwise: ConvBnAct,
    pub branch1_pointwise: ConvBnAct,
    pub expand_conv: ConvBnAct,
    pub depthwise_conv: ConvBnAct,
    pub linear_conv: ConvBnAct,
    pub out_channels: usize,
}

impl Stem {
    pub open spec fn layers(self) -> Seq<ConvBnAct> {
        seq![
            self.conv1,
            self.branch1_depthwise,
            self.branch1_pointwise,
            self.expand_conv,
            self.depthwise_conv,
            self.linear_conv,
        ]
    }

    /// Channels that the first branch puts out.
    pub open spec fn first_out(stem_channels: usize, out_channels: usize) -> usize {
        if stem_channels == out_channels {
            (out_channels - stem_channels / 2) as usize
        } else {
            (out_channels - stem_channels) as usize
        }
    }

    /// Channels that the second branch puts out.
    pub open spec fn second_out(stem_channels: usize, out_channels: usize) -> usize {
        if stem_channels == out_channels {
            stem_channels / 2
        } else {
            stem_channels
        }
    }

    /// The stem's hyperparameters.
    pub open spec fn planned(
        self,
        in_channels: usize,
        stem_channels: usize,
        mid_channels: usize,
        out_channels: usize,
    ) -> bool {
        let half = stem_channels / 2;
        &&& self.conv1.has_form(in_channels, stem_channels, 3, 2, 1, 1, true, ActivationKind::Relu)
        &&& self.branch1_depthwise.is_depthwise(half, 2)
        &&& self.branch1_pointwise.is_pointwise(
            half,
            Self::first_out(stem_channels, out_channels),
            ActivationKind::Relu,
        )
        &&& self.expand_conv.is_pointwise(half, mid_channels, ActivationKind::Relu)
        &&& self.depthwise_conv.is_depthwise(mid_channels, 2)
        &&& self.linear_conv.is_pointwise(
            mid_channels,
            Self::second_out(stem_channels, out_channels),
            ActivationKind::Relu,
        )
        &&& self.out_channels == out_channels
    }

    /// Plans a stem. `mid_channels` is the width of the expanded branch.
    pub fn new(
        table: &mut LayerTable,
        in_channels: usize,
        stem_channels: usize,
        out_channels: usize,
        mid_channels: usize,
    ) -> (r: Stem)
        requires
            old(table).wf(),
            stem_channels >= 2,
            stem_channels <= out_channels,
            mid_channels > 0,
        ensures
            r.planned(in_channels, stem_channels, mid_channels, out_channels),
            final(table).adds(*old(table), r.layers()),
    {
        let branch_channels: usize = stem_channels / 2;
        let inc_channels: usize = if stem_channels == out_channels {
            out_channels - branch_channels
        } else {
            out_channels - stem_channels
        };
        let linear_out_channels: usize = if stem_channels == out_channels {
            branch_channels
        } else {
            stem_channels
        };
        let conv1 = ConvBnAct::new(
            table,
            in_channels,
            stem_channels,
            3,
            2,
            1,
            1,
            true,
            ActivationKind::Relu,
        );
        let branch1_depthwise = ConvBnAct::depthwise(table, branch_channels, 2);
        let branch1_pointwise = ConvBnAct::pointwise(
            table,
            branch_channels,
            inc_channels,
            ActivationKind::Relu,
        );
        let expand_conv = ConvBnAct::pointwise(
            table,
            branch_channels,
            mid_channels,
            ActivationKind::Relu,
        );
        let depthwise_conv = ConvBnAct::depthwise(table, mid_channels, 2);
        let linear_conv = ConvBnAct::pointwise(
            table,
            mid_channels,
            linear_out_channels,
            ActivationKind::Relu,
        );
        let r = Stem {
            conv1,
            branch1_depthwise,
            branch1_pointwise,
            expand_conv,
            depthwise_conv,
            linear_conv,
            out_channels,
        };
        assert(table@ =~= old(table)@ + r.layers());
        r
    }

    /// What the first half of the channels becomes.
    pub open spec fn first_branch(self, t: Term) -> Term {
        self.branch1_pointwise.of(self.branch1_depthwise.of(first_half(self.conv1.of(t))))
    }

    /// What the second half of the channels becomes.
    pub open spec fn second_branch(self, t: Term) -> Term {
        self.linear_conv.of(
            self.depthwise_conv.of(self.expand_conv.of(second_half(self.conv1.of(t)))),
        )
    }

    /// What the stem makes of `t`.
    pub open spec fn of(self, t: Term) -> Term {
        Term::Shuffle(
            Box::new(
                Term::Concat(Box::new(self.first_branch(t)), Box::new(self.second_branch(t))),
            ),
            2,
        )
    }

    pub fn forward(&self, graph: &mut Graph, input: usize) -> (r: usize)
        requires
            old(graph).wf(),
            input < old(graph).count(),
            shape(self.of(old(graph).term(input))) is Some,
        ensures
            final(graph).provides(*old(graph), r, self.of(old(graph).term(input))),
    {
        proof {
            reveal_with_fuel(shape, 8);
        }
        let x = self.conv1.forward(graph, input);
        let (x1, x2) = halves(graph, x);
        let x1 = self.branch1_depthwise.forward(graph, x1);
        let x1 = self.branch1_pointwise.forward(graph, x1);
        let x2 = self.expand_conv.forward(graph, x2);
        let x2 = self.depthwise_conv.forward(graph, x2);
        let x2 = self.linear_conv.forward(graph, x2);
        let both = graph.concat(x1, x2);
        graph.shuffle(both, 2)
    }
}

/// A shuffle unit: with stride one it works on half of the channels, with a larger stride it
/// works on all of them twice.
#[derive(Clone, Copy, Debug)]
pub struct ShuffleUnit {
    pub branch1_depthwise: Option<ConvBnAct>,
    pub branch1_pointwise: Option<ConvBnAct>,
    pub branch2_expand: ConvBnAct,
    pub branch2_depthwise: ConvBnAct,
    pub branch2_linear: ConvBnAct,
    pub stride: usize,
}

impl ShuffleUnit {
    pub open spec fn layers(self) -> Seq<ConvBnAct> {
        let second = seq![self.branch2_expand, self.branch2_depthwise, self.branch2_linear];
        match (self.branch1_depthwise, self.branch1_pointwise) {
            (Some(depthwise), Some(pointwise)) => seq![depthwise, pointwise] + second,
            _ => second,
        }
    }

    /// The unit's hyperparameters.
    pub open spec fn planned(self, in_channels: usize, out_channels: usize, stride: usize) -> bool {
        let half = out_channels / 2;
        &&& (stride > 1 ==> self.branch1_depthwise is Some && self.branch1_pointwise is Some)
        &&& (stride > 1 ==> self.branch1_depthwise->0.is_depthwise(in_channels, stride))
        &&& (stride > 1 ==> self.branch1_pointwise->0.is_pointwise(
            in_channels,
            half,
            ActivationKind::Relu,
        ))
        &&& (stride <= 1 ==> self.branch1_depthwise is None && self.branch1_pointwise is None)
        &&& self.branch2_expand.is_pointwise(
            if stride > 1 {
                in_channels
            } else {
                half
            },
            half,
            ActivationKind::Relu,
        )
        &&& self.branch2_depthwise.is_depthwise(half, stride)
        &&& self.branch2_linear.is_pointwise(half, half, ActivationKind::Relu)
        &&& self.stride == stride
    }

    pub fn new(table: &mut LayerTable, in_channels: usize, out_channels: usize, stride: usize) -> (r:
        ShuffleUnit)
        requires
            old(table).wf(),
            out_channels >= 2,
            stride == 1 ==> in_channels == (out_channels / 2) * 2,
            stride > 1 ==> in_channels > 0,
        ensures
            r.planned(in_channels, out_channels, stride),
            final(table).adds(*old(table), r.layers()),
    {
        let branch_features: usize = out_channels / 2;
        let mut branch1_depthwise: Option<ConvBnAct> = None;
        let mut branch1_pointwise: Option<ConvBnAct> = None;
        if stride > 1 {
            branch1_depthwise = Some(ConvBnAct::depthwise(table, in_channels, stride));
            branch1_pointwise = Some(
                ConvBnAct::pointwise(table, in_channels, branch_features, ActivationKind::Relu),
            );
        }
        let branch2_in: usize = if stride > 1 { in_channels } else { branch_features };
        let branch2_expand = ConvBnAct::pointwise(
            table,
            branch2_in,
            branch_features,
            ActivationKind::Relu,
        );
        let branch2_depthwise = ConvBnAct::depthwise(table, branch_features, stride);
        let branch2_linear = ConvBnAct::pointwise(
            table,
            branch_features,
            branch_features,
            ActivationKind::Relu,
        );
        let r = ShuffleUnit {
            branch1_depthwise,
            branch1_pointwise,
            branch2_expand,
            branch2_depthwise,
            branch2_linear,
            stride,
        };
        assert(table@ =~= old(table)@ + r.layers());
        r
    }

    /// What the second branch makes of `t`.
    pub open spec fn second_branch(self, t: Term) -> Term {
        self.branch2_linear.of(self.branch2_depthwise.of(self.branch2_expand.of(t)))
    }

    /// What the unit makes of `t`.
    pub open spec fn of(self, t: Term) -> Term {
        let joined = if self.stride > 1 {
            Term::Concat(
                Box::new(self.branch1_pointwise->0.of(self.branch1_depthwise->0.of(t))),
                Box::new(self.second_branch(t)),
            )
        } else {
            Term::Concat(Box::new(first_half(t)), Box::new(self.second_branch(second_half(t))))
        };
        Term::Shuffle(Box::new(joined), 2)
    }

    /// Whether the unit's operations fit `t`.
    pub open spec fn runs_on(self, t: Term) -> bool {
        &&& self.stride > 1 ==> self.branch1_depthwise is Some && self.branch1_pointwise is Some
        &&& shape(self.of(t)) is Some
    }

    pub fn forward(&self, graph: &mut Graph, input: usize) -> (r: usize)
        requires
            old(graph).wf(),
            input < old(graph).count(),
            self.runs_on(old(graph).term(input)),
        ensures
            final(graph).provides(*old(graph), r, self.of(old(graph).term(input))),
    {
        proof {
            reveal_with_fuel(shape, 6);
        }
        if self.stride > 1 {
            let depthwise = self.branch1_depthwise.unwrap();
            let pointwise = self.branch1_pointwise.unwrap();
            let x1 = depthwise.forward(graph, input);
            let x1 = pointwise.forward(graph, x1);
            let x2 = self.branch2_expand.forward(graph, input);
            let x2 = self.branch2_depthwise.forward(graph, x2);
            let x2 = self.branch2_linear.forward(graph, x2);
            let both = graph.concat(x1, x2);
            graph.shuffle(both, 2)
        } else {
            let (x1, x2) = halves(graph, input);
            let x2 = self.branch2_expand.forward(graph, x2);
            let x2 = self.branch2_depthwise.forward(graph, x2);
            let x2 = self.branch2_linear.forward(graph, x2);
            let both = graph.concat(x1, x2);
            graph.shuffle(both, 2)
        }
    }
}

} // verus!
