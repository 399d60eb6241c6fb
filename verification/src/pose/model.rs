//! The Lite-HRNet backbone and the pose network on top of it.

use vstd::prelude::*;

use crate::pose::graph::{all_shaped, shape, Graph, Term};
use crate::pose::layers::{
    interpolate_nearest, least, nearest_to, total,
    ActivationKind, ConditionalChannelWeighting, ConvBnAct, LayerTable,
    ShuffleUnit,
};

verus! {

/// What a list of layers makes of `t`, one after the other.
pub open spec fn chain(ops: Seq<ConvBnAct>, t: Term) -> Term
    decreases ops.len(),
{
    if ops.len() == 0 {
        t
    } else {
        ops.last().of(chain(ops.drop_last(), t))
    }
}

/// Where a chain of layers fits together, so does each prefix of it.
proof fn lemma_chain_prefix_shaped(ops: Seq<ConvBnAct>, t: Term, n: int)
    requires
        0 <= n <= ops.len(),
        shape(chain(ops, t)) is Some,
    ensures
        shape(chain(ops.take(n), t)) is Some,
    decreases ops.len(),
{
    if n == ops.len() {
        assert(ops.take(n) =~= ops);
    } else {
        lemma_chain_prefix_shaped(ops.drop_last(), t, n);
        assert(ops.drop_last().take(n) =~= ops.take(n));
    }
}

/// Runs a list of layers one after the other.
fn forward_chain(ops: &Vec<ConvBnAct>, graph: &mut Graph, input: usize) -> (r: usize)
    requires
        old(graph).wf(),
        input < old(graph).count(),
        shape(chain(ops@, old(graph).term(input))) is Some,
    ensures
        final(graph).provides(*old(graph), r, chain(ops@, old(graph).term(input))),
{
    let ghost g0 = *graph;
    let ghost t = graph.term(input);
    let n: usize = ops.len();
    let mut x: usize = input;
    assert(ops@.take(0) =~= Seq::<ConvBnAct>::empty());
    for i in 0..n
        invariant
            n == ops@.len(),
            shape(chain(ops@, t)) is Some,
            graph.wf(),
            graph.grows(g0),
            x < graph.count(),
            graph.term(x) == chain(ops@.take(i as int), t),
    {
        proof {
            lemma_chain_prefix_shaped(ops@, t, i + 1);
            assert(ops@.take(i + 1).drop_last() =~= ops@.take(i as int));
        }
        x = ops[i].forward(graph, x);
    }
    assert(ops@.take(n as int) =~= ops@);
    x
}

/// The layers that lead from one branch of a stage to one of the next.
#[derive(Debug)]
pub struct TransitionBranch {
    pub ops: Vec<ConvBnAct>,
}

impl TransitionBranch {
    pub fn identity() -> (r: TransitionBranch)
        ensures
            r.ops@.len() == 0,
    {
        TransitionBranch { ops: Vec::new() }
    }

    /// A branch that keeps its resolution: nothing where the channels agree.
    pub open spec fn keeps(self, previous: usize, current: usize) -> bool {
        if current == previous {
            self.ops@.len() == 0
        } else {
            &&& self.ops@.len() == 2
            &&& self.ops@[0].is_depthwise(previous, 1)
            &&& self.ops@[1].is_pointwise(previous, current, ActivationKind::Relu)
        }
    }

    /// A branch that halves its resolution `steps` times and ends with `current` channels.
    pub open spec fn descends(self, source: usize, current: usize, steps: int) -> bool {
        &&& self.ops@.len() == 2 * steps
        &&& forall|d: int|
            0 <= d < steps ==> (#[trigger] self.ops@[2 * d]).is_depthwise(source, 2)
        &&& forall|d: int|
            0 <= d < steps ==> (#[trigger] self.ops@[2 * d + 1]).is_pointwise(
                source,
                if d + 1 == steps {
                    current
                } else {
                    source
                },
                ActivationKind::Relu,
            )
    }

    pub fn forward(&self, graph: &mut Graph, input: usize) -> (r: usize)
        requires
            old(graph).wf(),
            input < old(graph).count(),
            shape(chain(self.ops@, old(graph).term(input))) is Some,
        ensures
            final(graph).provides(*old(graph), r, chain(self.ops@, old(graph).term(input))),
    {
        forward_chain(&self.ops, graph, input)
    }
}

/// The layers of a list of branches.
pub open spec fn transition_layers(branches: Seq<TransitionBranch>) -> Seq<ConvBnAct>
    decreases branches.len(),
{
    if branches.len() == 0 {
        Seq::empty()
    } else {
        transition_layers(branches.drop_last()) + branches.last().ops@
    }
}

/// The step from the branches of one stage to those of the next.
#[derive(Debug)]
pub struct TransitionLayer {
    pub branches: Vec<TransitionBranch>,
}

impl TransitionLayer {
    pub open spec fn layers(self) -> Seq<ConvBnAct> {
        transition_layers(self.branches@)
    }

    /// Branch `i` of a step from `previous` to `current`.
    pub open spec fn branch_planned(
        branch: TransitionBranch,
        previous: Seq<usize>,
        current: Seq<usize>,
        i: int,
    ) -> bool {
        if i < previous.len() {
            branch.keeps(previous[i], current[i])
        } else {
            branch.descends(previous.last(), current[i], i + 1 - previous.len())
        }
    }

    /// The hyperparameters of a step from `previous` to `current`.
    pub open spec fn planned(self, previous: Seq<usize>, current: Seq<usize>) -> bool {
        &&& self.branches@.len() == current.len()
        &&& forall|i: int|
            0 <= i < current.len() ==> Self::branch_planned(
                #[trigger] self.branches@[i],
                previous,
                current,
                i,
            )
    }

    /// Whether there is a step from `previous` to `current`: branches that change have channels.
    pub open spec fn exists_between(previous: Seq<usize>, current: Seq<usize>) -> bool {
        &&& forall|i: int|
            0 <= i < previous.len() && i < current.len() && previous[i] != current[i]
                ==> #[trigger] previous[i] > 0
        &&& current.len() > previous.len() ==> previous.len() > 0 && previous.last() > 0
    }

    pub fn new(table: &mut LayerTable, previous_channels: &Vec<usize>, current_channels: &Vec<usize>) -> (r:
        TransitionLayer)
        requires
            old(table).wf(),
            Self::exists_between(previous_channels@, current_channels@),
        ensures
            r.planned(previous_channels@, current_channels@),
            final(table).adds(*old(table), r.layers()),
    {
        let ghost t0 = table@;
        let n: usize = current_channels.len();
        let p: usize = previous_channels.len();
        let mut branches: Vec<TransitionBranch> = Vec::new();
        for index in 0..n
            invariant
                n == current_channels@.len(),
                p == previous_channels@.len(),
                Self::exists_between(previous_channels@, current_channels@),
                table.wf(),
                table@ =~= t0 + transition_layers(branches@),
                branches@.len() == index,
                forall|j: int|
                    0 <= j < index ==> Self::branch_planned(
                        #[trigger] branches@[j],
                        previous_channels@,
                        current_channels@,
                        j,
                    ),
        {
            let ghost before = branches@;
            let current: usize = current_channels[index];
            let branch: TransitionBranch;
            if index < p {
                let previous: usize = previous_channels[index];
                if current == previous {
                    branch = TransitionBranch::identity();
                } else {
                    let mut ops: Vec<ConvBnAct> = Vec::new();
                    ops.push(ConvBnAct::depthwise(table, previous, 1));
                    ops.push(ConvBnAct::pointwise(table, previous, current, ActivationKind::Relu));
                    branch = TransitionBranch { ops };
                }
            } else {
                let source: usize = previous_channels[p - 1];
                branch = Self::descend(table, source, current, index - p + 1);
            }
            branches.push(branch);
            assert(branches@.drop_last() =~= before);
        }
        TransitionLayer { branches }
    }

    /// Plans a branch that halves its resolution `steps` times.
    fn descend(table: &mut LayerTable, source: usize, current: usize, steps: usize) -> (r:
        TransitionBranch)
        requires
            old(table).wf(),
            source > 0,
        ensures
            r.descends(source, current, steps as int),
            final(table).adds(*old(table), r.ops@),
    {
        let ghost t0 = table@;
        let mut ops: Vec<ConvBnAct> = Vec::new();
        for d in 0..steps
            invariant
                source > 0,
                table.wf(),
                table@ =~= t0 + ops@,
                ops@.len() == 2 * d,
                forall|e: int| 0 <= e < d ==> (#[trigger] ops@[2 * e]).is_depthwise(source, 2),
                forall|e: int|
                    0 <= e < d ==> (#[trigger] ops@[2 * e + 1]).is_pointwise(
                        source,
                        if e + 1 == steps {
                            current
                        } else {
                            source
                        },
                        ActivationKind::Relu,
                    ),
        {
            let out_channels: usize = if d == steps - 1 { current } else { source };
            ops.push(ConvBnAct::depthwise(table, source, 2));
            ops.push(ConvBnAct::pointwise(table, source, out_channels, ActivationKind::Relu));
        }
        TransitionBranch { ops }
    }

    /// The branch that feeds branch `i` of the next stage.
    pub open spec fn feeds(ts: Seq<Term>, i: int) -> Term {
        if i >= ts.len() {
            ts.last()
        } else {
            ts[i]
        }
    }

    /// What the step makes of the branches `ts`.
    pub open spec fn of(self, ts: Seq<Term>) -> Seq<Term> {
        Seq::new(self.branches@.len(), |i: int| chain(self.branches@[i].ops@, Self::feeds(ts, i)))
    }

    /// Whether the step's operations fit the branches `ts`.
    pub open spec fn runs_on(self, ts: Seq<Term>) -> bool {
        &&& self.branches@.len() > ts.len() ==> ts.len() > 0
        &&& all_shaped(self.of(ts))
    }

    pub fn forward(&self, graph: &mut Graph, previous: &Vec<usize>) -> (r: Vec<usize>)
        requires
            old(graph).wf(),
            old(graph).has_all(previous@),
            self.runs_on(old(graph).terms_at(previous@)),
        ensures
            final(graph).provides_all(*old(graph), r@, self.of(old(graph).terms_at(previous@))),
    {
        let ghost g0 = *graph;
        let ghost ts = graph.terms_at(previous@);
        let n: usize = self.branches.len();
        let p: usize = previous.len();
        let mut out: Vec<usize> = Vec::new();
        for i in 0..n
            invariant
                n == self.branches@.len(),
                p == previous@.len(),
                g0.has_all(previous@),
                ts == g0.terms_at(previous@),
                self.runs_on(ts),
                graph.wf(),
                graph.grows(g0),
                out@.len() == i,
                forall|j: int|
                    0 <= j < i ==> (#[trigger] out@[j]) < graph.count() && graph.term(out@[j])
                        == self.of(ts)[j],
        {
            let input: usize = if i >= p { previous[p - 1] } else { previous[i] };
            assert(graph.term(input) == Self::feeds(ts, i as int));
            assert(shape(self.of(ts)[i as int]) is Some);
            let x = self.branches[i].forward(graph, input);
            out.push(x);
        }
        assert(graph.terms_at(out@) =~= self.of(ts));
        out
    }
}

/// Which kind of block a module is made of.
#[derive(Clone, Copy, Debug, PartialEq, Eq, Structural)]
pub enum LiteHrModuleType {
    Lite,
    Naive,
}

/// How the head brings a branch to the next resolution.
#[derive(Clone, Copy, Debug, PartialEq, Eq, Structural)]
pub enum HeadUpsampleMode {
    BilinearAligned,
    Nearest,
}

/// The layers that lead from one branch of a module to another.
#[derive(Debug)]
pub struct FuseLayer {
    pub ops: Vec<ConvBnAct>,
    pub upsample: bool,
}

impl FuseLayer {
    pub fn identity() -> (r: FuseLayer)
        ensures
            r.ops@.len() == 0,
            !r.upsample,
    {
        FuseLayer { ops: Vec::new(), upsample: false }
    }

    /// The hyperparameters of the layer from branch `input` to branch `output`.
    pub open spec fn planned(self, in_channels: Seq<usize>, output: int, input: int) -> bool {
        if input > output {
            &&& self.upsample
            &&& self.ops@.len() == 1
            &&& self.ops@[0].is_pointwise(
                in_channels[input],
                in_channels[output],
                ActivationKind::Identity,
            )
        } else {
            &&& !self.upsample
            &&& self.ops@.len() == 2 * (output - input)
            &&& forall|d: int|
                0 <= d < output - input ==> (#[trigger] self.ops@[2 * d]).is_depthwise(
                    in_channels[input],
                    2,
                )
            &&& forall|d: int|
                0 <= d < output - input ==> (#[trigger] self.ops@[2 * d + 1]).is_pointwise(
                    in_channels[input],
                    if d + 1 == output - input {
                        in_channels[output]
                    } else {
                        in_channels[input]
                    },
                    if d + 1 == output - input {
                        ActivationKind::Identity
                    } else {
                        ActivationKind::Relu
                    },
                )
        }
    }

    /// What the layer makes of `t` for a plane.
    pub open spec fn of(self, t: Term, height: usize, width: usize) -> Term {
        let x = chain(self.ops@, t);
        if self.upsample {
            nearest_to(x, height, width)
        } else {
            x
        }
    }

    pub fn forward(&self, graph: &mut Graph, input: usize, height: usize, width: usize) -> (r: usize)
        requires
            old(graph).wf(),
            input < old(graph).count(),
            shape(chain(self.ops@, old(graph).term(input))) is Some,
        ensures
            final(graph).provides(*old(graph), r, self.of(old(graph).term(input), height, width)),
    {
        let x = forward_chain(&self.ops, graph, input);
        if self.upsample {
            interpolate_nearest(graph, x, height, width)
        } else {
            x
        }
    }
}

/// The layers of a row of fuse layers.
pub open spec fn fuse_row_layers(row: Seq<FuseLayer>) -> Seq<ConvBnAct>
    decreases row.len(),
{
    if row.len() == 0 {
        Seq::empty()
    } else {
        fuse_row_layers(row.drop_last()) + row.last().ops@
    }
}

/// The layers of all fuse layers.
pub open spec fn fuse_layers_of(rows: Seq<Vec<FuseLayer>>) -> Seq<ConvBnAct>
    decreases rows.len(),
{
    if rows.len() == 0 {
        Seq::empty()
    } else {
        fuse_layers_of(rows.drop_last()) + fuse_row_layers(rows.last()@)
    }
}

/// The layers of a list of blocks.
pub open spec fn lite_layers_of(blocks: Seq<ConditionalChannelWeighting>) -> Seq<ConvBnAct>
    decreases blocks.len(),
{
    if blocks.len() == 0 {
        Seq::empty()
    } else {
        lite_layers_of(blocks.drop_last()) + blocks.last().layers()
    }
}

/// The layers of a list of shuffle units.
pub open spec fn unit_layers(units: Seq<ShuffleUnit>) -> Seq<ConvBnAct>
    decreases units.len(),
{
    if units.len() == 0 {
        Seq::empty()
    } else {
        unit_layers(units.drop_last()) + units.last().layers()
    }
}

/// The layers of the shuffle units of all branches.
pub open spec fn naive_layers_of(branches: Seq<Vec<ShuffleUnit>>) -> Seq<ConvBnAct>
    decreases branches.len(),
{
    if branches.len() == 0 {
        Seq::empty()
    } else {
        naive_layers_of(branches.drop_last()) + unit_layers(branches.last()@)
    }
}

/// What a list of blocks makes of the branches `ts`.
pub open spec fn lite_fold(blocks: Seq<ConditionalChannelWeighting>, ts: Seq<Term>) -> Seq<Term>
    decreases blocks.len(),
{
    if blocks.len() == 0 {
        ts
    } else {
        blocks.last().of(lite_fold(blocks.drop_last(), ts))
    }
}

/// Whether a list of blocks fits the branches `ts`.
pub open spec fn lite_runs(blocks: Seq<ConditionalChannelWeighting>, ts: Seq<Term>) -> bool
    decreases blocks.len(),
{
    blocks.len() > 0 ==> {
        &&& lite_runs(blocks.drop_last(), ts)
        &&& blocks.last().runs_on(lite_fold(blocks.drop_last(), ts))
    }
}

/// What a list of shuffle units makes of `t`.
pub open spec fn unit_chain(units: Seq<ShuffleUnit>, t: Term) -> Term
    decreases units.len(),
{
    if units.len() == 0 {
        t
    } else {
        units.last().of(unit_chain(units.drop_last(), t))
    }
}

/// Whether a list of shuffle units fits `t`.
pub open spec fn units_run(units: Seq<ShuffleUnit>, t: Term) -> bool
    decreases units.len(),
{
    units.len() > 0 ==> {
        &&& units_run(units.drop_last(), t)
        &&& units.last().runs_on(unit_chain(units.drop_last(), t))
    }
}

/// Whether the first blocks of a list that fits fit.
proof fn lemma_lite_runs_prefix(blocks: Seq<ConditionalChannelWeighting>, ts: Seq<Term>, n: int)
    requires
        0 <= n <= blocks.len(),
        lite_runs(blocks, ts),
    ensures
        lite_runs(blocks.take(n), ts),
    decreases blocks.len(),
{
    if n == blocks.len() {
        assert(blocks.take(n) =~= blocks);
    } else {
        lemma_lite_runs_prefix(blocks.drop_last(), ts, n);
        assert(blocks.drop_last().take(n) =~= blocks.take(n));
    }
}

/// Whether the first units of a list that fits fit.
proof fn lemma_units_run_prefix(units: Seq<ShuffleUnit>, t: Term, n: int)
    requires
        0 <= n <= units.len(),
        units_run(units, t),
    ensures
        units_run(units.take(n), t),
    decreases units.len(),
{
    if n == units.len() {
        assert(units.take(n) =~= units);
    } else {
        lemma_units_run_prefix(units.drop_last(), t, n);
        assert(units.drop_last().take(n) =~= units.take(n));
    }
}

/// Runs a list of shuffle units one after the other.
fn forward_units(units: &Vec<ShuffleUnit>, graph: &mut Graph, input: usize) -> (r: usize)
    requires
        old(graph).wf(),
        input < old(graph).count(),
        units_run(units@, old(graph).term(input)),
    ensures
        final(graph).provides(*old(graph), r, unit_chain(units@, old(graph).term(input))),
{
    let ghost g0 = *graph;
    let ghost t = graph.term(input);
    let n: usize = units.len();
    let mut x: usize = input;
    assert(units@.take(0) =~= Seq::<ShuffleUnit>::empty());
    for i in 0..n
        invariant
            n == units@.len(),
            units_run(units@, t),
            graph.wf(),
            graph.grows(g0),
            x < graph.count(),
            graph.term(x) == unit_chain(units@.take(i as int), t),
    {
        proof {
            lemma_units_run_prefix(units@, t, i + 1);
            assert(units@.take(i + 1).drop_last() =~= units@.take(i as int));
        }
        x = units[i].forward(graph, x);
    }
    assert(units@.take(n as int) =~= units@);
    x
}

/// Runs a list of blocks one after the other.
fn forward_lite(blocks: &Vec<ConditionalChannelWeighting>, graph: &mut Graph, input: Vec<usize>) -> (r:
    Vec<usize>)
    requires
        old(graph).wf(),
        old(graph).has_all(input@),
        lite_runs(blocks@, old(graph).terms_at(input@)),
    ensures
        final(graph).provides_all(
            *old(graph),
            r@,
            lite_fold(blocks@, old(graph).terms_at(input@)),
        ),
{
    let ghost g0 = *graph;
    let ghost ts = graph.terms_at(input@);
    let n: usize = blocks.len();
    let mut branches: Vec<usize> = input;
    assert(blocks@.take(0) =~= Seq::<ConditionalChannelWeighting>::empty());
    for i in 0..n
        invariant
            n == blocks@.len(),
            lite_runs(blocks@, ts),
            graph.provides_all(g0, branches@, lite_fold(blocks@.take(i as int), ts)),
    {
        proof {
            lemma_lite_runs_prefix(blocks@, ts, i + 1);
            assert(blocks@.take(i + 1).drop_last() =~= blocks@.take(i as int));
        }
        branches = blocks[i].forward(graph, &branches);
    }
    assert(blocks@.take(n as int) =~= blocks@);
    branches
}

/// A module of the backbone: blocks on every branch, followed by an exchange between branches.
#[derive(Debug)]
pub struct LiteHrModule {
    pub lite_layers: Vec<ConditionalChannelWeighting>,
    pub naive_layers: Vec<Vec<ShuffleUnit>>,
    pub fuse_layers: Vec<Vec<FuseLayer>>,
    pub in_channels: Vec<usize>,
    pub module_type: LiteHrModuleType,
    pub multiscale_output: bool,
    pub with_fuse: bool,
}

impl LiteHrModule {
    pub open spec fn layers(self) -> Seq<ConvBnAct> {
        lite_layers_of(self.lite_layers@) + naive_layers_of(self.naive_layers@) + fuse_layers_of(
            self.fuse_layers@,
        )
    }

    /// The fuse layers between branches of `in_channels` channels.
    pub open spec fn fuse_planned(
        rows: Seq<Vec<FuseLayer>>,
        in_channels: Seq<usize>,
        multiscale_output: bool,
    ) -> bool {
        &&& rows.len() == if multiscale_output {
            in_channels.len()
        } else {
            1
        }
        &&& forall|o: int| 0 <= o < rows.len() ==> Self::row_planned(#[trigger] rows[o]@, in_channels, o)
    }

    /// The fuse layers that lead to branch `output`.
    pub open spec fn row_planned(row: Seq<FuseLayer>, in_channels: Seq<usize>, output: int) -> bool {
        &&& row.len() == in_channels.len()
        &&& forall|i: int|
            0 <= i < row.len() ==> (#[trigger] row[i]).planned(in_channels, output, i)
    }

    /// The module's hyperparameters.
    pub open spec fn planned(
        self,
        num_blocks: usize,
        in_channels: Seq<usize>,
        reduce_ratio: usize,
        module_type: LiteHrModuleType,
        multiscale_output: bool,
        with_fuse: bool,
    ) -> bool {
        &&& self.in_channels@ == in_channels
        &&& self.module_type == module_type
        &&& self.multiscale_output == multiscale_output
        &&& self.with_fuse == with_fuse
        &&& self.lite_layers@.len() == if module_type == LiteHrModuleType::Lite {
            num_blocks as nat
        } else {
            0
        }
        &&& forall|b: int|
            0 <= b < self.lite_layers@.len() ==> (#[trigger] self.lite_layers@[b]).planned(
                in_channels,
                1,
                reduce_ratio,
            )
        &&& self.naive_layers@.len() == if module_type == LiteHrModuleType::Naive {
            in_channels.len()
        } else {
            0
        }
        &&& forall|i: int|
            0 <= i < self.naive_layers@.len() ==> Self::units_planned(
                #[trigger] self.naive_layers@[i]@,
                num_blocks,
                in_channels[i],
            )
        &&& if with_fuse && in_channels.len() > 1 {
            Self::fuse_planned(self.fuse_layers@, in_channels, multiscale_output)
        } else {
            self.fuse_layers@.len() == 0
        }
    }

    /// The shuffle units of a branch of `channels` channels.
    pub open spec fn units_planned(units: Seq<ShuffleUnit>, num_blocks: usize, channels: usize) -> bool {
        &&& units.len() == num_blocks
        &&& forall|b: int|
            0 <= b < units.len() ==> (#[trigger] units[b]).planned(channels, channels, 1)
    }

    /// Whether a module on branches of `in_channels` channels can be made.
    pub open spec fn can_make(
        num_blocks: usize,
        in_channels: Seq<usize>,
        reduce_ratio: usize,
        module_type: LiteHrModuleType,
        multiscale_output: bool,
        with_fuse: bool,
    ) -> bool {
        &&& num_blocks > 0 ==> ConditionalChannelWeighting::splits(in_channels)
        &&& num_blocks > 0 && module_type == LiteHrModuleType::Lite ==> reduce_ratio > 0 && total(
            in_channels,
        ) <= usize::MAX
        &&& with_fuse && in_channels.len() > 1 && multiscale_output ==> forall|i: int|
            0 <= i < in_channels.len() - 1 ==> #[trigger] in_channels[i] > 0
    }

    #[allow(clippy::too_many_arguments)]
    pub fn new(
        table: &mut LayerTable,
        num_branches: usize,
        num_blocks: usize,
        in_channels: Vec<usize>,
        reduce_ratio: usize,
        module_type: LiteHrModuleType,
        multiscale_output: bool,
        with_fuse: bool,
    ) -> (r: LiteHrModule)
        requires
            old(table).wf(),
            num_branches == in_channels@.len(),
            Self::can_make(
                num_blocks,
                in_channels@,
                reduce_ratio,
                module_type,
                multiscale_output,
                with_fuse,
            ),
        ensures
            r.planned(
                num_blocks,
                in_channels@,
                reduce_ratio,
                module_type,
                multiscale_output,
                with_fuse,
            ),
            final(table).adds(*old(table), r.layers()),
    {
        let ghost t0 = table@;
        let mut lite_layers: Vec<ConditionalChannelWeighting> = Vec::new();
        if module_type == LiteHrModuleType::Lite {
            for b in 0..num_blocks
                invariant
                    Self::can_make(
                        num_blocks,
                        in_channels@,
                        reduce_ratio,
                        module_type,
                        multiscale_output,
                        with_fuse,
                    ),
                    module_type == LiteHrModuleType::Lite,
                    table.wf(),
                    table@ =~= t0 + lite_layers_of(lite_layers@),
                    lite_layers@.len() == b,
                    forall|c: int|
                        0 <= c < b ==> (#[trigger] lite_layers@[c]).planned(
                            in_channels@,
                            1,
                            reduce_ratio,
                        ),
            {
                let ghost before = lite_layers@;
                let block = ConditionalChannelWeighting::new(table, &in_channels, 1, reduce_ratio);
                lite_layers.push(block);
                assert(lite_layers@.drop_last() =~= before);
            }
        }
        let ghost t1 = table@;
        let mut naive_layers: Vec<Vec<ShuffleUnit>> = Vec::new();
        if module_type == LiteHrModuleType::Naive {
            for i in 0..num_branches
                invariant
                    num_branches == in_channels@.len(),
                    num_blocks > 0 ==> ConditionalChannelWeighting::splits(in_channels@),
                    table.wf(),
                    table@ =~= t1 + naive_layers_of(naive_layers@),
                    naive_layers@.len() == i,
                    forall|j: int|
                        0 <= j < i ==> Self::units_planned(
                            #[trigger] naive_layers@[j]@,
                            num_blocks,
                            in_channels@[j],
                        ),
            {
                let ghost before = naive_layers@;
                assert(num_blocks > 0 ==> 2 <= in_channels@[i as int] && in_channels@[i as int] % 2 == 0);
                let units = Self::make_units(table, num_blocks, in_channels[i]);
                naive_layers.push(units);
                assert(naive_layers@.drop_last() =~= before);
            }
        }
        let ghost t2 = table@;
        let fuse_layers: Vec<Vec<FuseLayer>> = if with_fuse && num_branches > 1 {
            Self::make_fuse_layers(table, &in_channels, multiscale_output)
        } else {
            Vec::new()
        };
        let r = LiteHrModule {
            lite_layers,
            naive_layers,
            fuse_layers,
            in_channels,
            module_type,
            multiscale_output,
            with_fuse,
        };
        assert(table@ =~= t0 + r.layers());
        r
    }

    /// Plans the shuffle units of one branch.
    fn make_units(table: &mut LayerTable, num_blocks: usize, channels: usize) -> (r: Vec<ShuffleUnit>)
        requires
            old(table).wf(),
            num_blocks > 0 ==> 2 <= channels && channels % 2 == 0,
        ensures
            Self::units_planned(r@, num_blocks, channels),
            final(table).adds(*old(table), unit_layers(r@)),
    {
        let ghost t0 = table@;
        let mut units: Vec<ShuffleUnit> = Vec::new();
        for b in 0..num_blocks
            invariant
                num_blocks > 0 ==> 2 <= channels && channels % 2 == 0,
                table.wf(),
                table@ =~= t0 + unit_layers(units@),
                units@.len() == b,
                forall|c: int| 0 <= c < b ==> (#[trigger] units@[c]).planned(channels, channels, 1),
        {
            let ghost before = units@;
            let unit = ShuffleUnit::new(table, channels, channels, 1);
            units.push(unit);
            assert(units@.drop_last() =~= before);
        }
        units
    }

    fn make_fuse_layers(table: &mut LayerTable, in_channels: &Vec<usize>, multiscale_output: bool) -> (r:
        Vec<Vec<FuseLayer>>)
        requires
            old(table).wf(),
            in_channels@.len() > 0,
            multiscale_output ==> forall|i: int|
                0 <= i < in_channels@.len() - 1 ==> #[trigger] in_channels@[i] > 0,
        ensures
            Self::fuse_planned(r@, in_channels@, multiscale_output),
            final(table).adds(*old(table), fuse_layers_of(r@)),
    {
        let ghost t0 = table@;
        let num_branches: usize = in_channels.len();
        let num_out_branches: usize = if multiscale_output { num_branches } else { 1 };
        let mut fuse_layers: Vec<Vec<FuseLayer>> = Vec::new();
        for output_index in 0..num_out_branches
            invariant
                num_branches == in_channels@.len(),
                num_out_branches <= num_branches,
                num_out_branches > 1 ==> forall|i: int|
                    0 <= i < in_channels@.len() - 1 ==> #[trigger] in_channels@[i] > 0,
                table.wf(),
                table@ =~= t0 + fuse_layers_of(fuse_layers@),
                fuse_layers@.len() == output_index,
                forall|o: int|
                    0 <= o < output_index ==> Self::row_planned(
                        #[trigger] fuse_layers@[o]@,
                        in_channels@,
                        o,
                    ),
        {
            let ghost before = fuse_layers@;
            let row = Self::make_fuse_row(table, in_channels, output_index);
            fuse_layers.push(row);
            assert(fuse_layers@.drop_last() =~= before);
        }
        fuse_layers
    }

    /// Plans the fuse layers that lead to one branch.
    fn make_fuse_row(table: &mut LayerTable, in_channels: &Vec<usize>, output_index: usize) -> (r:
        Vec<FuseLayer>)
        requires
            old(table).wf(),
            output_index < in_channels@.len(),
            forall|i: int| 0 <= i < output_index ==> #[trigger] in_channels@[i] > 0,
        ensures
            Self::row_planned(r@, in_channels@, output_index as int),
            final(table).adds(*old(table), fuse_row_layers(r@)),
    {
        let ghost t0 = table@;
        let num_branches: usize = in_channels.len();
        let mut row: Vec<FuseLayer> = Vec::new();
        for input_index in 0..num_branches
            invariant
                num_branches == in_channels@.len(),
                output_index < num_branches,
                forall|i: int| 0 <= i < output_index ==> #[trigger] in_channels@[i] > 0,
                table.wf(),
                table@ =~= t0 + fuse_row_layers(row@),
                row@.len() == input_index,
                forall|i: int|
                    0 <= i < input_index ==> (#[trigger] row@[i]).planned(
                        in_channels@,
                        output_index as int,
                        i,
                    ),
        {
            let ghost before = row@;
            let layer: FuseLayer;
            if input_index > output_index {
                let mut ops: Vec<ConvBnAct> = Vec::new();
                ops.push(
                    ConvBnAct::pointwise(
                        table,
                        in_channels[input_index],
                        in_channels[output_index],
                        ActivationKind::Identity,
                    ),
                );
                layer = FuseLayer { ops, upsample: true };
            } else if input_index == output_index {
                layer = FuseLayer::identity();
            } else {
                layer = Self::make_descent(
                    table,
                    in_channels[input_index],
                    in_channels[output_index],
                    output_index - input_index,
                );
            }
            row.push(layer);
            assert(row@.drop_last() =~= before);
        }
        row
    }

    /// Plans a fuse layer that halves the resolution `steps` times.
    fn make_descent(table: &mut LayerTable, source: usize, target: usize, steps: usize) -> (r:
        FuseLayer)
        requires
            old(table).wf(),
            source > 0,
            steps > 0,
        ensures
            !r.upsample,
            r.ops@.len() == 2 * steps,
            forall|d: int| 0 <= d < steps ==> (#[trigger] r.ops@[2 * d]).is_depthwise(source, 2),
            forall|d: int|
                0 <= d < steps ==> (#[trigger] r.ops@[2 * d + 1]).is_pointwise(
                    source,
                    if d + 1 == steps {
                        target
                    } else {
                        source
                    },
                    if d + 1 == steps {
                        ActivationKind::Identity
                    } else {
                        ActivationKind::Relu
                    },
                ),
            final(table).adds(*old(table), r.ops@),
    {
        let ghost t0 = table@;
        let mut ops: Vec<ConvBnAct> = Vec::new();
        for d in 0..steps
            invariant
                source > 0,
                table.wf(),
                table@ =~= t0 + ops@,
                ops@.len() == 2 * d,
                forall|e: int| 0 <= e < d ==> (#[trigger] ops@[2 * e]).is_depthwise(source, 2),
                forall|e: int|
                    0 <= e < d ==> (#[trigger] ops@[2 * e + 1]).is_pointwise(
                        source,
                        if e + 1 == steps {
                            target
                        } else {
                            source
                        },
                        if e + 1 == steps {
                            ActivationKind::Identity
                        } else {
                            ActivationKind::Relu
                        },
                    ),
        {
            let is_last = d == steps - 1;
            let out_channels: usize = if is_last { target } else { source };
            let act = if is_last { ActivationKind::Identity } else { ActivationKind::Relu };
            ops.push(ConvBnAct::depthwise(table, source, 2));
            ops.push(ConvBnAct::pointwise(table, source, out_channels, act));
        }
        FuseLayer { ops, upsample: false }
    }
}

impl LiteHrModule {
    /// What the blocks make of the branches `ts`.
    pub open spec fn blocks_of(self, ts: Seq<Term>) -> Seq<Term> {
        match self.module_type {
            LiteHrModuleType::Lite => lite_fold(self.lite_layers@, ts),
            LiteHrModuleType::Naive => Seq::new(
                least(ts.len(), self.naive_layers@.len()),
                |i: int| unit_chain(self.naive_layers@[i]@, ts[i]),
            ),
        }
    }

    /// Whether the blocks fit the branches `ts`.
    pub open spec fn blocks_run(self, ts: Seq<Term>) -> bool {
        match self.module_type {
            LiteHrModuleType::Lite => lite_runs(self.lite_layers@, ts),
            LiteHrModuleType::Naive => forall|i: int|
                0 <= i < least(ts.len(), self.naive_layers@.len()) ==> units_run(
                    #[trigger] self.naive_layers@[i]@,
                    ts[i],
                ),
        }
    }

    /// What branch `input` contributes to branch `output`.
    pub open spec fn contribution(self, outs: Seq<Term>, output: int, input: int) -> Term {
        let d = shape(outs[output])->0;
        self.fuse_layers@[output]@[input].of(outs[input], d.height, d.width)
    }

    /// The sum for branch `output` after the first `n` branches were added. The first branch also
    /// starts the sum.
    pub open spec fn fused_sum(self, outs: Seq<Term>, output: int, n: int) -> Term
        decreases n,
    {
        if n <= 0 {
            if output == 0 {
                outs[0]
            } else {
                self.contribution(outs, output, 0)
            }
        } else {
            let added = if output == n - 1 {
                outs[n - 1]
            } else {
                self.contribution(outs, output, n - 1)
            };
            Term::Plus(Box::new(self.fused_sum(outs, output, n - 1)), Box::new(added))
        }
    }

    /// Branch `output` after the exchange.
    pub open spec fn fused(self, outs: Seq<Term>, output: int) -> Term {
        Term::Relu(Box::new(self.fused_sum(outs, output, self.in_channels@.len() as int)))
    }

    /// Whether the module exchanges between its branches.
    pub open spec fn fuses(self) -> bool {
        self.with_fuse && self.fuse_layers@.len() > 0
    }

    /// What the module makes of the branches `ts`.
    pub open spec fn of(self, ts: Seq<Term>) -> Seq<Term> {
        if self.in_channels@.len() == 1 {
            if self.module_type == LiteHrModuleType::Lite {
                lite_fold(self.lite_layers@, ts)
            } else {
                seq![unit_chain(self.naive_layers@[0]@, ts[0])]
            }
        } else {
            let outs = self.blocks_of(ts);
            if self.fuses() {
                Seq::new(self.fuse_layers@.len(), |o: int| self.fused(outs, o))
            } else if !self.multiscale_output {
                seq![outs[0]]
            } else {
                outs
            }
        }
    }

    /// Whether the exchange fits the branches `outs`.
    pub open spec fn fuse_runs(self, outs: Seq<Term>) -> bool {
        &&& outs.len() > 0
        &&& self.in_channels@.len() <= outs.len()
        &&& self.fuse_layers@.len() <= outs.len()
        &&& forall|o: int|
            0 <= o < self.fuse_layers@.len() ==> {
                &&& self.in_channels@.len() <= (#[trigger] self.fuse_layers@[o])@.len()
                &&& o > 0 ==> self.fuse_layers@[o]@.len() > 0
                &&& shape(self.fused(outs, o)) is Some
            }
    }

    /// Whether the module's operations fit the branches `ts`.
    pub open spec fn runs_on(self, ts: Seq<Term>) -> bool {
        if self.in_channels@.len() == 1 {
            if self.module_type == LiteHrModuleType::Lite {
                lite_runs(self.lite_layers@, ts)
            } else {
                ts.len() > 0 && self.naive_layers@.len() > 0 && units_run(
                    self.naive_layers@[0]@,
                    ts[0],
                )
            }
        } else {
            let outs = self.blocks_of(ts);
            &&& self.blocks_run(ts)
            &&& self.fuses() ==> self.fuse_runs(outs)
            &&& !self.fuses() && !self.multiscale_output ==> outs.len() > 0
        }
    }

    /// Where the sum of a branch fits together, so does each part of it.
    proof fn lemma_sum_prefix_shaped(self, outs: Seq<Term>, output: int, n: int, m: int)
        requires
            0 <= m <= n,
            shape(self.fused_sum(outs, output, n)) is Some,
        ensures
            shape(self.fused_sum(outs, output, m)) is Some,
        decreases n,
    {
        if m < n {
            self.lemma_sum_prefix_shaped(outs, output, n - 1, m);
        }
    }

    pub fn forward(&self, graph: &mut Graph, input: Vec<usize>) -> (r: Vec<usize>)
        requires
            old(graph).wf(),
            old(graph).has_all(input@),
            self.runs_on(old(graph).terms_at(input@)),
        ensures
            final(graph).provides_all(*old(graph), r@, self.of(old(graph).terms_at(input@))),
    {
        let ghost g0 = *graph;
        let ghost ts = graph.terms_at(input@);
        if self.in_channels.len() == 1 {
            if self.module_type == LiteHrModuleType::Lite {
                return forward_lite(&self.lite_layers, graph, input);
            }
            assert(ts[0] == graph.term(input@[0]));
            let branch = forward_units(&self.naive_layers[0], graph, input[0]);
            let mut single: Vec<usize> = Vec::new();
            single.push(branch);
            assert(graph.terms_at(single@) =~= self.of(ts));
            return single;
        }
        let ghost outs = self.blocks_of(ts);
        let output: Vec<usize> = match self.module_type {
            LiteHrModuleType::Lite => forward_lite(&self.lite_layers, graph, input),
            LiteHrModuleType::Naive => self.forward_naive(graph, &input),
        };
        assert(graph.provides_all(g0, output@, outs));
        assert(outs.len() == output@.len());
        if self.with_fuse && self.fuse_layers.len() > 0 {
            let ghost g1 = *graph;
            let n: usize = self.fuse_layers.len();
            let mut fused: Vec<usize> = Vec::new();
            for o in 0..n
                invariant
                    n == self.fuse_layers@.len(),
                    g1.wf(),
                    g1.has_all(output@),
                    outs == g1.terms_at(output@),
                    self.fuse_runs(outs),
                    graph.wf(),
                    graph.grows(g1),
                    fused@.len() == o,
                    forall|p: int|
                        0 <= p < o ==> (#[trigger] fused@[p]) < graph.count() && graph.term(fused@[p])
                            == self.fused(outs, p),
            {
                proof {
                    graph.lemma_grown_registers(g1, output@);
                }
                let y = self.fuse_branch(graph, &output, o);
                fused.push(y);
            }
            assert(graph.terms_at(fused@) =~= self.of(ts));
            fused
        } else if !self.multiscale_output {
            let mut first: Vec<usize> = Vec::new();
            first.push(output[0]);
            assert(graph.term(output@[0]) == outs[0]);
            assert(graph.terms_at(first@) =~= self.of(ts));
            first
        } else {
            output
        }
    }

    /// Runs the shuffle units of every branch.
    fn forward_naive(&self, graph: &mut Graph, input: &Vec<usize>) -> (r: Vec<usize>)
        requires
            self.module_type == LiteHrModuleType::Naive,
            old(graph).wf(),
            old(graph).has_all(input@),
            self.blocks_run(old(graph).terms_at(input@)),
        ensures
            final(graph).provides_all(*old(graph), r@, self.blocks_of(old(graph).terms_at(input@))),
    {
        let ghost g0 = *graph;
        let ghost ts = graph.terms_at(input@);
        let n: usize = if self.naive_layers.len() < input.len() {
            self.naive_layers.len()
        } else {
            input.len()
        };
        let mut out: Vec<usize> = Vec::new();
        for i in 0..n
            invariant
                self.module_type == LiteHrModuleType::Naive,
                n == least(ts.len(), self.naive_layers@.len()),
                g0.has_all(input@),
                ts == g0.terms_at(input@),
                self.blocks_run(ts),
                graph.wf(),
                graph.grows(g0),
                out@.len() == i,
                forall|j: int|
                    0 <= j < i ==> (#[trigger] out@[j]) < graph.count() && graph.term(out@[j])
                        == unit_chain(self.naive_layers@[j]@, ts[j]),
        {
            assert(ts[i as int] == graph.term(input@[i as int]));
            assert(units_run(self.naive_layers@[i as int]@, ts[i as int]));
            let x = forward_units(&self.naive_layers[i], graph, input[i]);
            out.push(x);
        }
        assert(graph.terms_at(out@) =~= self.blocks_of(ts));
        out
    }

    /// Sums all branches into branch `o`.
    fn fuse_branch(&self, graph: &mut Graph, output: &Vec<usize>, o: usize) -> (r: usize)
        requires
            old(graph).wf(),
            old(graph).has_all(output@),
            o < self.fuse_layers@.len(),
            self.fuse_runs(old(graph).terms_at(output@)),
        ensures
            final(graph).provides(
                *old(graph),
                r,
                self.fused(old(graph).terms_at(output@), o as int),
            ),
    {
        let ghost g0 = *graph;
        let ghost outs = graph.terms_at(output@);
        let n: usize = self.in_channels.len();
        assert(self.in_channels@.len() <= self.fuse_layers@[o as int]@.len());
        assert(shape(self.fused(outs, o as int)) is Some);
        assert(outs[o as int] == graph.term(output@[o as int]));
        assert(outs[0] == graph.term(output@[0]));
        let d = graph.dims(output[o]);
        proof {
            self.lemma_sum_prefix_shaped(outs, o as int, n as int, 0);
            assert(o > 0 ==> shape(self.contribution(outs, o as int, 0)) is Some);
        }
        let mut y: usize = if o == 0 {
            output[0]
        } else {
            self.fuse_layers[o][0].forward(graph, output[0], d.height, d.width)
        };
        for i in 0..n
            invariant
                n == self.in_channels@.len(),
                n <= self.fuse_layers@[o as int]@.len(),
                n <= output@.len(),
                o < self.fuse_layers@.len(),
                o < output@.len(),
                g0.has_all(output@),
                outs == g0.terms_at(output@),
                shape(outs[o as int]) == Some(d),
                shape(self.fused_sum(outs, o as int, n as int)) is Some,
                graph.wf(),
                graph.grows(g0),
                y < graph.count(),
                graph.term(y) == self.fused_sum(outs, o as int, i as int),
        {
            proof {
                self.lemma_sum_prefix_shaped(outs, o as int, n as int, i + 1);
                assert(outs[i as int] == graph.term(output@[i as int]));
                assert(o != i ==> shape(self.contribution(outs, o as int, i as int)) is Some);
            }
            let addend: usize = if o == i {
                output[i]
            } else {
                self.fuse_layers[o][i].forward(graph, output[i], d.height, d.width)
            };
            y = graph.plus(y, addend);
        }
        graph.relu(y)
    }
}

/// What a list of modules makes of the branches `ts`.
pub open spec fn module_fold(modules: Seq<LiteHrModule>, ts: Seq<Term>) -> Seq<Term>
    decreases modules.len(),
{
    if modules.len() == 0 {
        ts
    } else {
        modules.last().of(module_fold(modules.drop_last(), ts))
    }
}

/// Whether a list of modules fits the branches `ts`.
pub open spec fn modules_run(modules: Seq<LiteHrModule>, ts: Seq<Term>) -> bool
    decreases modules.len(),
{
    modules.len() > 0 ==> {
        &&& modules_run(modules.drop_last(), ts)
        &&& modules.last().runs_on(module_fold(modules.drop_last(), ts))
    }
}

/// Where a list of modules fits, its first modules fit.
proof fn lemma_modules_run_prefix(modules: Seq<LiteHrModule>, ts: Seq<Term>, n: int)
    requires
        0 <= n <= modules.len(),
        modules_run(modules, ts),
    ensures
        modules_run(modules.take(n), ts),
    decreases modules.len(),
{
    if n == modules.len() {
        assert(modules.take(n) =~= modules);
    } else {
        lemma_modules_run_prefix(modules.drop_last(), ts, n);
        assert(modules.drop_last().take(n) =~= modules.take(n));
    }
}

/// The layers of a list of modules.
pub open spec fn module_layers(modules: Seq<LiteHrModule>) -> Seq<ConvBnAct>
    decreases modules.len(),
{
    if modules.len() == 0 {
        Seq::empty()
    } else {
        module_layers(modules.drop_last()) + modules.last().layers()
    }
}

/// A stage of the backbone: modules on the same branches.
#[derive(Debug)]
pub struct Stage {
    pub modules: Vec<LiteHrModule>,
}

impl Stage {
    pub open spec fn layers(self) -> Seq<ConvBnAct> {
        module_layers(self.modules@)
    }

    /// Whether module `index` of `num_modules` puts out all its branches.
    pub open spec fn puts_out_all(multiscale_output: bool, index: int, num_modules: int) -> bool {
        multiscale_output || index + 1 != num_modules
    }

    /// The stage's hyperparameters.
    pub open spec fn planned(
        self,
        num_modules: usize,
        num_blocks: usize,
        in_channels: Seq<usize>,
        reduce_ratio: usize,
        module_type: LiteHrModuleType,
        with_fuse: bool,
        multiscale_output: bool,
    ) -> bool {
        &&& self.modules@.len() == num_modules
        &&& forall|m: int|
            0 <= m < num_modules ==> (#[trigger] self.modules@[m]).planned(
                num_blocks,
                in_channels,
                reduce_ratio,
                module_type,
                Self::puts_out_all(multiscale_output, m, num_modules as int),
                with_fuse,
            )
    }

    /// Whether a stage on branches of `in_channels` channels can be made.
    pub open spec fn can_make(
        num_modules: usize,
        num_branches: usize,
        num_blocks: usize,
        in_channels: Seq<usize>,
        reduce_ratio: usize,
        module_type: LiteHrModuleType,
        with_fuse: bool,
        multiscale_output: bool,
    ) -> bool {
        num_modules > 0 ==> {
            &&& num_branches == in_channels.len()
            &&& forall|m: int|
                0 <= m < num_modules ==> LiteHrModule::can_make(
                    num_blocks,
                    in_channels,
                    reduce_ratio,
                    module_type,
                    #[trigger] Self::puts_out_all(multiscale_output, m, num_modules as int),
                    with_fuse,
                )
        }
    }

    #[allow(clippy::too_many_arguments)]
    pub fn new(
        table: &mut LayerTable,
        num_modules: usize,
        num_branches: usize,
        num_blocks: usize,
        in_channels: &Vec<usize>,
        reduce_ratio: usize,
        module_type: LiteHrModuleType,
        with_fuse: bool,
        multiscale_output: bool,
    ) -> (r: Stage)
        requires
            old(table).wf(),
            Self::can_make(
                num_modules,
                num_branches,
                num_blocks,
                in_channels@,
                reduce_ratio,
                module_type,
                with_fuse,
                multiscale_output,
            ),
        ensures
            r.planned(
                num_modules,
                num_blocks,
                in_channels@,
                reduce_ratio,
                module_type,
                with_fuse,
                multiscale_output,
            ),
            final(table).adds(*old(table), r.layers()),
    {
        let ghost t0 = table@;
        let mut modules: Vec<LiteHrModule> = Vec::new();
        for m in 0..num_modules
            invariant
                Self::can_make(
                    num_modules,
                    num_branches,
                    num_blocks,
                    in_channels@,
                    reduce_ratio,
                    module_type,
                    with_fuse,
                    multiscale_output,
                ),
                table.wf(),
                table@ =~= t0 + module_layers(modules@),
                modules@.len() == m,
                forall|p: int|
                    0 <= p < m ==> (#[trigger] modules@[p]).planned(
                        num_blocks,
                        in_channels@,
                        reduce_ratio,
                        module_type,
                        Self::puts_out_all(multiscale_output, p, num_modules as int),
                        with_fuse,
                    ),
        {
            let ghost before = modules@;
            let output_multiscale = multiscale_output || m != num_modules - 1;
            assert(output_multiscale == Self::puts_out_all(
                multiscale_output,
                m as int,
                num_modules as int,
            ));
            let module = LiteHrModule::new(
                table,
                num_branches,
                num_blocks,
                copy_counts(in_channels),
                reduce_ratio,
                module_type,
                output_multiscale,
                with_fuse,
            );
            modules.push(module);
            assert(modules@.drop_last() =~= before);
        }
        Stage { modules }
    }

    pub fn forward(&self, graph: &mut Graph, input: Vec<usize>) -> (r: Vec<usize>)
        requires
            old(graph).wf(),
            old(graph).has_all(input@),
            modules_run(self.modules@, old(graph).terms_at(input@)),
        ensures
            final(graph).provides_all(
                *old(graph),
                r@,
                module_fold(self.modules@, old(graph).terms_at(input@)),
            ),
    {
        let ghost g0 = *graph;
        let ghost ts = graph.terms_at(input@);
        let n: usize = self.modules.len();
        let mut branches: Vec<usize> = input;
        assert(self.modules@.take(0) =~= Seq::<LiteHrModule>::empty());
        for i in 0..n
            invariant
                n == self.modules@.len(),
                modules_run(self.modules@, ts),
                graph.provides_all(g0, branches@, module_fold(self.modules@.take(i as int), ts)),
        {
            proof {
                lemma_modules_run_prefix(self.modules@, ts, i + 1);
                assert(self.modules@.take(i + 1).drop_last() =~= self.modules@.take(i as int));
            }
            branches = self.modules[i].forward(graph, branches);
        }
        assert(self.modules@.take(n as int) =~= self.modules@);
        branches
    }
}

/// A copy of a list of counts.
pub fn copy_counts(counts: &Vec<usize>) -> (r: Vec<usize>)
    ensures
        r@ == counts@,
{
    let r = counts.clone();
    assert(r@ =~= counts@);
    r
}

} // verus!
