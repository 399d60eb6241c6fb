//! The head of the backbone, the backbone and the pose network.

use vstd::prelude::*;

use crate::pose::graph::{shape, Graph, Term};
use crate::pose::layers::{
    bilinear_to, interpolate_bilinear_aligned, interpolate_nearest, least, nearest_to,
    ActivationKind, ConvBnAct, DepthwiseSeparableConv, LayerTable, Stem,
};
use crate::pose::model::{
    copy_counts, module_fold, modules_run, HeadUpsampleMode, LiteHrModuleType, Stage,
    TransitionLayer,
};

verus! {

/// Joints of a COCO pose.
pub const DEFAULT_POSE_JOINTS: usize = 17;

/// The layers of a list of projections.
pub open spec fn project_layers(projects: Seq<DepthwiseSeparableConv>) -> Seq<ConvBnAct>
    decreases projects.len(),
{
    if projects.len() == 0 {
        Seq::empty()
    } else {
        project_layers(projects.drop_last()) + projects.last().layers()
    }
}

/// The head of the backbone: it carries the lowest resolution up to the highest. Its channel
/// counts and projections run from the last branch to the first.
#[derive(Debug)]
pub struct IterativeHead {
    pub projects: Vec<DepthwiseSeparableConv>,
    pub in_channels: Vec<usize>,
    pub upsample_mode: HeadUpsampleMode,
}

impl IterativeHead {
    pub open spec fn layers(self) -> Seq<ConvBnAct> {
        project_layers(self.projects@)
    }

    /// Projection `i` of a head whose channel counts, from the last branch on, are `channels`.
    pub open spec fn project_planned(
        project: DepthwiseSeparableConv,
        channels: Seq<usize>,
        i: int,
    ) -> bool {
        let out = if i + 1 == channels.len() {
            channels[i]
        } else {
            channels[i + 1]
        };
        &&& project.depthwise.is_depthwise(channels[i], 1)
        &&& project.pointwise.is_pointwise(channels[i], out, ActivationKind::Relu)
    }

    /// The head's hyperparameters.
    pub open spec fn planned(self, in_channels: Seq<usize>, upsample_mode: HeadUpsampleMode) -> bool {
        &&& self.in_channels@ == in_channels.reverse()
        &&& self.upsample_mode == upsample_mode
        &&& self.projects@.len() == in_channels.len()
        &&& forall|i: int|
            0 <= i < in_channels.len() ==> Self::project_planned(
                #[trigger] self.projects@[i],
                in_channels.reverse(),
                i,
            )
    }

    /// Whether every branch has channels.
    pub open spec fn can_make(in_channels: Seq<usize>) -> bool {
        forall|i: int| 0 <= i < in_channels.len() ==> #[trigger] in_channels[i] > 0
    }

    pub fn new(table: &mut LayerTable, in_channels: &Vec<usize>, upsample_mode: HeadUpsampleMode) -> (r:
        IterativeHead)
        requires
            old(table).wf(),
            Self::can_make(in_channels@),
        ensures
            r.planned(in_channels@, upsample_mode),
            final(table).adds(*old(table), r.layers()),
    {
        let ghost t0 = table@;
        let reversed: Vec<usize> = reversed_of(in_channels);
        let num_branches: usize = reversed.len();
        let mut projects: Vec<DepthwiseSeparableConv> = Vec::new();
        for index in 0..num_branches
            invariant
                num_branches == reversed@.len(),
                reversed@ == in_channels@.reverse(),
                Self::can_make(in_channels@),
                table.wf(),
                table@ =~= t0 + project_layers(projects@),
                projects@.len() == index,
                forall|j: int|
                    0 <= j < index ==> Self::project_planned(
                        #[trigger] projects@[j],
                        in_channels@.reverse(),
                        j,
                    ),
        {
            let ghost before = projects@;
            let out_channels: usize = if index == num_branches - 1 {
                reversed[index]
            } else {
                reversed[index + 1]
            };
            assert(in_channels@[num_branches - 1 - index] > 0);
            let project = DepthwiseSeparableConv::new(
                table,
                reversed[index],
                out_channels,
                3,
                1,
                1,
                ActivationKind::Identity,
                ActivationKind::Relu,
            );
            projects.push(project);
            assert(projects@.drop_last() =~= before);
        }
        IterativeHead { projects, in_channels: reversed, upsample_mode }
    }

    /// `t` resized to a plane in the way of this head.
    pub open spec fn resized(self, t: Term, height: usize, width: usize) -> Term {
        match self.upsample_mode {
            HeadUpsampleMode::BilinearAligned => bilinear_to(t, height, width),
            HeadUpsampleMode::Nearest => nearest_to(t, height, width),
        }
    }

    /// Output `i`, counted from the last branch, where `rev` are the branches from the last on.
    pub open spec fn projected(self, rev: Seq<Term>, i: int) -> Term
        decreases i,
    {
        let joined = if i <= 0 {
            rev[i]
        } else {
            let d = shape(rev[i])->0;
            Term::Plus(
                Box::new(rev[i]),
                Box::new(self.resized(self.projected(rev, i - 1), d.height, d.width)),
            )
        };
        self.projects@[i].of(joined)
    }

    /// What the head makes of the branches `ts`.
    pub open spec fn of(self, ts: Seq<Term>) -> Seq<Term> {
        Seq::new(ts.len(), |i: int| self.projected(ts.reverse(), ts.len() - 1 - i))
    }

    /// Whether the head's operations fit the branches `ts`.
    pub open spec fn runs_on(self, ts: Seq<Term>) -> bool {
        &&& ts.len() <= self.projects@.len()
        &&& forall|i: int|
            0 <= i < ts.len() ==> shape(#[trigger] self.projected(ts.reverse(), i)) is Some
    }

    pub fn forward(&self, graph: &mut Graph, input: &Vec<usize>) -> (r: Vec<usize>)
        requires
            old(graph).wf(),
            old(graph).has_all(input@),
            self.runs_on(old(graph).terms_at(input@)),
        ensures
            final(graph).provides_all(*old(graph), r@, self.of(old(graph).terms_at(input@))),
    {
        let ghost g0 = *graph;
        let ghost ts = graph.terms_at(input@);
        let n: usize = input.len();
        let mut outputs: Vec<usize> = Vec::new();
        for index in 0..n
            invariant
                n == input@.len(),
                g0.has_all(input@),
                ts == g0.terms_at(input@),
                self.runs_on(ts),
                graph.wf(),
                graph.grows(g0),
                outputs@.len() == index,
                forall|j: int|
                    0 <= j < index ==> (#[trigger] outputs@[j]) < graph.count() && graph.term(
                        outputs@[j],
                    ) == self.projected(ts.reverse(), j),
        {
            let mut branch: usize = input[n - 1 - index];
            proof {
                assert(graph.term(branch) == ts.reverse()[index as int]);
                assert(shape(self.projected(ts.reverse(), index as int)) is Some);
            }
            if index > 0 {
                let previous: usize = outputs[index - 1];
                let d = graph.dims(branch);
                let resized: usize = match self.upsample_mode {
                    HeadUpsampleMode::BilinearAligned => interpolate_bilinear_aligned(
                        graph,
                        previous,
                        d.height,
                        d.width,
                    ),
                    HeadUpsampleMode::Nearest => interpolate_nearest(
                        graph,
                        previous,
                        d.height,
                        d.width,
                    ),
                };
                proof {
                    reveal_with_fuel(shape, 3);
                }
                branch = graph.plus(branch, resized);
            }
            let out = self.projects[index].forward(graph, branch);
            outputs.push(out);
        }
        let r = reversed_of(&outputs);
        assert(graph.terms_at(r@) =~= self.of(ts));
        r
    }
}

/// A list from its last item to its first.
fn reversed_of(items: &Vec<usize>) -> (r: Vec<usize>)
    ensures
        r@ == items@.reverse(),
{
    let n: usize = items.len();
    let mut r: Vec<usize> = Vec::new();
    for i in 0..n
        invariant
            n == items@.len(),
            r@.len() == i,
            forall|j: int| 0 <= j < i ==> r@[j] == items@[n - 1 - j],
    {
        r.push(items[n - 1 - i]);
    }
    r
}

/// Hyperparameters of the backbone. `stem_mid_channels` is the width of the stem's expanded
/// branch.
#[derive(Debug)]
pub struct LiteHrNetConfig {
    pub in_channels: usize,
    pub stem_channels: usize,
    pub stem_out_channels: usize,
    pub stem_mid_channels: usize,
    pub num_modules: Vec<usize>,
    pub num_branches: Vec<usize>,
    pub num_blocks: Vec<usize>,
    pub module_type: Vec<LiteHrModuleType>,
    pub with_fuse: Vec<bool>,
    pub reduce_ratios: Vec<usize>,
    pub num_channels: Vec<Vec<usize>>,
    pub with_head: bool,
    pub head_upsample_mode: HeadUpsampleMode,
}

impl LiteHrNetConfig {
    /// Whether two configurations agree in every value.
    pub open spec fn same(self, other: LiteHrNetConfig) -> bool {
        &&& self.in_channels == other.in_channels
        &&& self.stem_channels == other.stem_channels
        &&& self.stem_out_channels == other.stem_out_channels
        &&& self.stem_mid_channels == other.stem_mid_channels
        &&& self.num_modules@ == other.num_modules@
        &&& self.num_branches@ == other.num_branches@
        &&& self.num_blocks@ == other.num_blocks@
        &&& self.module_type@ == other.module_type@
        &&& self.with_fuse@ == other.with_fuse@
        &&& self.reduce_ratios@ == other.reduce_ratios@
        &&& self.num_channels@.len() == other.num_channels@.len()
        &&& forall|s: int|
            0 <= s < self.num_channels@.len() ==> (#[trigger] self.num_channels@[s])@
                == other.num_channels@[s]@
        &&& self.with_head == other.with_head
        &&& self.head_upsample_mode == other.head_upsample_mode
    }

    /// The values of the COCO variants with the given numbers of modules.
    pub open spec fn is_coco(self, num_modules: Seq<usize>) -> bool {
        &&& self.has_coco_layout(num_modules)
        &&& self.head_upsample_mode == HeadUpsampleMode::BilinearAligned
    }

    /// The values that fix the extents of a COCO variant.
    pub open spec fn has_coco_layout(self, num_modules: Seq<usize>) -> bool {
        &&& self.in_channels == 3
        &&& self.stem_channels == 32
        &&& self.stem_out_channels == 32
        &&& self.stem_mid_channels == 32
        &&& self.num_modules@ == num_modules
        &&& self.num_branches@ == seq![2usize, 3, 4]
        &&& self.num_blocks@ == seq![2usize, 2, 2]
        &&& self.module_type@ == seq![
            LiteHrModuleType::Lite,
            LiteHrModuleType::Lite,
            LiteHrModuleType::Lite,
        ]
        &&& self.with_fuse@ == seq![true, true, true]
        &&& self.reduce_ratios@ == seq![8usize, 8, 8]
        &&& self.num_channels@.len() == 3
        &&& self.num_channels@[0]@ == seq![40usize, 80]
        &&& self.num_channels@[1]@ == seq![40usize, 80, 160]
        &&& self.num_channels@[2]@ == seq![40usize, 80, 160, 320]
        &&& self.with_head
    }

    fn coco(num_modules: Vec<usize>) -> (r: LiteHrNetConfig)
        ensures
            r.is_coco(num_modules@),
    {
        LiteHrNetConfig {
            in_channels: 3,
            stem_channels: 32,
            stem_out_channels: 32,
            stem_mid_channels: 32,
            num_modules,
            num_branches: vec![2, 3, 4],
            num_blocks: vec![2, 2, 2],
            module_type: vec![
                LiteHrModuleType::Lite,
                LiteHrModuleType::Lite,
                LiteHrModuleType::Lite,
            ],
            with_fuse: vec![true, true, true],
            reduce_ratios: vec![8, 8, 8],
            num_channels: vec![vec![40, 80], vec![40, 80, 160], vec![40, 80, 160, 320]],
            with_head: true,
            head_upsample_mode: HeadUpsampleMode::BilinearAligned,
        }
    }

    pub fn litehrnet18_coco() -> (r: LiteHrNetConfig)
        ensures
            r.is_coco(seq![2usize, 4, 2]),
    {
        let num_modules: Vec<usize> = vec![2, 4, 2];
        assert(num_modules@ =~= seq![2usize, 4, 2]);
        Self::coco(num_modules)
    }

    pub fn litehrnet30_coco() -> (r: LiteHrNetConfig)
        ensures
            r.is_coco(seq![3usize, 8, 3]),
    {
        let num_modules: Vec<usize> = vec![3, 8, 3];
        assert(num_modules@ =~= seq![3usize, 8, 3]);
        Self::coco(num_modules)
    }

    /// Channels of the branches that go into stage `s`.
    pub open spec fn channels_before(self, s: int) -> Seq<usize> {
        if s <= 0 {
            seq![self.stem_out_channels]
        } else {
            self.num_channels@[s - 1]@
        }
    }

    /// Whether stage `s` can be made.
    pub open spec fn can_make_stage(self, s: int) -> bool {
        &&& TransitionLayer::exists_between(self.channels_before(s), self.num_channels@[s]@)
        &&& Stage::can_make(
            self.num_modules@[s],
            self.num_branches@[s],
            self.num_blocks@[s],
            self.num_channels@[s]@,
            self.reduce_ratios@[s],
            self.module_type@[s],
            self.with_fuse@[s],
            true,
        )
    }

    /// The hyperparameters of stage `s` and of the step that leads to it.
    pub open spec fn stage_planned(self, transition: TransitionLayer, stage: Stage, s: int) -> bool {
        &&& transition.planned(self.channels_before(s), self.num_channels@[s]@)
        &&& stage.planned(
            self.num_modules@[s],
            self.num_blocks@[s],
            self.num_channels@[s]@,
            self.reduce_ratios@[s],
            self.module_type@[s],
            self.with_fuse@[s],
            true,
        )
    }

    /// Whether a backbone can be made: the stem has two halves, every stage has its values, and
    /// no convolution lacks channels.
    pub open spec fn can_make(self) -> bool {
        let stages = self.num_channels@.len();
        &&& 2 <= self.stem_channels <= self.stem_out_channels
        &&& self.stem_mid_channels > 0
        &&& stages <= self.num_modules@.len()
        &&& stages <= self.num_branches@.len()
        &&& stages <= self.num_blocks@.len()
        &&& stages <= self.reduce_ratios@.len()
        &&& stages <= self.module_type@.len()
        &&& stages <= self.with_fuse@.len()
        &&& forall|s: int| 0 <= s < stages ==> #[trigger] self.can_make_stage(s)
        &&& self.with_head ==> IterativeHead::can_make(self.channels_before(stages as int))
    }

    /// Plans the backbone.
    pub fn init(&self, table: &mut LayerTable) -> (r: LiteHrNet)
        requires
            old(table).wf(),
            self.can_make(),
        ensures
            r.planned(*self),
            r.config.same(*self),
            final(table).adds(*old(table), r.layers()),
    {
        let config = self.clone();
        assert(config.can_make()) by {
            lemma_same_can_make(*self, config);
        }
        let net = LiteHrNet::new(table, config);
        assert(net.planned(*self)) by {
            assert forall|s: int| 0 <= s < self.num_channels@.len() implies #[trigger] net.stage_planned(*self, s) by {
                assert(net.stage_planned(config, s));
                assert(config.num_channels@[s]@ == self.num_channels@[s]@);
                assert(config.channels_before(s) == self.channels_before(s));
            }
            let n = self.num_channels@.len() as int;
            assert(config.channels_before(n) == self.channels_before(n));
        }
        net
    }
}

/// Configurations with the same values can both be made or neither.
proof fn lemma_same_can_make(config: LiteHrNetConfig, copy: LiteHrNetConfig)
    requires
        config.can_make(),
        copy.same(config),
    ensures
        copy.can_make(),
{
    assert forall|s: int| 0 <= s < copy.num_channels@.len() implies #[trigger] copy.can_make_stage(s) by {
        assert(config.can_make_stage(s));
        assert(copy.num_channels@[s]@ == config.num_channels@[s]@);
        assert(copy.channels_before(s) == config.channels_before(s));
    }
    let n = copy.num_channels@.len() as int;
    assert(copy.channels_before(n) == config.channels_before(n));
}

impl Clone for LiteHrNetConfig {
    fn clone(&self) -> (r: LiteHrNetConfig)
        ensures
            r.same(*self),
    {
        let n: usize = self.num_channels.len();
        let mut num_channels: Vec<Vec<usize>> = Vec::new();
        for s in 0..n
            invariant
                n == self.num_channels@.len(),
                num_channels@.len() == s,
                forall|t: int|
                    0 <= t < s ==> (#[trigger] num_channels@[t])@ == self.num_channels@[t]@,
        {
            num_channels.push(copy_counts(&self.num_channels[s]));
        }
        let r = LiteHrNetConfig {
            in_channels: self.in_channels,
            stem_channels: self.stem_channels,
            stem_out_channels: self.stem_out_channels,
            stem_mid_channels: self.stem_mid_channels,
            num_modules: copy_counts(&self.num_modules),
            num_branches: copy_counts(&self.num_branches),
            num_blocks: copy_counts(&self.num_blocks),
            module_type: self.module_type.clone(),
            with_fuse: self.with_fuse.clone(),
            reduce_ratios: copy_counts(&self.reduce_ratios),
            num_channels,
            with_head: self.with_head,
            head_upsample_mode: self.head_upsample_mode,
        };
        assert(r.module_type@ =~= self.module_type@);
        assert(r.with_fuse@ =~= self.with_fuse@);
        r
    }
}

/// The layers of the first `n` stages, each with the step that leads to it.
pub open spec fn stage_layers(transitions: Seq<TransitionLayer>, stages: Seq<Stage>, n: int) -> Seq<
    ConvBnAct,
>
    decreases n,
{
    if n <= 0 {
        Seq::empty()
    } else {
        stage_layers(transitions, stages, n - 1) + transitions[n - 1].layers() + stages[n
            - 1].layers()
    }
}

/// Layers of the first stages do not depend on later ones.
proof fn lemma_stage_layers_prefix(
    transitions: Seq<TransitionLayer>,
    stages: Seq<Stage>,
    transition: TransitionLayer,
    stage: Stage,
    n: int,
)
    requires
        n <= transitions.len(),
        n <= stages.len(),
    ensures
        stage_layers(transitions.push(transition), stages.push(stage), n) == stage_layers(
            transitions,
            stages,
            n,
        ),
    decreases n,
{
    if n > 0 {
        lemma_stage_layers_prefix(transitions, stages, transition, stage, n - 1);
    }
}

/// What the first `n` stages make of the branches `ts`.
pub open spec fn stage_fold(
    transitions: Seq<TransitionLayer>,
    stages: Seq<Stage>,
    ts: Seq<Term>,
    n: int,
) -> Seq<Term>
    decreases n,
{
    if n <= 0 {
        ts
    } else {
        module_fold(
            stages[n - 1].modules@,
            transitions[n - 1].of(stage_fold(transitions, stages, ts, n - 1)),
        )
    }
}

/// Whether the first `n` stages fit the branches `ts`.
pub open spec fn stages_run(
    transitions: Seq<TransitionLayer>,
    stages: Seq<Stage>,
    ts: Seq<Term>,
    n: int,
) -> bool
    decreases n,
{
    n > 0 ==> {
        let before = stage_fold(transitions, stages, ts, n - 1);
        &&& stages_run(transitions, stages, ts, n - 1)
        &&& transitions[n - 1].runs_on(before)
        &&& modules_run(stages[n - 1].modules@, transitions[n - 1].of(before))
    }
}

/// Where stages fit, the first of them fit.
proof fn lemma_stages_run_prefix(
    transitions: Seq<TransitionLayer>,
    stages: Seq<Stage>,
    ts: Seq<Term>,
    n: int,
    m: int,
)
    requires
        0 <= m <= n,
        stages_run(transitions, stages, ts, n),
    ensures
        stages_run(transitions, stages, ts, m),
    decreases n,
{
    if m < n {
        lemma_stages_run_prefix(transitions, stages, ts, n - 1, m);
    }
}

/// The backbone: a stem, stages of parallel branches and a head.
#[derive(Debug)]
pub struct LiteHrNet {
    pub stem: Stem,
    pub transitions: Vec<TransitionLayer>,
    pub stages: Vec<Stage>,
    pub head_layer: Option<IterativeHead>,
    pub config: LiteHrNetConfig,
}

impl LiteHrNet {
    pub open spec fn layers(self) -> Seq<ConvBnAct> {
        self.stem.layers() + stage_layers(
            self.transitions@,
            self.stages@,
            self.stages@.len() as int,
        ) + match self.head_layer {
            Some(head) => head.layers(),
            None => Seq::empty(),
        }
    }

    /// The hyperparameters of stage `s`.
    pub open spec fn stage_planned(self, config: LiteHrNetConfig, s: int) -> bool {
        config.stage_planned(self.transitions@[s], self.stages@[s], s)
    }

    /// The backbone's hyperparameters.
    pub open spec fn planned(self, config: LiteHrNetConfig) -> bool {
        let n = config.num_channels@.len();
        &&& self.stem.planned(
            config.in_channels,
            config.stem_channels,
            config.stem_mid_channels,
            config.stem_out_channels,
        )
        &&& self.transitions@.len() == n
        &&& self.stages@.len() == n
        &&& forall|s: int| 0 <= s < n ==> #[trigger] self.stage_planned(config, s)
        &&& self.head_layer is Some == config.with_head
        &&& self.head_layer is Some ==> self.head_layer->0.planned(
            config.channels_before(n as int),
            config.head_upsample_mode,
        )
    }

    pub fn new(table: &mut LayerTable, config: LiteHrNetConfig) -> (r: LiteHrNet)
        requires
            old(table).wf(),
            config.can_make(),
        ensures
            r.planned(config),
            r.config == config,
            final(table).adds(*old(table), r.layers()),
    {
        let ghost t0 = table@;
        let stem = Stem::new(
            table,
            config.in_channels,
            config.stem_channels,
            config.stem_out_channels,
            config.stem_mid_channels,
        );
        let n: usize = config.num_channels.len();
        let mut transitions: Vec<TransitionLayer> = Vec::new();
        let mut stages: Vec<Stage> = Vec::new();
        let mut previous_channels: Vec<usize> = Vec::new();
        previous_channels.push(config.stem_out_channels);
        assert(previous_channels@ =~= config.channels_before(0));
        for s in 0..n
            invariant
                n == config.num_channels@.len(),
                config.can_make(),
                previous_channels@ == config.channels_before(s as int),
                table.wf(),
                table@ =~= t0 + stem.layers() + stage_layers(transitions@, stages@, s as int),
                transitions@.len() == s,
                stages@.len() == s,
                forall|p: int|
                    0 <= p < s ==> #[trigger] config.stage_planned(
                        transitions@[p],
                        stages@[p],
                        p,
                    ),
        {
            let ghost transitions0 = transitions@;
            let ghost stages0 = stages@;
            assert(config.can_make_stage(s as int));
            let current_channels: Vec<usize> = copy_counts(&config.num_channels[s]);
            let transition = TransitionLayer::new(table, &previous_channels, &current_channels);
            let stage = Stage::new(
                table,
                config.num_modules[s],
                config.num_branches[s],
                config.num_blocks[s],
                &current_channels,
                config.reduce_ratios[s],
                config.module_type[s],
                config.with_fuse[s],
                true,
            );
            transitions.push(transition);
            stages.push(stage);
            previous_channels = current_channels;
            proof {
                lemma_stage_layers_prefix(transitions0, stages0, transition, stage, s as int);
                assert(transitions@ =~= transitions0.push(transition));
                assert(stages@ =~= stages0.push(stage));
                assert forall|p: int| 0 <= p < s + 1 implies #[trigger] config.stage_planned(
                    transitions@[p],
                    stages@[p],
                    p,
                ) by {
                    if p < s {
                        assert(transitions@[p] == transitions0[p]);
                        assert(stages@[p] == stages0[p]);
                        assert(config.stage_planned(transitions0[p], stages0[p], p));
                    }
                }
            }
        }
        let head_layer: Option<IterativeHead> = if config.with_head {
            Some(IterativeHead::new(table, &previous_channels, config.head_upsample_mode))
        } else {
            None
        };
        let r = LiteHrNet { stem, transitions, stages, head_layer, config };
        assert(table@ =~= t0 + r.layers());
        assert forall|s: int| 0 <= s < n implies #[trigger] r.stage_planned(config, s) by {
            assert(config.stage_planned(r.transitions@[s], r.stages@[s], s));
        }
        r
    }

    /// Number of stages that run.
    pub open spec fn depth(self) -> int {
        least(self.transitions@.len(), self.stages@.len()) as int
    }

    /// The branches after the stages.
    pub open spec fn branches_of(self, t: Term) -> Seq<Term> {
        stage_fold(self.transitions@, self.stages@, seq![self.stem.of(t)], self.depth())
    }

    /// What the backbone makes of `t`.
    pub open spec fn features_of(self, t: Term) -> Seq<Term> {
        match self.head_layer {
            Some(head) => head.of(self.branches_of(t)),
            None => self.branches_of(t),
        }
    }

    /// Whether the backbone's operations fit `t`.
    pub open spec fn runs_on(self, t: Term) -> bool {
        &&& shape(self.stem.of(t)) is Some
        &&& stages_run(self.transitions@, self.stages@, seq![self.stem.of(t)], self.depth())
        &&& self.head_layer is Some ==> self.head_layer->0.runs_on(self.branches_of(t))
    }

    pub fn forward_features(&self, graph: &mut Graph, input: usize) -> (r: Vec<usize>)
        requires
            old(graph).wf(),
            input < old(graph).count(),
            self.runs_on(old(graph).term(input)),
        ensures
            final(graph).provides_all(*old(graph), r@, self.features_of(old(graph).term(input))),
    {
        let ghost g0 = *graph;
        let ghost t = graph.term(input);
        let stem = self.stem.forward(graph, input);
        let mut branches: Vec<usize> = Vec::new();
        branches.push(stem);
        let ghost ts = seq![self.stem.of(t)];
        assert(graph.terms_at(branches@) =~= ts);
        let n: usize = if self.transitions.len() < self.stages.len() {
            self.transitions.len()
        } else {
            self.stages.len()
        };
        for s in 0..n
            invariant
                n == self.depth(),
                stages_run(self.transitions@, self.stages@, ts, self.depth()),
                graph.provides_all(
                    g0,
                    branches@,
                    stage_fold(self.transitions@, self.stages@, ts, s as int),
                ),
        {
            proof {
                lemma_stages_run_prefix(self.transitions@, self.stages@, ts, n as int, s + 1);
            }
            let stage_input = self.transitions[s].forward(graph, &branches);
            branches = self.stages[s].forward(graph, stage_input);
        }
        match &self.head_layer {
            Some(head) => head.forward(graph, &branches),
            None => branches,
        }
    }

    pub fn forward(&self, graph: &mut Graph, input: usize) -> (r: Vec<usize>)
        requires
            old(graph).wf(),
            input < old(graph).count(),
            self.runs_on(old(graph).term(input)),
            self.features_of(old(graph).term(input)).len() > 0,
        ensures
            final(graph).provides_all(
                *old(graph),
                r@,
                seq![self.features_of(old(graph).term(input))[0]],
            ),
    {
        let ghost t = graph.term(input);
        let features = self.forward_features(graph, input);
        assert(features@.len() == graph.terms_at(features@).len());
        let mut r: Vec<usize> = Vec::new();
        r.push(features[0]);
        assert(graph.term(features@[0]) == graph.terms_at(features@)[0]);
        assert(graph.terms_at(r@) =~= seq![self.features_of(t)[0]]);
        r
    }
}

/// Hyperparameters of the pose network.
#[derive(Debug)]
pub struct LiteHrNetPoseConfig {
    pub backbone: LiteHrNetConfig,
    pub num_joints: usize,
}

impl Clone for LiteHrNetPoseConfig {
    fn clone(&self) -> (r: LiteHrNetPoseConfig)
        ensures
            r.backbone.same(self.backbone),
            r.num_joints == self.num_joints,
    {
        LiteHrNetPoseConfig { backbone: self.backbone.clone(), num_joints: self.num_joints }
    }
}

impl LiteHrNetPoseConfig {
    pub fn litehrnet18_coco() -> (r: LiteHrNetPoseConfig)
        ensures
            r.backbone.is_coco(seq![2usize, 4, 2]),
            r.num_joints == DEFAULT_POSE_JOINTS,
    {
        LiteHrNetPoseConfig {
            backbone: LiteHrNetConfig::litehrnet18_coco(),
            num_joints: DEFAULT_POSE_JOINTS,
        }
    }

    pub fn litehrnet30_coco() -> (r: LiteHrNetPoseConfig)
        ensures
            r.backbone.is_coco(seq![3usize, 8, 3]),
            r.num_joints == DEFAULT_POSE_JOINTS,
    {
        LiteHrNetPoseConfig {
            backbone: LiteHrNetConfig::litehrnet30_coco(),
            num_joints: DEFAULT_POSE_JOINTS,
        }
    }

    /// Whether a pose network can be made: the last stage has a branch.
    pub open spec fn can_make(self) -> bool {
        &&& self.backbone.can_make()
        &&& self.backbone.num_channels@.len() > 0
        &&& self.backbone.num_channels@.last()@.len() > 0
    }

    /// Plans the pose network.
    pub fn init(&self, table: &mut LayerTable) -> (r: LiteHrNetPose)
        requires
            old(table).wf(),
            self.can_make(),
        ensures
            r.planned(*self),
            r.config.backbone.same(self.backbone),
            r.config.num_joints == self.num_joints,
            final(table).adds(*old(table), r.layers()),
    {
        let backbone = self.backbone.init(table);
        let head = LiteHrNetPose::make_head(table, self);
        let r = LiteHrNetPose { backbone, head, config: self.clone() };
        assert(table@ =~= old(table)@ + r.layers());
        r
    }
}

/// The pose network: the backbone and one heatmap per joint.
#[derive(Debug)]
pub struct LiteHrNetPose {
    pub backbone: LiteHrNet,
    pub head: ConvBnAct,
    pub config: LiteHrNetPoseConfig,
}

impl LiteHrNetPose {
    pub open spec fn layers(self) -> Seq<ConvBnAct> {
        self.backbone.layers() + seq![self.head]
    }

    /// The network's hyperparameters.
    pub open spec fn planned(self, config: LiteHrNetPoseConfig) -> bool {
        &&& self.backbone.planned(config.backbone)
        &&& self.head.has_form(
            config.backbone.num_channels@.last()@[0],
            config.num_joints,
            1,
            1,
            0,
            1,
            false,
            ActivationKind::Identity,
        )
    }

    pub fn new(table: &mut LayerTable, config: LiteHrNetPoseConfig) -> (r: LiteHrNetPose)
        requires
            old(table).wf(),
            config.can_make(),
        ensures
            r.planned(config),
            r.config == config,
            final(table).adds(*old(table), r.layers()),
    {
        let backbone = config.backbone.init(table);
        let head = Self::make_head(table, &config);
        let r = LiteHrNetPose { backbone, head, config };
        assert(table@ =~= old(table)@ + r.layers());
        r
    }

    /// Plans the convolution that gives the heatmaps.
    fn make_head(table: &mut LayerTable, config: &LiteHrNetPoseConfig) -> (r: ConvBnAct)
        requires
            old(table).wf(),
            config.can_make(),
        ensures
            r.has_form(
                config.backbone.num_channels@.last()@[0],
                config.num_joints,
                1,
                1,
                0,
                1,
                false,
                ActivationKind::Identity,
            ),
            final(table).adds(*old(table), seq![r]),
    {
        let last: usize = config.backbone.num_channels.len() - 1;
        ConvBnAct::new(
            table,
            config.backbone.num_channels[last][0],
            config.num_joints,
            1,
            1,
            0,
            1,
            false,
            ActivationKind::Identity,
        )
    }

    /// What the network makes of `t`.
    pub open spec fn of(self, t: Term) -> Term {
        self.head.of(self.backbone.features_of(t)[0])
    }

    /// Whether the network's operations fit `t`.
    pub open spec fn runs_on(self, t: Term) -> bool {
        &&& self.backbone.runs_on(t)
        &&& self.backbone.features_of(t).len() > 0
        &&& shape(self.of(t)) is Some
    }

    pub fn forward(&self, graph: &mut Graph, input: usize) -> (r: usize)
        requires
            old(graph).wf(),
            input < old(graph).count(),
            self.runs_on(old(graph).term(input)),
        ensures
            final(graph).provides(*old(graph), r, self.of(old(graph).term(input))),
    {
        let ghost t = graph.term(input);
        let features = self.backbone.forward(graph, input);
        assert(graph.terms_at(features@)[0] == self.backbone.features_of(t)[0]);
        assert(features@.len() == graph.terms_at(features@).len());
        assert(graph.term(features@[0]) == graph.terms_at(features@)[0]);
        self.head.forward(graph, features[0])
    }
}

} // verus!
