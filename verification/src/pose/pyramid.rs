//! The resolutions inside the backbone: every branch has half the resolution of the one before
//! it, and every step of the network keeps that.

use vstd::prelude::*;

use crate::pose::graph::{shape, Dims, Term};
use crate::pose::layers::{total, ConditionalChannelWeighting, ConvBnAct, ShuffleUnit};
use crate::pose::model::{
    chain, lite_fold, lite_runs, module_fold, modules_run, unit_chain, units_run,
    LiteHrModule, LiteHrModuleType, Stage, TransitionLayer,
};
use crate::pose::network::{
    stage_fold, stages_run, IterativeHead, LiteHrNet, LiteHrNetConfig, LiteHrNetPose,
    LiteHrNetPoseConfig, DEFAULT_POSE_JOINTS,
};
use crate::pose::shapes::{
    branches_fit, halve, halvings, law_conditional_weighting_keeps_shapes,
    law_separable_conv_shape, law_shuffle_unit_keeps_shape, law_stem_shape, lemma_conv_1x1,
    lemma_conv_3x3, lemma_halvings_fit, plane_fits,
};

verus! {

/// The extent of branch `i` of a pyramid whose first branch has the plane of `base`.
pub open spec fn level(base: Dims, channels: usize, i: int) -> Dims {
    Dims {
        batch: base.batch,
        channels,
        height: halvings(base.height, i),
        width: halvings(base.width, i),
    }
}

/// Whether `ts` are branches with the given channels, each at half the resolution of the one
/// before it.
pub open spec fn pyramid(ts: Seq<Term>, channels: Seq<usize>, base: Dims) -> bool {
    &&& ts.len() == channels.len()
    &&& ts.len() > 0
    &&& plane_fits(base)
    &&& forall|i: int|
        0 <= i < ts.len() ==> shape(#[trigger] ts[i]) == Some(level(base, channels[i], i))
}

/// The planes of a pyramid can be convolved.
proof fn lemma_level_fits(base: Dims, channels: usize, i: int)
    requires
        plane_fits(base),
    ensures
        plane_fits(level(base, channels, i)),
{
    lemma_halvings_fit(base.height, i);
    lemma_halvings_fit(base.width, i);
}

/// The branches of a pyramid are branches of one batch.
proof fn lemma_pyramid_fits(ts: Seq<Term>, channels: Seq<usize>, base: Dims)
    requires
        pyramid(ts, channels, base),
    ensures
        branches_fit(ts, channels),
{
    assert(shape(ts[0]) == Some(level(base, channels[0], 0)));
    assert forall|i: int| 0 <= i < ts.len() implies {
        &&& shape(#[trigger] ts[i]) is Some
        &&& shape(ts[i])->0.channels == channels[i]
        &&& shape(ts[i])->0.batch == shape(ts[0])->0.batch
        &&& plane_fits(shape(ts[i])->0)
    } by {
        lemma_level_fits(base, channels[i], i);
    }
}

/// Whether `ops` halve the plane `steps` times and end with `target` channels.
pub open spec fn halves_steps(ops: Seq<ConvBnAct>, source: usize, target: usize, steps: int) -> bool {
    &&& ops.len() == 2 * steps
    &&& forall|d: int| 0 <= d < steps ==> (#[trigger] ops[2 * d]).is_depthwise(source, 2)
    &&& forall|d: int|
        0 <= d < steps ==> (#[trigger] ops[2 * d + 1]).is_pointwise(
            source,
            if d + 1 == steps {
                target
            } else {
                source
            },
            ops[2 * d + 1].act,
        )
}

/// The extent after the first `k` halvings of such a chain.
proof fn lemma_halving_chain(
    ops: Seq<ConvBnAct>,
    source: usize,
    target: usize,
    steps: int,
    k: int,
    t: Term,
    base: Dims,
    i: int,
)
    requires
        halves_steps(ops, source, target, steps),
        0 <= k <= steps,
        0 <= i,
        plane_fits(base),
        shape(t) == Some(level(base, source, i)),
    ensures
        shape(chain(ops.take(2 * k), t)) == Some(
            level(
                base,
                if k == steps && steps > 0 {
                    target
                } else {
                    source
                },
                i + k,
            ),
        ),
    decreases k,
{
    if k == 0 {
        assert(ops.take(0) =~= Seq::<ConvBnAct>::empty());
    } else {
        let d = k - 1;
        lemma_halving_chain(ops, source, target, steps, d, t, base, i);
        let before = chain(ops.take(2 * d), t);
        let shape_before = level(base, source, i + d);
        lemma_level_fits(base, source, i + d);
        let depthwise = ops[2 * d];
        let pointwise = ops[2 * d + 1];
        assert(depthwise.is_depthwise(source, 2));
        lemma_conv_3x3(depthwise, before, shape_before);
        lemma_level_fits(base, source, i + k);
        assert(halvings(base.height, i + k) == halve(halvings(base.height, i + d)));
        assert(halvings(base.width, i + k) == halve(halvings(base.width, i + d)));
        lemma_conv_1x1(pointwise, depthwise.of(before), level(base, source, i + k));
        assert(ops.take(2 * k).drop_last() =~= ops.take(2 * d + 1));
        assert(ops.take(2 * d + 1).drop_last() =~= ops.take(2 * d));
        assert(ops.take(2 * k).last() == pointwise);
        assert(ops.take(2 * d + 1).last() == depthwise);
        assert(chain(ops.take(2 * d + 1), t) == depthwise.of(before));
        assert(chain(ops.take(2 * k), t) == pointwise.of(depthwise.of(before)));
    }
}

/// A step between stages turns a pyramid into a pyramid.
pub proof fn law_transition_keeps_pyramid(
    layer: TransitionLayer,
    previous: Seq<usize>,
    current: Seq<usize>,
    ts: Seq<Term>,
    base: Dims,
)
    requires
        layer.planned(previous, current),
        current.len() > 0,
        pyramid(ts, previous, base),
    ensures
        layer.runs_on(ts),
        pyramid(layer.of(ts), current, base),
{
    let p = previous.len() as int;
    assert forall|i: int| 0 <= i < current.len() implies shape(#[trigger] layer.of(ts)[i]) == Some(
        level(base, current[i], i),
    ) by {
        let branch = layer.branches@[i];
        assert(TransitionLayer::branch_planned(branch, previous, current, i));
        let ops = branch.ops@;
        if i < p {
            let t = ts[i];
            lemma_level_fits(base, previous[i], i);
            assert(shape(t) == Some(level(base, previous[i], i)));
            if current[i] != previous[i] {
                lemma_conv_3x3(ops[0], t, level(base, previous[i], i));
                lemma_conv_1x1(ops[1], ops[0].of(t), level(base, previous[i], i));
                assert(ops.drop_last().drop_last() =~= Seq::<ConvBnAct>::empty());
                assert(ops.drop_last().last() == ops[0]);
                reveal_with_fuel(chain, 3);
                assert(chain(ops, t) == ops[1].of(ops[0].of(t)));
            }
        } else {
            let steps = i + 1 - p;
            assert(halves_steps(ops, previous.last(), current[i], steps)) by {
                assert(branch.descends(previous.last(), current[i], steps));
            }
            lemma_halving_chain(
                ops,
                previous.last(),
                current[i],
                steps,
                steps,
                ts[p - 1],
                base,
                p - 1,
            );
            assert(ops.take(2 * steps) =~= ops);
        }
    }
}

/// A list of weighting blocks keeps a pyramid.
proof fn lemma_lite_keeps_pyramid(
    blocks: Seq<ConditionalChannelWeighting>,
    channels: Seq<usize>,
    reduce_ratio: usize,
    ts: Seq<Term>,
    base: Dims,
)
    requires
        forall|b: int|
            0 <= b < blocks.len() ==> (#[trigger] blocks[b]).planned(channels, 1, reduce_ratio),
        blocks.len() > 0 ==> ConditionalChannelWeighting::splits(channels) && total(channels)
            <= usize::MAX,
        pyramid(ts, channels, base),
    ensures
        lite_runs(blocks, ts),
        pyramid(lite_fold(blocks, ts), channels, base),
    decreases blocks.len(),
{
    if blocks.len() > 0 {
        let before = lite_fold(blocks.drop_last(), ts);
        assert forall|b: int| 0 <= b < blocks.drop_last().len() implies (
        #[trigger] blocks.drop_last()[b]).planned(channels, 1, reduce_ratio) by {
            assert(blocks.drop_last()[b] == blocks[b]);
        }
        lemma_lite_keeps_pyramid(blocks.drop_last(), channels, reduce_ratio, ts, base);
        lemma_pyramid_fits(before, channels, base);
        assert(blocks[blocks.len() - 1].planned(channels, 1, reduce_ratio));
        law_conditional_weighting_keeps_shapes(blocks.last(), channels, reduce_ratio, before);
    }
}

/// A list of shuffle units keeps the shape of its branch.
proof fn lemma_units_keep_shape(
    units: Seq<ShuffleUnit>,
    num_blocks: usize,
    channels: usize,
    t: Term,
    d: Dims,
)
    requires
        forall|b: int|
            0 <= b < units.len() ==> (#[trigger] units[b]).planned(channels, channels, 1),
        units.len() > 0 ==> channels >= 2 && channels % 2 == 0,
        shape(t) == Some(d),
        d.channels == channels,
        plane_fits(d),
    ensures
        units_run(units, t),
        shape(unit_chain(units, t)) == Some(d),
    decreases units.len(),
{
    if units.len() > 0 {
        assert forall|b: int| 0 <= b < units.drop_last().len() implies (
        #[trigger] units.drop_last()[b]).planned(channels, channels, 1) by {
            assert(units.drop_last()[b] == units[b]);
        }
        lemma_units_keep_shape(units.drop_last(), num_blocks, channels, t, d);
        assert(units[units.len() - 1].planned(channels, channels, 1));
        law_shuffle_unit_keeps_shape(units.last(), channels, unit_chain(units.drop_last(), t), d);
    }
}

/// The blocks of a module keep a pyramid.
pub proof fn lemma_blocks_keep_pyramid(
    module: LiteHrModule,
    num_blocks: usize,
    channels: Seq<usize>,
    reduce_ratio: usize,
    module_type: LiteHrModuleType,
    multiscale_output: bool,
    with_fuse: bool,
    ts: Seq<Term>,
    base: Dims,
)
    requires
        module.planned(num_blocks, channels, reduce_ratio, module_type, multiscale_output, with_fuse),
        LiteHrModule::can_make(
            num_blocks,
            channels,
            reduce_ratio,
            module_type,
            multiscale_output,
            with_fuse,
        ),
        pyramid(ts, channels, base),
    ensures
        module.blocks_run(ts),
        pyramid(module.blocks_of(ts), channels, base),
{
    match module_type {
        LiteHrModuleType::Lite => {
            lemma_lite_keeps_pyramid(module.lite_layers@, channels, reduce_ratio, ts, base);
        },
        LiteHrModuleType::Naive => {
            assert forall|i: int| 0 <= i < channels.len() implies {
                &&& units_run(#[trigger] module.naive_layers@[i]@, ts[i])
                &&& shape(unit_chain(module.naive_layers@[i]@, ts[i])) == Some(
                    level(base, channels[i], i),
                )
            } by {
                assert(LiteHrModule::units_planned(
                    module.naive_layers@[i]@,
                    num_blocks,
                    channels[i],
                ));
                lemma_level_fits(base, channels[i], i);
                assert(num_blocks > 0 ==> 2 <= channels[i] && channels[i] % 2 == 0);
                assert(shape(ts[i]) == Some(level(base, channels[i], i)));
                lemma_units_keep_shape(
                    module.naive_layers@[i]@,
                    num_blocks,
                    channels[i],
                    ts[i],
                    level(base, channels[i], i),
                );
            }
            let outs = module.blocks_of(ts);
            assert forall|i: int| 0 <= i < outs.len() implies shape(#[trigger] outs[i]) == Some(
                level(base, channels[i], i),
            ) by {
                assert(units_run(module.naive_layers@[i]@, ts[i]));
            }
        },
    }
}

/// What branch `input` contributes to branch `output` has the extent of branch `output`.
pub proof fn lemma_contribution(
    module: LiteHrModule,
    channels: Seq<usize>,
    outs: Seq<Term>,
    base: Dims,
    output: int,
    input: int,
)
    requires
        pyramid(outs, channels, base),
        0 <= output < module.fuse_layers@.len(),
        output < channels.len(),
        0 <= input < channels.len(),
        LiteHrModule::row_planned(module.fuse_layers@[output]@, channels, output),
    ensures
        shape(module.contribution(outs, output, input)) == Some(
            level(base, channels[output], output),
        ),
{
    let layer = module.fuse_layers@[output]@[input];
    let ops = layer.ops@;
    assert(layer.planned(channels, output, input));
    assert(shape(outs[output]) == Some(level(base, channels[output], output)));
    assert(shape(outs[input]) == Some(level(base, channels[input], input)));
    lemma_level_fits(base, channels[input], input);
    if input > output {
        assert(ops.drop_last() =~= Seq::<ConvBnAct>::empty());
        reveal_with_fuel(chain, 2);
        assert(chain(ops, outs[input]) == ops[0].of(outs[input]));
        lemma_conv_1x1(ops[0], outs[input], level(base, channels[input], input));
    } else {
        let steps = output - input;
        assert(halves_steps(ops, channels[input], channels[output], steps));
        lemma_halving_chain(
            ops,
            channels[input],
            channels[output],
            steps,
            steps,
            outs[input],
            base,
            input,
        );
        assert(ops.take(2 * steps) =~= ops);
    }
}

/// The sum of branches for branch `output` has the extent of branch `output`.
proof fn lemma_fused_sum(
    module: LiteHrModule,
    channels: Seq<usize>,
    outs: Seq<Term>,
    base: Dims,
    output: int,
    n: int,
)
    requires
        pyramid(outs, channels, base),
        0 <= output < module.fuse_layers@.len(),
        output < channels.len(),
        0 <= n <= channels.len(),
        LiteHrModule::row_planned(module.fuse_layers@[output]@, channels, output),
    ensures
        shape(module.fused_sum(outs, output, n)) == Some(level(base, channels[output], output)),
    decreases n,
{
    let d = level(base, channels[output], output);
    if n == 0 {
        if output > 0 {
            lemma_contribution(module, channels, outs, base, output, 0);
        } else {
            assert(shape(outs[0]) == Some(level(base, channels[0], 0)));
        }
    } else {
        lemma_fused_sum(module, channels, outs, base, output, n - 1);
        if output == n - 1 {
            assert(shape(outs[n - 1]) == Some(d));
        } else {
            lemma_contribution(module, channels, outs, base, output, n - 1);
        }
    }
}

/// The channels of the branches that a module or a stage puts out.
pub open spec fn put_out(channels: Seq<usize>, all: bool) -> Seq<usize> {
    if all {
        channels
    } else {
        channels.take(1)
    }
}

/// A module runs on every pyramid with its channels, and puts out all of it or its first branch.
pub proof fn law_module_keeps_pyramid(
    module: LiteHrModule,
    num_blocks: usize,
    channels: Seq<usize>,
    reduce_ratio: usize,
    module_type: LiteHrModuleType,
    multiscale_output: bool,
    with_fuse: bool,
    ts: Seq<Term>,
    base: Dims,
)
    requires
        module.planned(num_blocks, channels, reduce_ratio, module_type, multiscale_output, with_fuse),
        LiteHrModule::can_make(
            num_blocks,
            channels,
            reduce_ratio,
            module_type,
            multiscale_output,
            with_fuse,
        ),
        pyramid(ts, channels, base),
    ensures
        module.runs_on(ts),
        pyramid(module.of(ts), put_out(channels, multiscale_output), base),
{
    lemma_blocks_keep_pyramid(
        module,
        num_blocks,
        channels,
        reduce_ratio,
        module_type,
        multiscale_output,
        with_fuse,
        ts,
        base,
    );
    let outs = module.blocks_of(ts);
    assert(channels.take(1)[0] == channels[0]);
    assert(shape(outs[0]) == Some(level(base, channels[0], 0)));
    if channels.len() == 1 {
        assert(channels.take(1) =~= channels);
        if module_type == LiteHrModuleType::Naive {
            assert(units_run(module.naive_layers@[0]@, ts[0]));
            assert(module.of(ts) =~= outs);
        }
    } else if module.fuses() {
        let rows = module.fuse_layers@;
        assert forall|o: int| 0 <= o < rows.len() implies shape(#[trigger] module.fused(outs, o))
            == Some(level(base, channels[o], o)) by {
            assert(LiteHrModule::row_planned(rows[o]@, channels, o));
            lemma_fused_sum(module, channels, outs, base, o, channels.len() as int);
        }
        assert forall|o: int| 0 <= o < rows.len() implies {
            &&& channels.len() <= (#[trigger] rows[o])@.len()
            &&& o > 0 ==> rows[o]@.len() > 0
            &&& shape(module.fused(outs, o)) is Some
        } by {
            assert(LiteHrModule::row_planned(rows[o]@, channels, o));
        }
        let of = module.of(ts);
        assert forall|o: int| 0 <= o < of.len() implies shape(#[trigger] of[o]) == Some(
            level(base, put_out(channels, multiscale_output)[o], o),
        ) by {
            assert(of[o] == module.fused(outs, o));
        }
    }
}

/// A list of modules keeps a pyramid, up to the last, which may put out its first branch alone.
proof fn lemma_modules_keep_pyramid(
    modules: Seq<LiteHrModule>,
    num_modules: int,
    num_blocks: usize,
    channels: Seq<usize>,
    reduce_ratio: usize,
    module_type: LiteHrModuleType,
    with_fuse: bool,
    multiscale_output: bool,
    ts: Seq<Term>,
    base: Dims,
)
    requires
        modules.len() <= num_modules,
        forall|m: int|
            0 <= m < modules.len() ==> (#[trigger] modules[m]).planned(
                num_blocks,
                channels,
                reduce_ratio,
                module_type,
                Stage::puts_out_all(multiscale_output, m, num_modules),
                with_fuse,
            ),
        forall|m: int|
            0 <= m < num_modules ==> LiteHrModule::can_make(
                num_blocks,
                channels,
                reduce_ratio,
                module_type,
                #[trigger] Stage::puts_out_all(multiscale_output, m, num_modules),
                with_fuse,
            ),
        pyramid(ts, channels, base),
    ensures
        modules_run(modules, ts),
        pyramid(
            module_fold(modules, ts),
            put_out(channels, multiscale_output || modules.len() < num_modules || num_modules == 0),
            base,
        ),
    decreases modules.len(),
{
    if modules.len() > 0 {
        let m = modules.len() - 1;
        assert forall|k: int| 0 <= k < m implies (#[trigger] modules.drop_last()[k]).planned(
            num_blocks,
            channels,
            reduce_ratio,
            module_type,
            Stage::puts_out_all(multiscale_output, k, num_modules),
            with_fuse,
        ) by {
            assert(modules.drop_last()[k] == modules[k]);
        }
        lemma_modules_keep_pyramid(
            modules.drop_last(),
            num_modules,
            num_blocks,
            channels,
            reduce_ratio,
            module_type,
            with_fuse,
            multiscale_output,
            ts,
            base,
        );
        assert(modules[m].planned(
            num_blocks,
            channels,
            reduce_ratio,
            module_type,
            Stage::puts_out_all(multiscale_output, m, num_modules),
            with_fuse,
        ));
        law_module_keeps_pyramid(
            modules[m],
            num_blocks,
            channels,
            reduce_ratio,
            module_type,
            Stage::puts_out_all(multiscale_output, m, num_modules),
            with_fuse,
            module_fold(modules.drop_last(), ts),
            base,
        );
    }
}

/// A stage runs on every pyramid with its channels, and puts out all of it or, where its last
/// module does so, its first branch.
pub proof fn law_stage_keeps_pyramid(
    stage: Stage,
    num_modules: usize,
    num_branches: usize,
    num_blocks: usize,
    channels: Seq<usize>,
    reduce_ratio: usize,
    module_type: LiteHrModuleType,
    with_fuse: bool,
    multiscale_output: bool,
    ts: Seq<Term>,
    base: Dims,
)
    requires
        stage.planned(
            num_modules,
            num_blocks,
            channels,
            reduce_ratio,
            module_type,
            with_fuse,
            multiscale_output,
        ),
        Stage::can_make(
            num_modules,
            num_branches,
            num_blocks,
            channels,
            reduce_ratio,
            module_type,
            with_fuse,
            multiscale_output,
        ),
        pyramid(ts, channels, base),
    ensures
        modules_run(stage.modules@, ts),
        pyramid(
            module_fold(stage.modules@, ts),
            put_out(channels, multiscale_output || num_modules == 0),
            base,
        ),
{
    lemma_modules_keep_pyramid(
        stage.modules@,
        num_modules as int,
        num_blocks,
        channels,
        reduce_ratio,
        module_type,
        with_fuse,
        multiscale_output,
        ts,
        base,
    );
}

/// Channels of output `i` of a head: those of the branch before it, and the first keeps its own.
pub open spec fn head_channels(channels: Seq<usize>, i: int) -> usize {
    if i == 0 {
        channels[0]
    } else {
        channels[i - 1]
    }
}

/// Output `i` of a head, counted from the last branch.
proof fn lemma_projected(
    head: IterativeHead,
    channels: Seq<usize>,
    ts: Seq<Term>,
    base: Dims,
    i: int,
)
    requires
        head.planned(channels, head.upsample_mode),
        pyramid(ts, channels, base),
        0 <= i < ts.len(),
    ensures
        shape(head.projected(ts.reverse(), i)) == Some(
            level(base, head_channels(channels, ts.len() - 1 - i), ts.len() - 1 - i),
        ),
    decreases i,
{
    let n = ts.len() as int;
    let j = n - 1 - i;
    let rev = ts.reverse();
    let d = level(base, channels[j], j);
    assert(rev[i] == ts[j]);
    assert(shape(ts[j]) == Some(d));
    lemma_level_fits(base, channels[j], j);
    assert(IterativeHead::project_planned(head.projects@[i], channels.reverse(), i));
    assert(channels.reverse()[i] == channels[j]);
    let out = if i + 1 == n {
        channels.reverse()[i]
    } else {
        channels.reverse()[i + 1]
    };
    assert(out == head_channels(channels, j));
    if i == 0 {
        law_separable_conv_shape(head.projects@[i], channels[j], out, rev[i], d);
    } else {
        lemma_projected(head, channels, ts, base, i - 1);
        let previous = head.projected(rev, i - 1);
        let joined = Term::Plus(
            Box::new(rev[i]),
            Box::new(head.resized(previous, d.height, d.width)),
        );
        assert(shape(head.resized(previous, d.height, d.width)) == Some(d));
        assert(shape(joined) == Some(d));
        law_separable_conv_shape(head.projects@[i], channels[j], out, joined, d);
    }
}

/// A head runs on every pyramid with its channels. Each output has the plane of its branch and
/// the channels of the branch before it.
pub proof fn law_head_shapes(
    head: IterativeHead,
    channels: Seq<usize>,
    ts: Seq<Term>,
    base: Dims,
)
    requires
        head.planned(channels, head.upsample_mode),
        pyramid(ts, channels, base),
    ensures
        head.runs_on(ts),
        head.of(ts).len() == ts.len(),
        forall|i: int|
            0 <= i < ts.len() ==> shape(#[trigger] head.of(ts)[i]) == Some(
                level(base, head_channels(channels, i), i),
            ),
{
    assert forall|i: int| 0 <= i < ts.len() implies shape(
        #[trigger] head.projected(ts.reverse(), i),
    ) is Some by {
        lemma_projected(head, channels, ts, base, i);
    }
    assert forall|i: int| 0 <= i < ts.len() implies shape(#[trigger] head.of(ts)[i]) == Some(
        level(base, head_channels(channels, i), i),
    ) by {
        lemma_projected(head, channels, ts, base, ts.len() - 1 - i);
    }
}

/// The configurations of backbones that run: they can be made, the stem's channels are even, and
/// every stage has a branch.
pub open spec fn runnable(config: LiteHrNetConfig) -> bool {
    &&& config.can_make()
    &&& config.stem_channels % 2 == 0
    &&& config.stem_out_channels % 2 == 0
    &&& forall|s: int|
        0 <= s < config.num_channels@.len() ==> (#[trigger] config.num_channels@[s])@.len() > 0
}

/// The plane after the stem.
pub open spec fn quarter(d: Dims) -> Dims {
    d.over(halvings(d.height, 2), halvings(d.width, 2))
}

/// The stages of a backbone keep the pyramid.
proof fn lemma_stages_keep_pyramid(
    net: LiteHrNet,
    config: LiteHrNetConfig,
    ts: Seq<Term>,
    base: Dims,
    n: int,
)
    requires
        runnable(config),
        net.planned(config),
        0 <= n <= config.num_channels@.len(),
        pyramid(ts, seq![config.stem_out_channels], base),
    ensures
        stages_run(net.transitions@, net.stages@, ts, n),
        pyramid(
            stage_fold(net.transitions@, net.stages@, ts, n),
            config.channels_before(n),
            base,
        ),
    decreases n,
{
    if n > 0 {
        let s = n - 1;
        lemma_stages_keep_pyramid(net, config, ts, base, s);
        let before = stage_fold(net.transitions@, net.stages@, ts, s);
        assert(net.stage_planned(config, s));
        assert(config.can_make_stage(s));
        assert(config.num_channels@[s]@.len() > 0);
        law_transition_keeps_pyramid(
            net.transitions@[s],
            config.channels_before(s),
            config.num_channels@[s]@,
            before,
            base,
        );
        law_stage_keeps_pyramid(
            net.stages@[s],
            config.num_modules@[s],
            config.num_branches@[s],
            config.num_blocks@[s],
            config.num_channels@[s]@,
            config.reduce_ratios@[s],
            config.module_type@[s],
            config.with_fuse@[s],
            true,
            net.transitions@[s].of(before),
            base,
        );
    }
}

/// Channels of feature `i` of a backbone.
pub open spec fn feature_channels(config: LiteHrNetConfig, i: int) -> usize {
    let last = config.channels_before(config.num_channels@.len() as int);
    if config.with_head {
        head_channels(last, i)
    } else {
        last[i]
    }
}

/// A backbone runs on every image with its number of channels. Feature `i` has a quarter of the
/// resolution, halved `i` times more.
pub proof fn law_backbone_shapes(net: LiteHrNet, config: LiteHrNetConfig, t: Term, d: Dims)
    requires
        runnable(config),
        net.planned(config),
        shape(t) == Some(d),
        d.channels == config.in_channels,
        plane_fits(d),
    ensures
        net.runs_on(t),
        net.features_of(t).len() == config.channels_before(
            config.num_channels@.len() as int,
        ).len(),
        net.features_of(t).len() > 0,
        forall|i: int|
            0 <= i < net.features_of(t).len() ==> shape(#[trigger] net.features_of(t)[i]) == Some(
                level(quarter(d), feature_channels(config, i), i),
            ),
{
    let base = quarter(d);
    lemma_halvings_fit(d.height, 2);
    lemma_halvings_fit(d.width, 2);
    law_stem_shape(
        net.stem,
        config.in_channels,
        config.stem_channels,
        config.stem_mid_channels,
        config.stem_out_channels,
        t,
        d,
    );
    let ts = seq![net.stem.of(t)];
    assert(pyramid(ts, seq![config.stem_out_channels], base));
    let n = config.num_channels@.len() as int;
    lemma_stages_keep_pyramid(net, config, ts, base, n);
    assert(net.depth() == n);
    if config.with_head {
        law_head_shapes(net.head_layer->0, config.channels_before(n), net.branches_of(t), base);
    }
}

/// A pose network runs on every image with its number of channels, and puts out one heatmap per
/// joint at a quarter of the resolution.
pub proof fn law_pose_heatmap_shape(
    net: LiteHrNetPose,
    config: LiteHrNetPoseConfig,
    t: Term,
    d: Dims,
)
    requires
        runnable(config.backbone),
        config.can_make(),
        net.planned(config),
        shape(t) == Some(d),
        d.channels == config.backbone.in_channels,
        plane_fits(d),
    ensures
        net.runs_on(t),
        shape(net.of(t)) == Some(
            Dims {
                batch: d.batch,
                channels: config.num_joints,
                height: halvings(d.height, 2),
                width: halvings(d.width, 2),
            },
        ),
{
    law_backbone_shapes(net.backbone, config.backbone, t, d);
    let feature = net.backbone.features_of(t)[0];
    let n = config.backbone.num_channels@.len() as int;
    assert(config.backbone.channels_before(n) == config.backbone.num_channels@.last()@);
    let df = level(quarter(d), config.backbone.num_channels@.last()@[0], 0);
    assert(shape(feature) == Some(df));
    lemma_halvings_fit(d.height, 2);
    lemma_halvings_fit(d.width, 2);
    lemma_conv_1x1(net.head, feature, df);
}

/// The COCO configurations can be made and run, whichever way their head resizes.
pub proof fn law_coco_runs(config: LiteHrNetConfig, num_modules: Seq<usize>)
    requires
        config.has_coco_layout(num_modules),
        num_modules.len() == 3,
    ensures
        runnable(config),
{
    let channels = config.num_channels@;
    assert forall|s: int| 0 <= s < channels.len() implies #[trigger] config.can_make_stage(s) && (
    #[trigger] channels[s])@.len() > 0 by {
        lemma_coco_total(channels[s]@);
        if s == 0 {
            assert(config.channels_before(0) =~= seq![32usize]);
        } else {
            assert(config.channels_before(s) == channels[s - 1]@);
        }
    }
    assert(config.channels_before(3) == channels[2]@);
}

/// The channels of the COCO stages add up to little.
proof fn lemma_coco_total(channels: Seq<usize>)
    requires
        channels.len() <= 4,
        forall|i: int| 0 <= i < channels.len() ==> #[trigger] channels[i] <= 320,
    ensures
        total(channels) <= 320 * channels.len(),
    decreases channels.len(),
{
    if channels.len() > 0 {
        lemma_coco_total(channels.drop_last());
    }
}

/// A COCO pose network maps an image of three channels to seventeen heatmaps at a quarter of its
/// resolution.
pub proof fn law_coco_heatmap_shape(
    net: LiteHrNetPose,
    config: LiteHrNetPoseConfig,
    num_modules: Seq<usize>,
    t: Term,
    d: Dims,
)
    requires
        config.backbone.has_coco_layout(num_modules),
        num_modules.len() == 3,
        config.num_joints == DEFAULT_POSE_JOINTS,
        net.planned(config),
        shape(t) == Some(d),
        d.channels == 3,
        plane_fits(d),
    ensures
        net.runs_on(t),
        shape(net.of(t)) == Some(
            Dims {
                batch: d.batch,
                channels: 17,
                height: halvings(d.height, 2),
                width: halvings(d.width, 2),
            },
        ),
{
    law_coco_runs(config.backbone, num_modules);
    law_pose_heatmap_shape(net, config, t, d);
}

} // verus!
