//! What the layers of the network are: the kernels, strides, groups and activations that its parts
//! are planned with.

use vstd::prelude::*;

use crate::pose::layers::{
    spatial_layers, total, ActivationKind, ConditionalChannelWeighting, ConvBnAct,
    CrossResolutionWeighting, DepthwiseSeparableConv, LayerTable, ShuffleUnit, SpatialWeighting,
    Stem,
};
use crate::pose::model::{
    fuse_layers_of, fuse_row_layers, lite_layers_of, module_layers, naive_layers_of,
    transition_layers, unit_layers, FuseLayer, HeadUpsampleMode, LiteHrModule, LiteHrModuleType,
    Stage, TransitionBranch, TransitionLayer,
};
use crate::pose::network::{
    project_layers, stage_layers, IterativeHead, LiteHrNet, LiteHrNetConfig, LiteHrNetPose,
    LiteHrNetPoseConfig,
};

verus! {

/// Whether a layer convolves every channel on its own, with a kernel of three by three pixels that
/// reaches one pixel over the edge, a batch norm and no activation.
pub open spec fn convolves_channels(layer: ConvBnAct, channels: usize, stride: usize) -> bool {
    layer == ConvBnAct {
        slot: layer.slot,
        in_channels: channels,
        out_channels: channels,
        kernel_size: 3,
        stride,
        padding: 1,
        groups: channels,
        with_bn: true,
        act: ActivationKind::Identity,
    }
}

/// Whether a layer mixes the channels of every pixel on its own.
pub open spec fn mixes_channels(
    layer: ConvBnAct,
    in_channels: usize,
    out_channels: usize,
    with_bn: bool,
    act: ActivationKind,
) -> bool {
    layer == ConvBnAct {
        slot: layer.slot,
        in_channels,
        out_channels,
        kernel_size: 1,
        stride: 1,
        padding: 0,
        groups: 1,
        with_bn,
        act,
    }
}

/// The layers of a stem: a convolution of the whole image at stride two; for the first half of its
/// channels a convolution of each at stride two and a mixing one; for the second half a mixing
/// one, a convolution of each at stride two and another mixing one.
pub proof fn law_stem_plan(
    stem: Stem,
    in_channels: usize,
    stem_channels: usize,
    mid_channels: usize,
    out_channels: usize,
)
    requires
        stem.planned(in_channels, stem_channels, mid_channels, out_channels),
        2 <= stem_channels <= out_channels,
    ensures
        ({
            let half = (stem_channels / 2) as usize;
            let relu = ActivationKind::Relu;
            &&& stem.conv1 == ConvBnAct {
                slot: stem.conv1.slot,
                in_channels,
                out_channels: stem_channels,
                kernel_size: 3,
                stride: 2,
                padding: 1,
                groups: 1,
                with_bn: true,
                act: ActivationKind::Relu,
            }
            &&& convolves_channels(stem.branch1_depthwise, half, 2)
            &&& mixes_channels(
                stem.branch1_pointwise,
                half,
                stem.branch1_pointwise.out_channels,
                true,
                relu,
            )
            &&& mixes_channels(stem.expand_conv, half, mid_channels, true, relu)
            &&& convolves_channels(stem.depthwise_conv, mid_channels, 2)
            &&& mixes_channels(
                stem.linear_conv,
                mid_channels,
                stem.linear_conv.out_channels,
                true,
                relu,
            )
            &&& stem.branch1_pointwise.out_channels + stem.linear_conv.out_channels == out_channels
            &&& stem_channels == out_channels ==> stem.linear_conv.out_channels == half
            &&& stem_channels != out_channels ==> stem.linear_conv.out_channels == stem_channels
            &&& stem.out_channels == out_channels
        }),
{
}

/// The layers that weight channels squeeze them by the ratio, to one at least, and stretch them
/// again; the first is rectified, the second gives weights between zero and one.
pub proof fn law_spatial_weighting_plan(block: SpatialWeighting, channels: usize, ratio: usize)
    requires
        block.planned(channels, ratio),
        ratio > 0,
    ensures
        ({
            let mid = block.conv1.out_channels;
            &&& mid == channels / ratio || (mid == 1 && channels < ratio)
            &&& mid >= 1
            &&& mixes_channels(block.conv1, channels, mid, false, ActivationKind::Relu)
            &&& mixes_channels(block.conv2, mid, channels, false, ActivationKind::Sigmoid)
        }),
{
    let q = channels as int / ratio as int;
    vstd::arithmetic::div_mod::lemma_fundamental_div_mod(channels as int, ratio as int);
    assert(q < 1 ==> channels < ratio) by (nonlinear_arith)
        requires
            channels == ratio * q + channels as int % ratio as int,
            0 <= channels as int % ratio as int,
            channels as int % (ratio as int) < ratio,
            q >= 0,
    ;
}

/// The layers that weight across resolutions squeeze the channels of all branches by the ratio, to
/// one at least, and stretch them again, with batch norms.
pub proof fn law_cross_resolution_weighting_plan(
    block: CrossResolutionWeighting,
    channels: Seq<usize>,
    ratio: usize,
)
    requires
        block.planned(channels, ratio),
        0 <= total(channels) <= usize::MAX,
        ratio > 0,
    ensures
        ({
            let all = total(channels) as usize;
            let mid = block.conv1.out_channels;
            &&& block.channels@ == channels
            &&& mid == all / ratio || (mid == 1 && all < ratio)
            &&& mid >= 1
            &&& mixes_channels(block.conv1, all, mid, true, ActivationKind::Relu)
            &&& mixes_channels(block.conv2, mid, all, true, ActivationKind::Sigmoid)
        }),
{
    let all = total(channels);
    let q = all / ratio as int;
    vstd::arithmetic::div_mod::lemma_fundamental_div_mod(all, ratio as int);
    assert(q < 1 ==> all < ratio) by (nonlinear_arith)
        requires
            all == ratio * q + all % ratio as int,
            0 <= all % ratio as int,
            all % (ratio as int) < ratio,
            q >= 0,
    ;
}

/// A weighting block works on half of the channels of every branch: it weights them across
/// resolutions, convolves each of them, and weights them with a quarter as many in between.
pub proof fn law_conditional_weighting_plan(
    block: ConditionalChannelWeighting,
    in_channels: Seq<usize>,
    stride: usize,
    reduce_ratio: usize,
    i: int,
)
    requires
        block.planned(in_channels, stride, reduce_ratio),
        0 <= i < in_channels.len(),
    ensures
        block.cross_resolution_weighting.channels@.len() == in_channels.len(),
        block.cross_resolution_weighting.channels@[i] == in_channels[i] / 2,
        block.cross_resolution_weighting.planned(
            block.cross_resolution_weighting.channels@,
            reduce_ratio,
        ),
        block.depthwise_convs@.len() == in_channels.len(),
        block.spatial_weighting@.len() == in_channels.len(),
        convolves_channels(block.depthwise_convs@[i], (in_channels[i] / 2) as usize, stride),
        block.spatial_weighting@[i].planned((in_channels[i] / 2) as usize, 4),
{
    assert(block.depthwise_convs@[i].is_depthwise(in_channels[i] / 2, stride));
    assert(block.spatial_weighting@[i].planned(in_channels[i] / 2, 4));
}

/// The layers of a shuffle unit: a mixing one, a convolution of each channel at its stride, and
/// another mixing one; at larger strides also a convolution of each channel and a mixing one for
/// the channels that would otherwise pass.
pub proof fn law_shuffle_unit_plan(
    unit: ShuffleUnit,
    in_channels: usize,
    out_channels: usize,
    stride: usize,
)
    requires
        unit.planned(in_channels, out_channels, stride),
    ensures
        ({
            let half = (out_channels / 2) as usize;
            let relu = ActivationKind::Relu;
            let worked = if stride > 1 {
                in_channels
            } else {
                half
            };
            &&& mixes_channels(unit.branch2_expand, worked, half, true, relu)
            &&& convolves_channels(unit.branch2_depthwise, half, stride)
            &&& mixes_channels(unit.branch2_linear, half, half, true, relu)
            &&& unit.stride == stride
            &&& stride > 1 ==> {
                &&& unit.branch1_depthwise is Some
                &&& unit.branch1_pointwise is Some
                &&& convolves_channels(unit.branch1_depthwise->0, in_channels, stride)
                &&& mixes_channels(unit.branch1_pointwise->0, in_channels, half, true, relu)
            }
            &&& stride <= 1 ==> unit.branch1_depthwise is None && unit.branch1_pointwise is None
        }),
{
}

/// The layers of a step between stages: none for a branch whose channels stay, a convolution of
/// each channel and a mixing one for a branch whose channels change, and for a new branch pairs of
/// a convolution of each channel at stride two and a mixing one, the last of which gives the new
/// channels.
pub proof fn law_transition_plan(
    layer: TransitionLayer,
    previous: Seq<usize>,
    current: Seq<usize>,
    i: int,
)
    requires
        layer.planned(previous, current),
        0 <= i < current.len(),
    ensures
        ({
            let ops = layer.branches@[i].ops@;
            let relu = ActivationKind::Relu;
            &&& layer.branches@.len() == current.len()
            &&& i < previous.len() && previous[i] == current[i] ==> ops.len() == 0
            &&& i < previous.len() && previous[i] != current[i] ==> {
                &&& ops.len() == 2
                &&& convolves_channels(ops[0], previous[i], 1)
                &&& mixes_channels(ops[1], previous[i], current[i], true, relu)
            }
            &&& i >= previous.len() ==> {
                let steps = i + 1 - previous.len();
                &&& ops.len() == 2 * steps
                &&& forall|s: int|
                    0 <= s < steps ==> convolves_channels(
                        #[trigger] ops[2 * s],
                        previous.last(),
                        2,
                    )
                &&& forall|s: int|
                    0 <= s < steps - 1 ==> mixes_channels(
                        #[trigger] ops[2 * s + 1],
                        previous.last(),
                        previous.last(),
                        true,
                        relu,
                    )
                &&& mixes_channels(ops[2 * steps - 1], previous.last(), current[i], true, relu)
            }
        }),
{
    assert(TransitionLayer::branch_planned(layer.branches@[i], previous, current, i));
    if i >= previous.len() {
        let steps = i + 1 - previous.len();
        let ops = layer.branches@[i].ops@;
        assert(ops[2 * (steps - 1) + 1].is_pointwise(
            previous.last(),
            current[i],
            ActivationKind::Relu,
        ));
    }
}

/// The layers that lead from one branch to another in an exchange: up to a higher resolution a
/// mixing one, whose result is resized; to the same branch none; down to a lower resolution pairs
/// of a convolution of each channel at stride two and a mixing one, of which all but the last are
/// rectified.
pub proof fn law_fuse_plan(
    layer: FuseLayer,
    channels: Seq<usize>,
    output: int,
    input: int,
)
    requires
        layer.planned(channels, output, input),
        0 <= input < channels.len(),
        0 <= output < channels.len(),
    ensures
        ({
            let ops = layer.ops@;
            &&& layer.upsample == (input > output)
            &&& input > output ==> ops.len() == 1 && mixes_channels(
                ops[0],
                channels[input],
                channels[output],
                true,
                ActivationKind::Identity,
            )
            &&& input == output ==> ops.len() == 0
            &&& input < output ==> {
                let steps = output - input;
                &&& ops.len() == 2 * steps
                &&& forall|s: int|
                    0 <= s < steps ==> convolves_channels(#[trigger] ops[2 * s], channels[input], 2)
                &&& forall|s: int|
                    0 <= s < steps - 1 ==> mixes_channels(
                        #[trigger] ops[2 * s + 1],
                        channels[input],
                        channels[input],
                        true,
                        ActivationKind::Relu,
                    )
                &&& mixes_channels(
                    ops[2 * steps - 1],
                    channels[input],
                    channels[output],
                    true,
                    ActivationKind::Identity,
                )
            }
        }),
{
    if input < output {
        let steps = output - input;
        let ops = layer.ops@;
        assert(ops[2 * (steps - 1) + 1].is_pointwise(
            channels[input],
            channels[output],
            ActivationKind::Identity,
        ));
    }
}

/// The parts of a module: as many blocks as it was asked for, of the kind that it was asked for,
/// and where it exchanges between several branches a layer from every branch to every branch that
/// it puts out.
pub proof fn law_module_plan(
    module: LiteHrModule,
    num_blocks: usize,
    channels: Seq<usize>,
    reduce_ratio: usize,
    module_type: LiteHrModuleType,
    multiscale_output: bool,
    with_fuse: bool,
)
    requires
        module.planned(num_blocks, channels, reduce_ratio, module_type, multiscale_output, with_fuse),
    ensures
        module.in_channels@ == channels,
        module.module_type == module_type,
        module_type is Lite ==> module.lite_layers@.len() == num_blocks
            && module.naive_layers@.len() == 0 && forall|b: int|
            0 <= b < num_blocks ==> (#[trigger] module.lite_layers@[b]).planned(
                channels,
                1,
                reduce_ratio,
            ),
        module_type is Naive ==> module.lite_layers@.len() == 0 && module.naive_layers@.len()
            == channels.len() && forall|i: int, b: int|
            0 <= i < channels.len() && 0 <= b < num_blocks
                ==> module.naive_layers@[i]@.len() == num_blocks && (
            #[trigger] module.naive_layers@[i]@[b]).planned(channels[i], channels[i], 1),
        !with_fuse || channels.len() <= 1 ==> module.fuse_layers@.len() == 0,
        with_fuse && channels.len() > 1 && multiscale_output ==> module.fuse_layers@.len()
            == channels.len(),
        with_fuse && channels.len() > 1 && !multiscale_output ==> module.fuse_layers@.len() == 1,
        with_fuse && channels.len() > 1 ==> forall|o: int, i: int|
            0 <= o < module.fuse_layers@.len() && 0 <= i < channels.len()
                ==> module.fuse_layers@[o]@.len() == channels.len() && (
            #[trigger] module.fuse_layers@[o]@[i]).planned(channels, o, i),
{
    if module_type is Naive {
        assert forall|i: int, b: int| 0 <= i < channels.len() && 0 <= b < num_blocks implies
            module.naive_layers@[i]@.len() == num_blocks && (#[trigger] module.naive_layers@[i]@[b]).planned(
            channels[i],
            channels[i],
            1,
        ) by {
            assert(LiteHrModule::units_planned(module.naive_layers@[i]@, num_blocks, channels[i]));
        }
    }
    if with_fuse && channels.len() > 1 {
        assert forall|o: int, i: int|
            0 <= o < module.fuse_layers@.len() && 0 <= i < channels.len() implies
            module.fuse_layers@[o]@.len() == channels.len() && (
        #[trigger] module.fuse_layers@[o]@[i]).planned(channels, o, i) by {
            assert(LiteHrModule::row_planned(module.fuse_layers@[o]@, channels, o));
        }
    }
}

/// A stage has as many modules as it was asked for. All of them put out all branches, except that
/// the last one puts out the first branch alone where the stage was asked for that.
pub proof fn law_stage_plan(
    stage: Stage,
    num_modules: usize,
    num_blocks: usize,
    channels: Seq<usize>,
    reduce_ratio: usize,
    module_type: LiteHrModuleType,
    with_fuse: bool,
    multiscale_output: bool,
    m: int,
)
    requires
        stage.planned(
            num_modules,
            num_blocks,
            channels,
            reduce_ratio,
            module_type,
            with_fuse,
            multiscale_output,
        ),
        0 <= m < num_modules,
    ensures
        stage.modules@.len() == num_modules,
        stage.modules@[m].planned(
            num_blocks,
            channels,
            reduce_ratio,
            module_type,
            multiscale_output || m < num_modules - 1,
            with_fuse,
        ),
{
    assert(stage.modules@[m].planned(
        num_blocks,
        channels,
        reduce_ratio,
        module_type,
        Stage::puts_out_all(multiscale_output, m, num_modules as int),
        with_fuse,
    ));
}

/// The projections of a head, from the last branch up: a convolution of each channel and a mixing
/// one that gives the channels of the branch above; the first branch keeps its own.
pub proof fn law_head_plan(
    head: IterativeHead,
    channels: Seq<usize>,
    upsample_mode: HeadUpsampleMode,
    i: int,
)
    requires
        head.planned(channels, upsample_mode),
        0 <= i < channels.len(),
    ensures
        ({
            let n = channels.len();
            let project = head.projects@[n - 1 - i];
            let above = if i == 0 {
                channels[0]
            } else {
                channels[i - 1]
            };
            &&& head.projects@.len() == n
            &&& head.upsample_mode == upsample_mode
            &&& head.in_channels@.len() == n
            &&& head.in_channels@[n - 1 - i] == channels[i]
            &&& convolves_channels(project.depthwise, channels[i], 1)
            &&& mixes_channels(project.pointwise, channels[i], above, true, ActivationKind::Relu)
        }),
{
    let j = channels.len() - 1 - i;
    assert(IterativeHead::project_planned(head.projects@[j], channels.reverse(), j));
    assert(channels.reverse()[j] == channels[i]);
    if i > 0 {
        assert(channels.reverse()[j + 1] == channels[i - 1]);
    }
}

/// A backbone is planned as its configuration says: stem, stages in their order, each behind the
/// step from the channels before it, and a head on the channels of the last stage.
pub proof fn law_backbone_plan(net: LiteHrNet, config: LiteHrNetConfig, s: int)
    requires
        net.planned(config),
        0 <= s < config.num_channels@.len(),
    ensures
        ({
            let before = if s == 0 {
                seq![config.stem_out_channels]
            } else {
                config.num_channels@[s - 1]@
            };
            &&& net.stem.planned(
                config.in_channels,
                config.stem_channels,
                config.stem_mid_channels,
                config.stem_out_channels,
            )
            &&& net.transitions@.len() == config.num_channels@.len()
            &&& net.stages@.len() == config.num_channels@.len()
            &&& net.transitions@[s].planned(before, config.num_channels@[s]@)
            &&& net.stages@[s].planned(
                config.num_modules@[s],
                config.num_blocks@[s],
                config.num_channels@[s]@,
                config.reduce_ratios@[s],
                config.module_type@[s],
                config.with_fuse@[s],
                true,
            )
            &&& net.head_layer is Some == config.with_head
            &&& config.with_head ==> net.head_layer->0.planned(
                config.num_channels@.last()@,
                config.head_upsample_mode,
            )
        }),
{
    assert(net.stage_planned(config, s));
}

/// The heatmaps are mixed out of the channels of the first feature, one for each joint, without a
/// batch norm or an activation.
pub proof fn law_pose_head_plan(net: LiteHrNetPose, config: LiteHrNetPoseConfig)
    requires
        net.planned(config),
    ensures
        net.backbone.planned(config.backbone),
        mixes_channels(
            net.head,
            config.backbone.num_channels@.last()@[0],
            config.num_joints,
            false,
            ActivationKind::Identity,
        ),
{
}

/// The COCO backbones take colour images, start with 32 channels, and have three stages with two,
/// three and four branches of 40, 80, 160 and 320 channels.
pub proof fn law_coco_plan(config: LiteHrNetConfig, num_modules: Seq<usize>)
    requires
        config.is_coco(num_modules),
    ensures
        config.in_channels == 3,
        config.stem_channels == 32,
        config.stem_out_channels == 32,
        config.stem_mid_channels == 32,
        config.num_modules@ == num_modules,
        config.num_branches@ == seq![2usize, 3, 4],
        config.num_blocks@ == seq![2usize, 2, 2],
        config.module_type@.len() == 3,
        forall|s: int| 0 <= s < 3 ==> #[trigger] config.module_type@[s] is Lite,
        config.with_fuse@ == seq![true, true, true],
        config.reduce_ratios@ == seq![8usize, 8, 8],
        config.num_channels@.len() == 3,
        config.num_channels@[0]@ == seq![40usize, 80],
        config.num_channels@[1]@ == seq![40usize, 80, 160],
        config.num_channels@[2]@ == seq![40usize, 80, 160, 320],
        config.with_head,
        config.head_upsample_mode is BilinearAligned,
{
}

/// Layers that are added to a table stand behind those that were there, each at its own slot.
pub proof fn law_added_layers_stand_behind(table: LayerTable, before: LayerTable, added: Seq<ConvBnAct>)
    requires
        table.adds(before, added),
    ensures
        table@.len() == before@.len() + added.len(),
        forall|i: int| 0 <= i < before@.len() ==> #[trigger] table@[i] == before@[i],
        forall|k: int|
            0 <= k < added.len() ==> (#[trigger] added[k]).slot == before@.len() + k && table@[
            before@.len() + k] == added[k],
{
    assert forall|k: int| 0 <= k < added.len() implies (#[trigger] added[k]).slot == before@.len()
        + k && table@[before@.len() + k] == added[k] by {
        let i = before@.len() + k;
        assert(table@[i] == added[k]);
        assert(table@[i].slot == i);
    }
}

/// The layers of the small blocks are made one after the other, in the order in which they work.
pub proof fn law_layers_are_made_in_order(
    table: LayerTable,
    before: LayerTable,
    separable: DepthwiseSeparableConv,
    spatial: SpatialWeighting,
    cross: CrossResolutionWeighting,
    stem: Stem,
)
    ensures
        table.adds(before, separable.layers()) ==> {
            &&& table@.len() == before@.len() + 2
            &&& separable.depthwise.slot == before@.len()
            &&& separable.pointwise.slot == before@.len() + 1
        },
        table.adds(before, spatial.layers()) ==> {
            &&& table@.len() == before@.len() + 2
            &&& spatial.conv1.slot == before@.len()
            &&& spatial.conv2.slot == before@.len() + 1
        },
        table.adds(before, cross.layers()) ==> {
            &&& table@.len() == before@.len() + 2
            &&& cross.conv1.slot == before@.len()
            &&& cross.conv2.slot == before@.len() + 1
        },
        table.adds(before, stem.layers()) ==> {
            &&& table@.len() == before@.len() + 6
            &&& stem.conv1.slot == before@.len()
            &&& stem.branch1_depthwise.slot == before@.len() + 1
            &&& stem.branch1_pointwise.slot == before@.len() + 2
            &&& stem.expand_conv.slot == before@.len() + 3
            &&& stem.depthwise_conv.slot == before@.len() + 4
            &&& stem.linear_conv.slot == before@.len() + 5
        },
{
    if table.adds(before, separable.layers()) {
        law_added_layers_stand_behind(table, before, separable.layers());
        assert(separable.layers()[0] == separable.depthwise);
        assert(separable.layers()[1] == separable.pointwise);
    }
    if table.adds(before, spatial.layers()) {
        law_added_layers_stand_behind(table, before, spatial.layers());
        assert(spatial.layers()[0] == spatial.conv1);
        assert(spatial.layers()[1] == spatial.conv2);
    }
    if table.adds(before, cross.layers()) {
        law_added_layers_stand_behind(table, before, cross.layers());
        assert(cross.layers()[0] == cross.conv1);
        assert(cross.layers()[1] == cross.conv2);
    }
    if table.adds(before, stem.layers()) {
        let all = stem.layers();
        law_added_layers_stand_behind(table, before, all);
        assert(all[0] == stem.conv1);
        assert(all[1] == stem.branch1_depthwise);
        assert(all[2] == stem.branch1_pointwise);
        assert(all[3] == stem.expand_conv);
        assert(all[4] == stem.depthwise_conv);
        assert(all[5] == stem.linear_conv);
    }
}

/// The layers of the parts of a block are made part by part, and those of a list of parts in the
/// order of the list.
pub proof fn law_parts_make_their_layers_in_turn(
    unit: ShuffleUnit,
    units: Seq<ShuffleUnit>,
    branch: Vec<ShuffleUnit>,
    branches: Seq<Vec<ShuffleUnit>>,
    block: ConditionalChannelWeighting,
    blocks: Seq<ConditionalChannelWeighting>,
    spatial: SpatialWeighting,
    spatials: Seq<SpatialWeighting>,
)
    ensures
        unit.branch1_depthwise is Some && unit.branch1_pointwise is Some ==> unit.layers() == seq![
            unit.branch1_depthwise->0,
            unit.branch1_pointwise->0,
            unit.branch2_expand,
            unit.branch2_depthwise,
            unit.branch2_linear,
        ],
        unit.branch1_depthwise is None ==> unit.layers() == seq![
            unit.branch2_expand,
            unit.branch2_depthwise,
            unit.branch2_linear,
        ],
        unit_layers(units.push(unit)) == unit_layers(units) + unit.layers(),
        naive_layers_of(branches.push(branch)) == naive_layers_of(branches) + unit_layers(branch@),
        spatial_layers(spatials.push(spatial)) == spatial_layers(spatials) + seq![
            spatial.conv1,
            spatial.conv2,
        ],
        block.layers() == block.depthwise_convs@ + spatial_layers(block.spatial_weighting@) + seq![
            block.cross_resolution_weighting.conv1,
            block.cross_resolution_weighting.conv2,
        ],
        lite_layers_of(blocks.push(block)) == lite_layers_of(blocks) + block.layers(),
{
    assert(units.push(unit).drop_last() =~= units);
    assert(branches.push(branch).drop_last() =~= branches);
    assert(spatials.push(spatial).drop_last() =~= spatials);
    assert(blocks.push(block).drop_last() =~= blocks);
}

/// The layers of a network are made in the order of its parts: the stem, then for every stage the
/// step that leads to it and its modules, then the head; those of a module block by block and then
/// row by row of its exchange.
pub proof fn law_networks_make_their_layers_in_turn(
    branch: TransitionBranch,
    branches: Seq<TransitionBranch>,
    fuse: FuseLayer,
    row: Seq<FuseLayer>,
    line: Vec<FuseLayer>,
    rows: Seq<Vec<FuseLayer>>,
    module: LiteHrModule,
    modules: Seq<LiteHrModule>,
    project: DepthwiseSeparableConv,
    projects: Seq<DepthwiseSeparableConv>,
    transition: TransitionLayer,
    stage: Stage,
    head: IterativeHead,
)
    ensures
        transition_layers(branches.push(branch)) == transition_layers(branches) + branch.ops@,
        transition.layers() == transition_layers(transition.branches@),
        fuse_row_layers(row.push(fuse)) == fuse_row_layers(row) + fuse.ops@,
        fuse_layers_of(rows.push(line)) == fuse_layers_of(rows) + fuse_row_layers(line@),
        module.layers() == lite_layers_of(module.lite_layers@) + naive_layers_of(
            module.naive_layers@,
        ) + fuse_layers_of(module.fuse_layers@),
        module_layers(modules.push(module)) == module_layers(modules) + module.layers(),
        stage.layers() == module_layers(stage.modules@),
        project_layers(projects.push(project)) == project_layers(projects) + seq![
            project.depthwise,
            project.pointwise,
        ],
        head.layers() == project_layers(head.projects@),
{
    assert(branches.push(branch).drop_last() =~= branches);
    assert(row.push(fuse).drop_last() =~= row);
    assert(rows.push(line).drop_last() =~= rows);
    assert(modules.push(module).drop_last() =~= modules);
    assert(projects.push(project).drop_last() =~= projects);
}

/// The layers of a backbone are those of its stem, of its stages in their order, each behind the
/// step that leads to it, and of its head where it has one; a network with heatmaps adds one layer.
pub proof fn law_backbones_make_their_layers_in_turn(
    net: LiteHrNet,
    pose: LiteHrNetPose,
    transitions: Seq<TransitionLayer>,
    stages: Seq<Stage>,
    n: int,
)
    requires
        n >= 0,
    ensures
        stage_layers(transitions, stages, 0) == Seq::<ConvBnAct>::empty(),
        stage_layers(transitions, stages, n + 1) == stage_layers(transitions, stages, n)
            + transitions[n].layers() + stages[n].layers(),
        net.head_layer is None ==> net.layers() == net.stem.layers() + stage_layers(
            net.transitions@,
            net.stages@,
            net.stages@.len() as int,
        ),
        net.head_layer is Some ==> net.layers() == net.stem.layers() + stage_layers(
            net.transitions@,
            net.stages@,
            net.stages@.len() as int,
        ) + net.head_layer->0.layers(),
        pose.layers() == pose.backbone.layers().push(pose.head),
{
    assert(pose.layers() =~= pose.backbone.layers().push(pose.head));
    if net.head_layer is None {
        let all = net.stem.layers() + stage_layers(
            net.transitions@,
            net.stages@,
            net.stages@.len() as int,
        );
        assert(all + Seq::<ConvBnAct>::empty() =~= all);
    }
}

} // verus!
