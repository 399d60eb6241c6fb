use burn::module::Initializer;
use burn::nn::conv::Conv2dConfig;
use burn::nn::interpolate::{Interpolate2dConfig, InterpolateMode};
use burn::nn::{BatchNormConfig, PaddingConfig2d};
use burn::tensor::activation::{relu, sigmoid};
use burn::tensor::module::adaptive_avg_pool2d;
use burn::tensor::{Distribution, Tensor, TensorData};
use burn_flex::Flex;
use pose_obc_retrieval::pose::graph::{Dims, Graph, TensorOp};
use pose_obc_retrieval::pose::layers::{
    interpolate_bilinear_aligned, interpolate_nearest, ActivationKind, ConditionalChannelWeighting,
    ConvBnAct, CrossResolutionWeighting, DepthwiseSeparableConv, LayerTable, ShuffleUnit,
    SpatialWeighting, Stem,
};
use pose_obc_retrieval::pose::model::{
    HeadUpsampleMode, LiteHrModule, LiteHrModuleType, Stage, TransitionLayer,
};
use pose_obc_retrieval::pose::network::{
    IterativeHead, LiteHrNetConfig, LiteHrNetPoseConfig, DEFAULT_POSE_JOINTS,
};
use pose_obc_retrieval::pose::shuffle::channel_shuffle;

type Plane = Tensor<Flex, 4>;

fn random(dims: [usize; 4]) -> Plane {
    Tensor::random(dims, Distribution::Default, &Default::default())
}

fn shuffled(input: Plane, groups: usize) -> Plane {
    let [batch, channels, height, width] = input.dims();
    input
        .reshape([batch, groups, channels / groups, height, width])
        .swap_dims(1, 2)
        .reshape([batch, channels, height, width])
}

fn convolved(layer: ConvBnAct, input: Plane) -> Plane {
    let device = Default::default();
    let conv = Conv2dConfig::new(
        [layer.in_channels, layer.out_channels],
        [layer.kernel_size, layer.kernel_size],
    )
    .with_stride([layer.stride, layer.stride])
    .with_padding(PaddingConfig2d::Explicit(
        layer.padding,
        layer.padding,
        layer.padding,
        layer.padding,
    ))
    .with_groups(layer.groups)
    .with_bias(!layer.with_bn)
    .with_initializer(Initializer::Normal {
        mean: 0.0,
        std: 0.001,
    })
    .init::<Flex>(&device);
    let mut output = conv.forward(input);
    if layer.with_bn {
        output = BatchNormConfig::new(layer.out_channels)
            .init::<Flex>(&device)
            .forward(output);
    }
    match layer.act {
        ActivationKind::Identity => output,
        ActivationKind::Relu => relu(output),
        ActivationKind::Sigmoid => sigmoid(output),
    }
}

fn resized(input: Plane, size: [usize; 2], mode: InterpolateMode, aligned: bool) -> Plane {
    Interpolate2dConfig::new()
        .with_output_size(Some(size))
        .with_mode(mode)
        .with_align_corners(aligned)
        .init()
        .forward(input)
}

/// Runs a program on random tensors, holding every register to its stated dims.
fn replay(graph: &Graph) -> Vec<Plane> {
    let mut registers: Vec<Plane> = Vec::new();
    for r in 0..graph.len() {
        let value = match graph.op(r) {
            TensorOp::Input { dims, .. } => random(dims.to_array()),
            TensorOp::Conv { layer, input } => convolved(layer, registers[input].clone()),
            TensorOp::AvgPool {
                input,
                height,
                width,
            } => adaptive_avg_pool2d(registers[input].clone(), [height, width]),
            TensorOp::Concat { left, right } => {
                Tensor::cat(vec![registers[left].clone(), registers[right].clone()], 1)
            }
            TensorOp::Narrow {
                input,
                start,
                length,
            } => registers[input].clone().narrow(1, start, length),
            TensorOp::Shuffle { input, groups } => shuffled(registers[input].clone(), groups),
            TensorOp::Nearest {
                input,
                height,
                width,
            } => resized(
                registers[input].clone(),
                [height, width],
                InterpolateMode::Nearest,
                false,
            ),
            TensorOp::Bilinear {
                input,
                height,
                width,
            } => resized(
                registers[input].clone(),
                [height, width],
                InterpolateMode::Linear,
                true,
            ),
            TensorOp::Plus { left, right } => registers[left].clone() + registers[right].clone(),
            TensorOp::Times { left, right } => registers[left].clone() * registers[right].clone(),
            TensorOp::Relu { input } => relu(registers[input].clone()),
        };
        assert_eq!(value.dims(), graph.dims(r).to_array());
        registers.push(value);
    }
    registers
}

/// The dims of one register, after a run of the whole program on tensors.
fn output_dims(graph: &Graph, register: usize) -> [usize; 4] {
    let dims = replay(graph)[register].dims();
    assert_eq!(dims, graph.dims(register).to_array());
    dims
}

fn input(graph: &mut Graph, slot: usize, dims: [usize; 4]) -> usize {
    graph.input(slot, Dims::new(dims[0], dims[1], dims[2], dims[3]))
}

fn tiny_backbone_config() -> LiteHrNetConfig {
    LiteHrNetConfig {
        in_channels: 3,
        stem_channels: 16,
        stem_out_channels: 16,
        stem_mid_channels: 16,
        num_modules: vec![1, 1, 1],
        num_branches: vec![2, 3, 4],
        num_blocks: vec![1, 1, 1],
        module_type: vec![
            LiteHrModuleType::Lite,
            LiteHrModuleType::Lite,
            LiteHrModuleType::Lite,
        ],
        with_fuse: vec![true, true, true],
        reduce_ratios: vec![8, 8, 8],
        num_channels: vec![vec![16, 32], vec![16, 32, 64], vec![16, 32, 64, 128]],
        with_head: true,
        head_upsample_mode: HeadUpsampleMode::BilinearAligned,
    }
}

#[test]
fn channel_shuffle_matches_reference_order() {
    let input = vec![0.0_f32, 1.0, 2.0, 3.0, 4.0, 5.0, 6.0, 7.0];

    let output = channel_shuffle(&input, Dims::new(1, 4, 1, 2), 2);

    assert_eq!(output, vec![0.0_f32, 1.0, 4.0, 5.0, 2.0, 3.0, 6.0, 7.0]);
}

#[test]
fn channel_shuffle_agrees_with_the_tensor_form() {
    let dims = [2, 6, 2, 3];
    let values: Vec<f32> = (0..72).map(|value| value as f32).collect();
    let tensor = Tensor::<Flex, 4>::from_data(
        TensorData::new(values.clone(), dims),
        &Default::default(),
    );

    let by_tensor: Vec<f32> = shuffled(tensor, 3)
        .into_data()
        .to_vec()
        .expect("shuffled values");
    let by_values = channel_shuffle(&values, Dims::new(2, 6, 2, 3), 3);

    assert_eq!(by_values, by_tensor);
}

#[test]
fn shuffling_back_restores_the_order() {
    let values: Vec<u32> = (0..24).collect();
    let dims = Dims::new(1, 6, 2, 2);

    let there = channel_shuffle(&values, dims, 2);
    let back = channel_shuffle(&there, dims, 3);

    assert_ne!(there, values);
    assert_eq!(back, values);
}

#[test]
fn stem_matches_reference_shape_contract() {
    let mut table = LayerTable::new();
    let stem = Stem::new(&mut table, 3, 32, 32, 32);
    let mut graph = Graph::new();
    let image = input(&mut graph, 0, [2, 3, 128, 96]);

    let output = stem.forward(&mut graph, image);

    assert_eq!(output_dims(&graph, output), [2, 32, 32, 24]);
}

#[test]
fn wider_stem_keeps_its_channels_apart() {
    let mut table = LayerTable::new();
    let stem = Stem::new(&mut table, 3, 16, 24, 20);
    assert_eq!(stem.branch1_pointwise.out_channels, 8);
    assert_eq!(stem.expand_conv.out_channels, 20);
    assert_eq!(stem.linear_conv.out_channels, 16);
    let mut graph = Graph::new();
    let image = input(&mut graph, 0, [1, 3, 33, 20]);

    let output = stem.forward(&mut graph, image);

    assert_eq!(output_dims(&graph, output), [1, 24, 9, 5]);
}

#[test]
fn weighting_blocks_preserve_branch_shapes() {
    let mut table = LayerTable::new();
    let spatial = SpatialWeighting::new(&mut table, 20, 4);
    let mut graph = Graph::new();
    let plane = input(&mut graph, 0, [2, 20, 16, 12]);
    let output = spatial.forward(&mut graph, plane);
    assert_eq!(output_dims(&graph, output), [2, 20, 16, 12]);

    let cross = CrossResolutionWeighting::new(&mut table, vec![20, 40], 8);
    let mut graph = Graph::new();
    let branches = vec![
        input(&mut graph, 0, [2, 20, 16, 12]),
        input(&mut graph, 1, [2, 40, 8, 6]),
    ];
    let outputs = cross.forward(&mut graph, &branches);
    assert_eq!(output_dims(&graph, outputs[0]), [2, 20, 16, 12]);
    assert_eq!(output_dims(&graph, outputs[1]), [2, 40, 8, 6]);

    let conditional = ConditionalChannelWeighting::new(&mut table, &vec![40, 80], 1, 8);
    let mut graph = Graph::new();
    let branches = vec![
        input(&mut graph, 0, [2, 40, 16, 12]),
        input(&mut graph, 1, [2, 80, 8, 6]),
    ];
    let outputs = conditional.forward(&mut graph, &branches);
    assert_eq!(output_dims(&graph, outputs[0]), [2, 40, 16, 12]);
    assert_eq!(output_dims(&graph, outputs[1]), [2, 80, 8, 6]);
}

#[test]
fn shuffle_unit_and_lite_module_match_branch_shape_contracts() {
    let mut table = LayerTable::new();
    let shuffle = ShuffleUnit::new(&mut table, 40, 40, 1);
    let mut graph = Graph::new();
    let plane = input(&mut graph, 0, [2, 40, 16, 12]);
    let output = shuffle.forward(&mut graph, plane);
    assert_eq!(output_dims(&graph, output), [2, 40, 16, 12]);

    let module = LiteHrModule::new(
        &mut table,
        2,
        1,
        vec![40, 80],
        8,
        LiteHrModuleType::Lite,
        true,
        true,
    );
    let mut graph = Graph::new();
    let branches = vec![
        input(&mut graph, 0, [2, 40, 16, 12]),
        input(&mut graph, 1, [2, 80, 8, 6]),
    ];
    let outputs = module.forward(&mut graph, branches);

    assert_eq!(output_dims(&graph, outputs[0]), [2, 40, 16, 12]);
    assert_eq!(output_dims(&graph, outputs[1]), [2, 80, 8, 6]);
}

#[test]
fn iterative_head_progressively_projects_low_to_high_resolution() {
    let mut table = LayerTable::new();
    let head = IterativeHead::new(
        &mut table,
        &vec![40, 80, 160, 320],
        HeadUpsampleMode::BilinearAligned,
    );
    let mut graph = Graph::new();
    let branches = vec![
        input(&mut graph, 0, [2, 40, 16, 12]),
        input(&mut graph, 1, [2, 80, 8, 6]),
        input(&mut graph, 2, [2, 160, 4, 3]),
        input(&mut graph, 3, [2, 320, 2, 2]),
    ];

    let outputs = head.forward(&mut graph, &branches);

    assert_eq!(output_dims(&graph, outputs[0]), [2, 40, 16, 12]);
    assert_eq!(output_dims(&graph, outputs[1]), [2, 40, 8, 6]);
    assert_eq!(output_dims(&graph, outputs[2]), [2, 80, 4, 3]);
    assert_eq!(output_dims(&graph, outputs[3]), [2, 160, 2, 2]);
}

#[test]
fn litehrnet18_backbone_and_pose_head_match_coco_shapes() {
    let mut table = LayerTable::new();
    let backbone = LiteHrNetConfig::litehrnet18_coco().init(&mut table);
    let mut graph = Graph::new();
    let image = input(&mut graph, 0, [1, 3, 64, 48]);

    let outputs = backbone.forward(&mut graph, image);

    assert_eq!(outputs.len(), 1);
    assert_eq!(graph.dims(outputs[0]).to_array(), [1, 40, 16, 12]);

    let mut table = LayerTable::new();
    let pose = LiteHrNetPoseConfig::litehrnet18_coco().init(&mut table);
    let mut graph = Graph::new();
    let image = input(&mut graph, 0, [1, 3, 64, 48]);
    let heatmaps = pose.forward(&mut graph, image);
    assert_eq!(output_dims(&graph, heatmaps), [1, 17, 16, 12]);
}

#[test]
fn litehrnet30_heatmaps_are_a_quarter_of_the_input() {
    let mut table = LayerTable::new();
    let pose = LiteHrNetPoseConfig::litehrnet30_coco().init(&mut table);
    let mut graph = Graph::new();
    let image = input(&mut graph, 0, [1, 3, 256, 192]);

    let heatmaps = pose.forward(&mut graph, image);

    assert_eq!(
        graph.dims(heatmaps).to_array(),
        [1, DEFAULT_POSE_JOINTS, 64, 48]
    );
}

#[test]
fn every_layer_of_a_network_has_its_own_slot() {
    let mut table = LayerTable::new();
    LiteHrNetPoseConfig {
        backbone: tiny_backbone_config(),
        num_joints: 17,
    }
    .init(&mut table);

    assert!(table.len() > 0);
    for slot in 0..table.len() {
        assert_eq!(table.get(slot).slot, slot);
    }
}

#[test]
fn network_without_a_head_gives_its_branches() {
    let mut config = tiny_backbone_config();
    config.with_head = false;
    let mut table = LayerTable::new();
    let backbone = config.init(&mut table);
    let mut graph = Graph::new();
    let image = input(&mut graph, 0, [1, 3, 64, 48]);

    let features = backbone.forward_features(&mut graph, image);

    let dims: Vec<[usize; 4]> = features
        .iter()
        .map(|register| output_dims(&graph, *register))
        .collect();
    assert_eq!(
        dims,
        vec![
            [1, 16, 16, 12],
            [1, 32, 8, 6],
            [1, 64, 4, 3],
            [1, 128, 2, 2]
        ]
    );
}

#[test]
fn nearest_head_runs_like_the_bilinear_one() {
    let mut config = tiny_backbone_config();
    config.head_upsample_mode = HeadUpsampleMode::Nearest;
    let mut table = LayerTable::new();
    let backbone = config.init(&mut table);
    let mut graph = Graph::new();
    let image = input(&mut graph, 0, [1, 3, 64, 48]);

    let outputs = backbone.forward(&mut graph, image);

    assert_eq!(output_dims(&graph, outputs[0]), [1, 16, 16, 12]);
    let resizes: Vec<TensorOp> = (0..graph.len())
        .map(|register| graph.op(register))
        .filter(|op| matches!(op, TensorOp::Bilinear { .. }))
        .collect();
    assert!(resizes.is_empty());
}

#[test]
fn naive_modules_without_multiscale_output_keep_the_first_branch() {
    let mut table = LayerTable::new();
    let module = LiteHrModule::new(
        &mut table,
        2,
        2,
        vec![40, 80],
        8,
        LiteHrModuleType::Naive,
        false,
        true,
    );
    let mut graph = Graph::new();
    let branches = vec![
        input(&mut graph, 0, [2, 40, 16, 12]),
        input(&mut graph, 1, [2, 80, 8, 6]),
    ];

    let outputs = module.forward(&mut graph, branches);

    assert_eq!(output_dims(&graph, outputs[0]), [2, 40, 16, 12]);
}

#[test]
fn stage_and_transition_build_the_pyramid() {
    let mut table = LayerTable::new();
    let transition = TransitionLayer::new(&mut table, &vec![32], &vec![40, 80]);
    let stage = Stage::new(
        &mut table,
        2,
        2,
        2,
        &vec![40, 80],
        8,
        LiteHrModuleType::Lite,
        true,
        true,
    );
    let mut graph = Graph::new();
    let plane = input(&mut graph, 0, [1, 32, 16, 12]);

    let branches = transition.forward(&mut graph, &vec![plane]);
    let outputs = stage.forward(&mut graph, branches);

    assert_eq!(outputs.len(), 2);
    assert_eq!(output_dims(&graph, outputs[0]), [1, 40, 16, 12]);
    assert_eq!(output_dims(&graph, outputs[1]), [1, 80, 8, 6]);
}

#[test]
fn strided_shuffle_unit_halves_the_plane() {
    let mut table = LayerTable::new();
    let unit = ShuffleUnit::new(&mut table, 24, 48, 2);
    let mut graph = Graph::new();
    let plane = input(&mut graph, 0, [1, 24, 15, 12]);

    let output = unit.forward(&mut graph, plane);

    assert_eq!(output_dims(&graph, output), [1, 48, 8, 6]);
}

#[test]
fn separable_convolution_maps_channels_and_plane() {
    let mut table = LayerTable::new();
    let conv = DepthwiseSeparableConv::new(
        &mut table,
        8,
        12,
        3,
        2,
        1,
        ActivationKind::Identity,
        ActivationKind::Relu,
    );
    assert_eq!(conv.depthwise.groups, 8);
    assert_eq!(conv.pointwise.groups, 1);
    let mut graph = Graph::new();
    let plane = input(&mut graph, 0, [1, 8, 10, 6]);

    let output = conv.forward(&mut graph, plane);

    assert_eq!(output_dims(&graph, output), [1, 12, 5, 3]);
}

#[test]
fn resizing_to_the_same_plane_adds_nothing() {
    let mut graph = Graph::new();
    let plane = input(&mut graph, 0, [1, 4, 6, 5]);

    assert_eq!(interpolate_nearest(&mut graph, plane, 6, 5), plane);
    assert_eq!(interpolate_bilinear_aligned(&mut graph, plane, 6, 5), plane);
    assert_eq!(graph.len(), 1);

    let larger = interpolate_nearest(&mut graph, plane, 12, 10);
    let smaller = interpolate_bilinear_aligned(&mut graph, plane, 3, 2);
    assert_eq!(output_dims(&graph, larger), [1, 4, 12, 10]);
    assert_eq!(output_dims(&graph, smaller), [1, 4, 3, 2]);
}
