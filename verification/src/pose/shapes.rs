//! Which extents the blocks and networks keep, and on which inputs they run.

use vstd::prelude::*;

use crate::pose::graph::{conv_dims, conv_extent, shape, Dims, Term};
use crate::pose::layers::{
    bilinear_to, concat_all, first_chunk, first_half, halved, lemma_total_halved,
    lemma_total_nonnegative, lemma_total_prefix, nearest_to, second_half, total, ConvBnAct,
    ConditionalChannelWeighting, CrossResolutionWeighting, DepthwiseSeparableConv, LayerTable,
    ShuffleUnit, SpatialWeighting, Stem,
};

verus! {

/// Half of an extent, rounded up.
pub open spec fn halve(n: usize) -> usize {
    (n - n / 2) as usize
}

/// An extent after `k` halvings.
pub open spec fn halvings(n: usize, k: int) -> usize
    decreases k,
{
    if k <= 0 {
        n
    } else {
        halve(halvings(n, k - 1))
    }
}

/// Whether a side can be convolved: it is not empty, and padding does not overflow it.
pub open spec fn side_fits(n: usize) -> bool {
    1 <= n <= usize::MAX - 2
}

/// Whether a plane can be convolved.
pub open spec fn plane_fits(d: Dims) -> bool {
    side_fits(d.height) && side_fits(d.width)
}

/// Halving keeps a side convolvable.
pub proof fn lemma_halvings_fit(n: usize, k: int)
    requires
        side_fits(n),
    ensures
        side_fits(halvings(n, k)),
        halvings(n, k) <= n,
    decreases k,
{
    if k > 0 {
        lemma_halvings_fit(n, k - 1);
    }
}

/// The plane of `d` halved once.
pub open spec fn halved_plane(d: Dims) -> Dims {
    d.over(halve(d.height), halve(d.width))
}

/// A 3x3 convolution with padding one halves the plane at stride two and keeps it at stride one.
pub proof fn lemma_conv_3x3(layer: ConvBnAct, t: Term, d: Dims)
    requires
        shape(t) == Some(d),
        plane_fits(d),
        layer.in_channels == d.channels,
        layer.kernel_size == 3,
        layer.padding == 1,
        layer.stride == 1 || layer.stride == 2,
    ensures
        layer.stride == 1 ==> shape(layer.of(t)) == Some(d.with_channels(layer.out_channels)),
        layer.stride == 2 ==> shape(layer.of(t)) == Some(
            halved_plane(d).with_channels(layer.out_channels),
        ),
        plane_fits(halved_plane(d)),
{
    assert(shape(layer.of(t)) == conv_dims(layer, d));
    if layer.stride == 1 {
        assert(conv_extent(layer, d.height) == Some(d.height));
        assert(conv_extent(layer, d.width) == Some(d.width));
    } else {
        assert(conv_extent(layer, d.height) == Some(halve(d.height)));
        assert(conv_extent(layer, d.width) == Some(halve(d.width)));
    }
}

/// A 1x1 convolution keeps the plane.
pub proof fn lemma_conv_1x1(layer: ConvBnAct, t: Term, d: Dims)
    requires
        shape(t) == Some(d),
        plane_fits(d),
        layer.in_channels == d.channels,
        layer.kernel_size == 1,
        layer.padding == 0,
        layer.stride == 1,
    ensures
        shape(layer.of(t)) == Some(d.with_channels(layer.out_channels)),
{
    assert(shape(layer.of(t)) == conv_dims(layer, d));
    assert(conv_extent(layer, d.height) == Some(d.height));
    assert(conv_extent(layer, d.width) == Some(d.width));
}

/// The halves of an even count of channels have half of the channels each.
pub proof fn lemma_halves(t: Term, d: Dims)
    requires
        shape(t) == Some(d),
        d.channels >= 2,
        d.channels % 2 == 0,
    ensures
        shape(first_half(t)) == Some(d.with_channels(d.channels / 2)),
        shape(second_half(t)) == Some(d.with_channels(d.channels / 2)),
{
    assert(first_chunk(d.channels) == d.channels / 2);
}

/// Two terms on one plane that together have an even count of channels can be shuffled in two
/// groups.
proof fn lemma_join_in_two(l: Term, r: Term, dl: Dims, dr: Dims)
    requires
        shape(l) == Some(dl),
        shape(r) == Some(dr),
        dl.batch == dr.batch,
        dl.height == dr.height,
        dl.width == dr.width,
        dl.channels + dr.channels <= usize::MAX,
        (dl.channels + dr.channels) % 2 == 0,
    ensures
        shape(Term::Shuffle(Box::new(Term::Concat(Box::new(l), Box::new(r))), 2)) == Some(
            dl.with_channels((dl.channels + dr.channels) as usize),
        ),
{
    let joined = Term::Concat(Box::new(l), Box::new(r));
    assert(shape(joined) == Some(dl.with_channels((dl.channels + dr.channels) as usize)));
}

/// Resizing gives the plane that was asked for.
proof fn lemma_resized(t: Term, d: Dims, height: usize, width: usize)
    requires
        shape(t) == Some(d),
    ensures
        shape(nearest_to(t, height, width)) == Some(d.over(height, width)),
        shape(bilinear_to(t, height, width)) == Some(d.over(height, width)),
{
}

/// A stem with even channel counts runs on every image with the right channels, and puts out a
/// quarter of the resolution.
pub proof fn law_stem_shape(
    stem: Stem,
    in_channels: usize,
    stem_channels: usize,
    mid_channels: usize,
    out_channels: usize,
    t: Term,
    d: Dims,
)
    requires
        stem.planned(in_channels, stem_channels, mid_channels, out_channels),
        2 <= stem_channels <= out_channels,
        stem_channels % 2 == 0,
        out_channels % 2 == 0,
        shape(t) == Some(d),
        d.channels == in_channels,
        plane_fits(d),
    ensures
        shape(stem.of(t)) == Some(
            Dims {
                batch: d.batch,
                channels: out_channels,
                height: halvings(d.height, 2),
                width: halvings(d.width, 2),
            },
        ),
{
    reveal_with_fuel(halvings, 3);
    let half = halved_plane(d);
    let quarter = halved_plane(half);
    let x = stem.conv1.of(t);
    lemma_conv_3x3(stem.conv1, t, d);
    let dx = half.with_channels(stem_channels);
    lemma_halves(x, dx);
    let a = first_half(x);
    let b = second_half(x);
    let dh = dx.with_channels(stem_channels / 2);
    let a1 = stem.branch1_depthwise.of(a);
    lemma_conv_3x3(stem.branch1_depthwise, a, dh);
    let dq = halved_plane(dh);
    lemma_conv_1x1(stem.branch1_pointwise, a1, dq);
    let b1 = stem.expand_conv.of(b);
    lemma_conv_1x1(stem.expand_conv, b, dh);
    let dm = dh.with_channels(mid_channels);
    let b2 = stem.depthwise_conv.of(b1);
    lemma_conv_3x3(stem.depthwise_conv, b1, dm);
    lemma_conv_1x1(stem.linear_conv, b2, halved_plane(dm));
    lemma_join_in_two(
        stem.first_branch(t),
        stem.second_branch(t),
        dq.with_channels(Stem::first_out(stem_channels, out_channels)),
        dq.with_channels(Stem::second_out(stem_channels, out_channels)),
    );
}

/// Weighting the channels of a branch keeps its shape.
pub proof fn law_spatial_weighting_keeps_shape(
    block: SpatialWeighting,
    channels: usize,
    ratio: usize,
    t: Term,
    d: Dims,
)
    requires
        block.planned(channels, ratio),
        shape(t) == Some(d),
        d.channels == channels,
    ensures
        shape(block.of(t)) == Some(d),
{
    let pooled = Term::AvgPool(Box::new(t), 1, 1);
    let dp = d.over(1, 1);
    assert(shape(pooled) == Some(dp));
    lemma_conv_1x1(block.conv1, pooled, dp);
    let squeezed = block.conv1.of(pooled);
    let ds = dp.with_channels(block.conv1.out_channels);
    lemma_conv_1x1(block.conv2, squeezed, ds);
    assert(shape(block.weights_of(t)) == Some(dp));
}

/// Branches of one batch with the given channels, on planes that can be convolved.
pub open spec fn branches_fit(ts: Seq<Term>, channels: Seq<usize>) -> bool {
    &&& ts.len() == channels.len()
    &&& ts.len() > 0
    &&& forall|i: int|
        0 <= i < ts.len() ==> {
            &&& shape(#[trigger] ts[i]) is Some
            &&& shape(ts[i])->0.channels == channels[i]
            &&& shape(ts[i])->0.batch == shape(ts[0])->0.batch
            &&& plane_fits(shape(ts[i])->0)
        }
}

/// The concatenation of terms on one plane has all their channels.
pub proof fn lemma_concat_all(terms: Seq<Term>, channels: Seq<usize>, d: Dims)
    requires
        terms.len() == channels.len(),
        terms.len() > 0,
        total(channels) <= usize::MAX,
        forall|i: int|
            0 <= i < terms.len() ==> shape(#[trigger] terms[i]) == Some(
                d.with_channels(channels[i]),
            ),
    ensures
        shape(concat_all(terms)) == Some(d.with_channels(total(channels) as usize)),
    decreases terms.len(),
{
    if terms.len() == 1 {
        assert(channels.drop_last() =~= Seq::<usize>::empty());
        assert(total(channels) == channels[0]);
    } else {
        let n = terms.len() - 1;
        lemma_total_nonnegative(channels.drop_last());
        assert forall|i: int| 0 <= i < n implies shape(#[trigger] terms.drop_last()[i]) == Some(
            d.with_channels(channels.drop_last()[i]),
        ) by {
            assert(terms.drop_last()[i] == terms[i]);
        }
        lemma_concat_all(terms.drop_last(), channels.drop_last(), d);
        assert(shape(terms[n]) == Some(d.with_channels(channels[n])));
    }
}

/// Weighting across resolutions keeps the shape of every branch.
pub proof fn law_cross_resolution_weighting_keeps_shapes(
    block: CrossResolutionWeighting,
    channels: Seq<usize>,
    ratio: usize,
    ts: Seq<Term>,
)
    requires
        block.planned(channels, ratio),
        total(channels) <= usize::MAX,
        forall|i: int| 0 <= i < channels.len() ==> #[trigger] channels[i] > 0,
        branches_fit(ts, channels),
    ensures
        block.runs_on(ts),
        block.of(ts).len() == ts.len(),
        forall|i: int| 0 <= i < ts.len() ==> shape(#[trigger] block.of(ts)[i]) == shape(ts[i]),
        forall|i: int| 0 <= i < ts.len() ==> shape(#[trigger] block.weighted(ts, i)) == shape(ts[i]),
{
    let n = ts.len() as int;
    let last = shape(ts[n - 1])->0;
    let pooled = CrossResolutionWeighting::all_pooled(ts);
    assert forall|i: int| 0 <= i < pooled.len() implies shape(#[trigger] pooled[i]) == Some(
        last.with_channels(channels[i]),
    ) by {
        assert(shape(ts[i]) is Some);
        assert(shape(ts[i])->0.batch == shape(ts[0])->0.batch);
        assert(last.batch == shape(ts[0])->0.batch);
    }
    lemma_concat_all(pooled, channels, last);
    lemma_total_nonnegative(channels);
    let sum = total(channels) as usize;
    let joined = concat_all(pooled);
    let dj = last.with_channels(sum);
    lemma_conv_1x1(block.conv1, joined, dj);
    let squeezed = block.conv1.of(joined);
    let ds = dj.with_channels(block.conv1.out_channels);
    lemma_conv_1x1(block.conv2, squeezed, ds);
    assert(shape(block.weights_of(ts)) == Some(dj));
    assert forall|i: int| 0 <= i < n implies {
        &&& shape(#[trigger] block.split(ts, i)) == Some(last.with_channels(channels[i]))
        &&& shape(block.weighted(ts, i)) == shape(ts[i])
    } by {
        lemma_total_prefix(channels, i + 1);
        lemma_total_nonnegative(channels.take(i));
        assert(channels.take(i + 1).drop_last() =~= channels.take(i));
        let d = shape(ts[i])->0;
        assert(shape(ts[i]) == Some(d));
        lemma_resized(block.split(ts, i), last.with_channels(channels[i]), d.height, d.width);
        assert(d.batch == last.batch);
    }
    assert forall|i: int| 0 <= i < n implies shape(#[trigger] block.of(ts)[i]) == shape(ts[i]) by {
        assert(shape(block.split(ts, i)) is Some);
        assert(block.of(ts)[i] == block.weighted(ts, i));
    }
    assert forall|i: int| 0 <= i < n implies shape(#[trigger] block.weighted(ts, i)) == shape(
        ts[i],
    ) by {
        assert(shape(block.split(ts, i)) is Some);
    }
}

/// A weighting block with stride one keeps the shape of every branch.
pub proof fn law_conditional_weighting_keeps_shapes(
    block: ConditionalChannelWeighting,
    in_channels: Seq<usize>,
    reduce_ratio: usize,
    ts: Seq<Term>,
)
    requires
        block.planned(in_channels, 1, reduce_ratio),
        ConditionalChannelWeighting::splits(in_channels),
        total(in_channels) <= usize::MAX,
        branches_fit(ts, in_channels),
    ensures
        block.runs_on(ts),
        block.of(ts).len() == ts.len(),
        forall|i: int| 0 <= i < ts.len() ==> shape(#[trigger] block.of(ts)[i]) == shape(ts[i]),
{
    let worked = ConditionalChannelWeighting::worked(ts);
    let channels = halved(in_channels);
    lemma_total_halved(in_channels);
    lemma_total_nonnegative(channels);
    assert forall|i: int| 0 <= i < ts.len() implies shape(#[trigger] worked[i]) == Some(
        shape(ts[i])->0.with_channels(channels[i]),
    ) by {
        assert(2 <= in_channels[i] && in_channels[i] % 2 == 0);
        lemma_halves(ts[i], shape(ts[i])->0);
    }
    assert(shape(worked[0]) is Some);
    assert(branches_fit(worked, channels));
    assert forall|i: int| 0 <= i < channels.len() implies #[trigger] channels[i] > 0 by {
        assert(2 <= in_channels[i]);
    }
    law_cross_resolution_weighting_keeps_shapes(
        block.cross_resolution_weighting,
        channels,
        reduce_ratio,
        worked,
    );
    assert forall|i: int| 0 <= i < ts.len() implies {
        &&& shape(#[trigger] block.convolved(ts, i)) is Some
        &&& shape(block.branch(ts, i)) == shape(ts[i])
    } by {
        let d = shape(ts[i])->0;
        let dh = d.with_channels(channels[i]);
        assert(2 <= in_channels[i] && in_channels[i] % 2 == 0);
        lemma_halves(ts[i], d);
        assert(shape(worked[i]) == Some(dh));
        let weighted = block.cross_resolution_weighting.weighted(worked, i);
        assert(shape(weighted) == Some(dh));
        assert(block.depthwise_convs@[i].is_depthwise(channels[i], 1));
        lemma_conv_3x3(block.depthwise_convs@[i], weighted, dh);
        assert(block.spatial_weighting@[i].planned(channels[i], 4));
        law_spatial_weighting_keeps_shape(
            block.spatial_weighting@[i],
            channels[i],
            4,
            block.convolved(ts, i),
            dh,
        );
        lemma_join_in_two(
            first_half(ts[i]),
            block.spatial_weighting@[i].of(block.convolved(ts, i)),
            dh,
            dh,
        );
    }
    assert(block.outputs(ts) == ts.len());
    assert forall|i: int| 0 <= i < ts.len() implies shape(#[trigger] block.of(ts)[i]) == shape(
        ts[i],
    ) by {
        assert(shape(block.convolved(ts, i)) is Some);
    }
    assert forall|i: int| 0 <= i < ts.len() implies shape(#[trigger] ts[i]) is Some && shape(
        ts[i],
    )->0.channels >= 2 by {
        assert(2 <= in_channels[i]);
    }
}

/// A shuffle unit with stride one keeps the shape of its branch.
pub proof fn law_shuffle_unit_keeps_shape(unit: ShuffleUnit, channels: usize, t: Term, d: Dims)
    requires
        unit.planned(channels, channels, 1),
        channels >= 2,
        channels % 2 == 0,
        shape(t) == Some(d),
        d.channels == channels,
        plane_fits(d),
    ensures
        unit.runs_on(t),
        shape(unit.of(t)) == Some(d),
{
    lemma_halves(t, d);
    let half = d.with_channels(channels / 2);
    lemma_second_branch(unit, channels / 2, channels / 2, second_half(t), half);
    lemma_join_in_two(first_half(t), unit.second_branch(second_half(t)), half, half);
}

/// The second branch of a shuffle unit.
proof fn lemma_second_branch(unit: ShuffleUnit, in_channels: usize, half: usize, t: Term, d: Dims)
    requires
        unit.branch2_expand.is_pointwise(in_channels, half, unit.branch2_expand.act),
        unit.branch2_depthwise.is_depthwise(half, unit.stride),
        unit.branch2_linear.is_pointwise(half, half, unit.branch2_linear.act),
        unit.stride == 1 || unit.stride == 2,
        shape(t) == Some(d),
        d.channels == in_channels,
        plane_fits(d),
    ensures
        unit.stride == 1 ==> shape(unit.second_branch(t)) == Some(d.with_channels(half)),
        unit.stride == 2 ==> shape(unit.second_branch(t)) == Some(
            halved_plane(d).with_channels(half),
        ),
{
    let dh = d.with_channels(half);
    let a = unit.branch2_expand.of(t);
    lemma_conv_1x1(unit.branch2_expand, t, d);
    let b = unit.branch2_depthwise.of(a);
    lemma_conv_3x3(unit.branch2_depthwise, a, dh);
    if unit.stride == 1 {
        lemma_conv_1x1(unit.branch2_linear, b, dh);
    } else {
        lemma_conv_1x1(unit.branch2_linear, b, halved_plane(dh));
    }
}

/// A shuffle unit with stride two halves the resolution and puts out the channels it was made for.
pub proof fn law_shuffle_unit_halves_plane(
    unit: ShuffleUnit,
    in_channels: usize,
    out_channels: usize,
    t: Term,
    d: Dims,
)
    requires
        unit.planned(in_channels, out_channels, 2),
        out_channels >= 2,
        out_channels % 2 == 0,
        shape(t) == Some(d),
        d.channels == in_channels,
        plane_fits(d),
    ensures
        unit.runs_on(t),
        shape(unit.of(t)) == Some(halved_plane(d).with_channels(out_channels)),
{
    let half = halved_plane(d).with_channels(out_channels / 2);
    let depthwise = unit.branch1_depthwise->0;
    let pointwise = unit.branch1_pointwise->0;
    lemma_conv_3x3(depthwise, t, d);
    lemma_conv_1x1(pointwise, depthwise.of(t), halved_plane(d));
    lemma_second_branch(unit, in_channels, out_channels / 2, t, d);
    lemma_join_in_two(pointwise.of(depthwise.of(t)), unit.second_branch(t), half, half);
}

/// A depthwise separable convolution with a 3x3 kernel and stride one keeps the plane.
pub proof fn law_separable_conv_shape(
    block: DepthwiseSeparableConv,
    in_channels: usize,
    out_channels: usize,
    t: Term,
    d: Dims,
)
    requires
        block.depthwise.is_depthwise(in_channels, 1),
        block.pointwise.is_pointwise(in_channels, out_channels, block.pointwise.act),
        shape(t) == Some(d),
        d.channels == in_channels,
        plane_fits(d),
    ensures
        shape(block.of(t)) == Some(d.with_channels(out_channels)),
{
    lemma_conv_3x3(block.depthwise, t, d);
    lemma_conv_1x1(block.pointwise, block.depthwise.of(t), d);
}

/// Layers that are added to a table get slots of their own, in the order in which they are made.
pub proof fn law_layers_have_own_slots(table: LayerTable, before: LayerTable, added: Seq<ConvBnAct>)
    requires
        table.adds(before, added),
    ensures
        forall|i: int|
            0 <= i < added.len() ==> (#[trigger] added[i]).slot == before@.len() + i && table@[before@.len()
                + i] == added[i],
        forall|i: int, j: int|
            0 <= i < j < added.len() ==> (#[trigger] added[i]).slot != (#[trigger] added[j]).slot,
{
    assert forall|i: int| 0 <= i < added.len() implies (#[trigger] added[i]).slot == before@.len()
        + i && table@[before@.len() + i] == added[i] by {
        assert(table@[before@.len() + i] == added[i]);
    }
}

} // verus!
