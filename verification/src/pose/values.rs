//! What tensor programs compute: the values of terms, and what they say about the blocks of the
//! network.
//!
//! Sums, products, rectifiers, concatenations and shuffles have the values that their names say.
//! Convolutions, pooling and resizing are done by whoever owns real tensors; what holds here holds
//! whatever they give.

use vstd::prelude::*;

use crate::pose::graph::{
    elementwise_dims, meaning, operands_below, shape, Dims, Graph, TensorOp, Term,
};
use crate::pose::layers::{
    concat_all, first_half, lemma_total_nonnegative, lemma_total_prefix, nearest_to,
    second_half, total, ConditionalChannelWeighting, ConvBnAct,
    CrossResolutionWeighting, ShuffleUnit, SpatialWeighting, Stem,
};
use crate::pose::model::{
    chain, lite_fold, module_fold, unit_chain, FuseLayer, HeadUpsampleMode, LiteHrModule,
    LiteHrModuleType, TransitionLayer,
};
use crate::pose::network::{stage_fold, IterativeHead, LiteHrNet, LiteHrNetPose};
use crate::pose::pyramid::{
    law_head_shapes, lemma_blocks_keep_pyramid, lemma_contribution, level, pyramid,
};
use crate::pose::shapes::{
    branches_fit, halved_plane, law_conditional_weighting_keeps_shapes,
    law_cross_resolution_weighting_keeps_shapes, law_shuffle_unit_halves_plane,
    law_shuffle_unit_keeps_shape, law_spatial_weighting_keeps_shape, law_stem_shape,
    lemma_concat_all, lemma_conv_1x1, lemma_conv_3x3, lemma_halves, plane_fits,
};
use crate::pose::shuffle::{law_shuffle_interleaves, shuffled_from};

verus! {

/// A place in a tensor.
pub struct Place {
    pub item: int,
    pub channel: int,
    pub row: int,
    pub column: int,
}

impl Place {
    /// The same place in another channel.
    pub open spec fn in_channel(self, channel: int) -> Place {
        Place { channel, ..self }
    }

    /// Whether the place lies in a tensor of an extent.
    pub open spec fn inside(self, d: Dims) -> bool {
        &&& 0 <= self.item < d.batch
        &&& 0 <= self.channel < d.channels
        &&& 0 <= self.row < d.height
        &&& 0 <= self.column < d.width
    }
}

/// What convolutions, pooling and resizing give, and the tensors that are handed in.
pub struct Arithmetic {
    pub input: spec_fn(usize) -> spec_fn(Place) -> int,
    pub conv: spec_fn(ConvBnAct, spec_fn(Place) -> int) -> spec_fn(Place) -> int,
    pub pool: spec_fn(spec_fn(Place) -> int, Dims, usize, usize) -> spec_fn(Place) -> int,
    pub nearest: spec_fn(spec_fn(Place) -> int, Dims, usize, usize) -> spec_fn(Place) -> int,
    pub bilinear: spec_fn(spec_fn(Place) -> int, Dims, usize, usize) -> spec_fn(Place) -> int,
}

/// Where an operand of extent `own` is read for a place in a result of extent `whole`: an extent
/// of one is read again and again.
pub open spec fn read_at(p: Place, own: Dims, whole: Dims) -> Place {
    Place {
        item: if own.batch == 1 && whole.batch != 1 {
            0
        } else {
            p.item
        },
        channel: if own.channels == 1 && whole.channels != 1 {
            0
        } else {
            p.channel
        },
        row: if own.height == 1 && whole.height != 1 {
            0
        } else {
            p.row
        },
        column: if own.width == 1 && whole.width != 1 {
            0
        } else {
            p.column
        },
    }
}

/// The values of a term.
pub open spec fn value(a: Arithmetic, t: Term) -> spec_fn(Place) -> int
    decreases t,
{
    match t {
        Term::Input { slot, dims } => (a.input)(slot),
        Term::Conv(layer, x) => (a.conv)(layer, value(a, *x)),
        Term::AvgPool(x, height, width) => (a.pool)(value(a, *x), shape(*x)->0, height, width),
        Term::Concat(l, r) => {
            let first = shape(*l)->0.channels as int;
            |p: Place|
                if p.channel < first {
                    value(a, *l)(p)
                } else {
                    value(a, *r)(p.in_channel(p.channel - first))
                }
        },
        Term::Narrow(x, start, length) => |p: Place|
            value(a, *x)(p.in_channel(p.channel + start)),
        Term::Shuffle(x, groups) => {
            let channels = shape(*x)->0.channels as int;
            |p: Place|
                value(a, *x)(p.in_channel(shuffled_from(p.channel, channels, groups as int)))
        },
        Term::Nearest(x, height, width) => (a.nearest)(value(a, *x), shape(*x)->0, height, width),
        Term::Bilinear(x, height, width) => (a.bilinear)(value(a, *x), shape(*x)->0, height, width),
        Term::Plus(l, r) => {
            let whole = shape(t)->0;
            let dl = shape(*l)->0;
            let dr = shape(*r)->0;
            |p: Place| value(a, *l)(read_at(p, dl, whole)) + value(a, *r)(read_at(p, dr, whole))
        },
        Term::Times(l, r) => {
            let whole = shape(t)->0;
            let dl = shape(*l)->0;
            let dr = shape(*r)->0;
            |p: Place| value(a, *l)(read_at(p, dl, whole)) * value(a, *r)(read_at(p, dr, whole))
        },
        Term::Relu(x) => |p: Place|
            if value(a, *x)(p) < 0 {
                0
            } else {
                value(a, *x)(p)
            },
        Term::Undefined => |p: Place| 0,
    }
}

/// Term by term sum of two tensors of one extent.
proof fn lemma_plus(a: Arithmetic, l: Term, r: Term, d: Dims)
    requires
        shape(l) == Some(d),
        shape(r) == Some(d),
    ensures
        shape(Term::Plus(Box::new(l), Box::new(r))) == Some(d),
        value(a, Term::Plus(Box::new(l), Box::new(r))) == (|p: Place|
            value(a, l)(p) + value(a, r)(p)),
{
    let t = Term::Plus(Box::new(l), Box::new(r));
    assert(shape(t) == Some(d));
    assert forall|p: Place| #[trigger] value(a, t)(p) == value(a, l)(p) + value(a, r)(p) by {
        assert(read_at(p, d, d) == p);
    }
    assert(value(a, t) =~= (|p: Place| value(a, l)(p) + value(a, r)(p)));
}

/// The resized output of the branch below, in the way of a head.
pub open spec fn brought_up(mode: HeadUpsampleMode, lower: Term, height: usize, width: usize) -> Term {
    if shape(lower) is Some && shape(lower)->0.height == height && shape(lower)->0.width == width {
        lower
    } else {
        match mode {
            HeadUpsampleMode::BilinearAligned => Term::Bilinear(Box::new(lower), height, width),
            HeadUpsampleMode::Nearest => Term::Nearest(Box::new(lower), height, width),
        }
    }
}

/// A head works its way up: the last branch is projected, and every other branch is added to the
/// resized output of the branch below it and then projected. A projection is a depthwise
/// convolution and a pointwise one behind it. The projections run from the last branch up.
pub proof fn law_head_adds_the_branch_below(
    a: Arithmetic,
    head: IterativeHead,
    channels: Seq<usize>,
    ts: Seq<Term>,
    base: Dims,
    i: int,
)
    requires
        head.planned(channels, head.upsample_mode),
        pyramid(ts, channels, base),
        0 <= i < ts.len(),
    ensures
        ({
            let n = ts.len();
            let out = head.of(ts);
            let project = head.projects@[n - 1 - i];
            let d = shape(ts[i])->0;
            let below = value(a, brought_up(head.upsample_mode, out[i + 1], d.height, d.width));
            &&& out.len() == n
            &&& i + 1 == n ==> value(a, out[i]) == (a.conv)(
                project.pointwise,
                (a.conv)(project.depthwise, value(a, ts[i])),
            )
            &&& i + 1 < n ==> value(a, out[i]) == (a.conv)(
                project.pointwise,
                (a.conv)(project.depthwise, |p: Place| value(a, ts[i])(p) + below(p)),
            )
            &&& i + 1 < n && below == (|p: Place| 0int) ==> value(a, out[i]) == (a.conv)(
                project.pointwise,
                (a.conv)(project.depthwise, value(a, ts[i])),
            )
        }),
{
    law_head_shapes(head, channels, ts, base);
    let n = ts.len() as int;
    let out = head.of(ts);
    let rev = ts.reverse();
    let j = n - 1 - i;
    let project = head.projects@[j];
    let d = shape(ts[i])->0;
    assert(shape(ts[i]) == Some(level(base, channels[i], i)));
    assert(rev[j] == ts[i]);
    assert(out[i] == head.projected(rev, j));
    reveal_with_fuel(value, 3);
    if i + 1 < n {
        let lower = out[i + 1];
        assert(lower == head.projected(rev, j - 1));
        assert(shape(out[i + 1]) == Some(level(base, channels[i], i + 1)));
        let resized = brought_up(head.upsample_mode, lower, d.height, d.width);
        assert(resized == head.resized(lower, d.height, d.width));
        assert(shape(resized) == Some(d));
        lemma_plus(a, ts[i], resized, d);
        let below = value(a, resized);
        if below == (|p: Place| 0int) {
            assert((|p: Place| value(a, ts[i])(p) + below(p)) =~= value(a, ts[i])) by {
                assert forall|p: Place| #[trigger] below(p) == 0 by {
                    assert((|p: Place| 0int)(p) == 0);
                }
            }
        }
    }
}

/// A head on two branches gives the upper one added to the resized projection of the lower one,
/// and projected.
pub proof fn law_head_of_two_branches(head: IterativeHead, high: Term, low: Term)
    requires
        head.projects@.len() == 2,
        shape(high) is Some,
    ensures
        ({
            let d = shape(high)->0;
            let first = head.projects@[0];
            let second = head.projects@[1];
            let below = Term::Conv(
                first.pointwise,
                Box::new(Term::Conv(first.depthwise, Box::new(low))),
            );
            let out = head.of(seq![high, low]);
            &&& out.len() == 2
            &&& out[1] == below
            &&& head.upsample_mode == HeadUpsampleMode::BilinearAligned && !(shape(below) is Some
                && shape(below)->0.height == d.height && shape(below)->0.width == d.width) ==> out[0]
                == Term::Conv(
                second.pointwise,
                Box::new(
                    Term::Conv(
                        second.depthwise,
                        Box::new(
                            Term::Plus(
                                Box::new(high),
                                Box::new(Term::Bilinear(Box::new(below), d.height, d.width)),
                            ),
                        ),
                    ),
                ),
            )
            &&& head.upsample_mode == HeadUpsampleMode::Nearest && !(shape(below) is Some && shape(
                below,
            )->0.height == d.height && shape(below)->0.width == d.width) ==> out[0] == Term::Conv(
                second.pointwise,
                Box::new(
                    Term::Conv(
                        second.depthwise,
                        Box::new(
                            Term::Plus(
                                Box::new(high),
                                Box::new(Term::Nearest(Box::new(below), d.height, d.width)),
                            ),
                        ),
                    ),
                ),
            )
        }),
{
    let ts = seq![high, low];
    let rev = ts.reverse();
    assert(rev[0] == low && rev[1] == high);
    reveal_with_fuel(IterativeHead::projected, 3);
    assert(head.of(ts)[1] == head.projected(rev, 0));
    assert(head.of(ts)[0] == head.projected(rev, 1));
}

/// Weighting the channels of a branch multiplies every value by the weight of its channel. The
/// weights are two convolutions, one behind the other, of the branch pooled to one pixel.
pub proof fn law_spatial_weighting_scales_channels(
    a: Arithmetic,
    block: SpatialWeighting,
    channels: usize,
    ratio: usize,
    t: Term,
    d: Dims,
    p: Place,
)
    requires
        block.planned(channels, ratio),
        shape(t) == Some(d),
        d.channels == channels,
        p.inside(d),
    ensures
        ({
            let weights = (a.conv)(
                block.conv2,
                (a.conv)(block.conv1, (a.pool)(value(a, t), d, 1, 1)),
            );
            value(a, block.of(t))(p) == value(a, t)(p) * weights(
                Place { item: p.item, channel: p.channel, row: 0, column: 0 },
            )
        }),
{
    law_spatial_weighting_keeps_shape(block, channels, ratio, t, d);
    let pooled = Term::AvgPool(Box::new(t), 1, 1);
    let dp = d.over(1, 1);
    lemma_conv_1x1(block.conv1, pooled, dp);
    let squeezed = block.conv1.of(pooled);
    lemma_conv_1x1(block.conv2, squeezed, dp.with_channels(block.conv1.out_channels));
    let weights = block.weights_of(t);
    assert(shape(weights) == Some(dp));
    reveal_with_fuel(value, 4);
    assert(read_at(p, d, d) == p);
    assert(read_at(p, dp, d) == (Place { item: p.item, channel: p.channel, row: 0, column: 0 }));
}

/// In the interleaving of two terms with as many channels each, the channels of the first stand
/// at even places and those of the second at odd places.
proof fn lemma_interleaved(a: Arithmetic, l: Term, r: Term, m: int, k: int, p: Place)
    requires
        shape(l) is Some,
        shape(l)->0.channels == m,
        shape(Term::Concat(Box::new(l), Box::new(r))) is Some,
        shape(Term::Concat(Box::new(l), Box::new(r)))->0.channels == 2 * m,
        0 <= k < m,
    ensures
        ({
            let t = Term::Shuffle(Box::new(Term::Concat(Box::new(l), Box::new(r))), 2);
            &&& value(a, t)(p.in_channel(2 * k)) == value(a, l)(p.in_channel(k))
            &&& value(a, t)(p.in_channel(2 * k + 1)) == value(a, r)(p.in_channel(k))
        }),
{
    law_shuffle_interleaves(0, k, 2, m);
    law_shuffle_interleaves(1, k, 2, m);
    assert(0 * m == 0 && 1 * m == m);
    let joined = Term::Concat(Box::new(l), Box::new(r));
    let t = Term::Shuffle(Box::new(joined), 2);
    reveal_with_fuel(value, 3);
    let even = p.in_channel(2 * k);
    let odd = p.in_channel(2 * k + 1);
    assert(even.in_channel(k) == p.in_channel(k));
    assert(odd.in_channel(m + k) == p.in_channel(m + k));
    assert(p.in_channel(m + k).in_channel(k) == p.in_channel(k));
    assert(value(a, t)(even) == value(a, joined)(p.in_channel(k)));
    assert(value(a, t)(odd) == value(a, joined)(p.in_channel(m + k)));
}

/// The second half of the channels of a term.
pub open spec fn upper_half(t: Term) -> Term {
    let channels = shape(t)->0.channels;
    Term::Narrow(Box::new(t), (channels / 2) as usize, (channels / 2) as usize)
}

/// A weighting block passes half of the channels of every branch on as they are, to the even
/// places. At the odd places stands what the weighting across resolutions, a depthwise
/// convolution and the weighting of channels make of the other half.
pub proof fn law_conditional_weighting_passes_half_on(
    a: Arithmetic,
    block: ConditionalChannelWeighting,
    in_channels: Seq<usize>,
    reduce_ratio: usize,
    ts: Seq<Term>,
    i: int,
    k: int,
    p: Place,
)
    requires
        block.planned(in_channels, 1, reduce_ratio),
        ConditionalChannelWeighting::splits(in_channels),
        total(in_channels) <= usize::MAX,
        branches_fit(ts, in_channels),
        0 <= i < ts.len(),
        0 <= k < in_channels[i] / 2,
    ensures
        ({
            let halves = ts.map_values(|t: Term| upper_half(t));
            let crossed = block.cross_resolution_weighting.of(halves)[i];
            let worked = block.spatial_weighting@[i].of(
                Term::Conv(block.depthwise_convs@[i], Box::new(crossed)),
            );
            let out = block.of(ts)[i];
            &&& block.of(ts).len() == ts.len()
            &&& value(a, out)(p.in_channel(2 * k)) == value(a, ts[i])(p.in_channel(k))
            &&& value(a, out)(p.in_channel(2 * k + 1)) == value(a, worked)(p.in_channel(k))
        }),
{
    law_conditional_weighting_keeps_shapes(block, in_channels, reduce_ratio, ts);
    let halves = ts.map_values(|t: Term| upper_half(t));
    let d = shape(ts[i])->0;
    assert(shape(ts[i]) is Some);
    assert(2 <= in_channels[i] && in_channels[i] % 2 == 0);
    assert(halves =~= ConditionalChannelWeighting::worked(ts)) by {
        assert forall|j: int| 0 <= j < ts.len() implies upper_half(ts[j]) == second_half(ts[j]) by {
            assert(shape(ts[j]) is Some);
            assert(2 <= in_channels[j] && in_channels[j] % 2 == 0);
        }
    }
    lemma_halves(ts[i], d);
    let cross = block.cross_resolution_weighting;
    assert(cross.of(halves)[i] == cross.weighted(halves, i));
    let first = first_half(ts[i]);
    let worked = block.spatial_weighting@[i].of(block.convolved(ts, i));
    let joined = Term::Concat(Box::new(first), Box::new(worked));
    assert(block.of(ts)[i] == Term::Shuffle(Box::new(joined), 2));
    assert(shape(block.of(ts)[i]) == Some(d));
    let m = (d.channels / 2) as int;
    lemma_interleaved(a, first, worked, m, k, p);
    assert(p.in_channel(k).in_channel(k + 0) == p.in_channel(k));
}

/// The weights of branch `i` in the weighting across resolutions: those at the places behind the
/// channels of the branches before it, resized to the plane of the branch.
pub open spec fn own_weights(
    weights: Term,
    before: int,
    channels: usize,
    d: Dims,
    low: Dims,
) -> Term {
    let own = Term::Narrow(Box::new(weights), before as usize, channels);
    if low.height == d.height && low.width == d.width {
        own
    } else {
        Term::Nearest(Box::new(own), d.height, d.width)
    }
}

/// Weighting across resolutions multiplies every value of a branch by the weight of its channel
/// near its place. The weights are two convolutions, one behind the other, of all branches pooled
/// to the plane of the last one and put behind each other.
pub proof fn law_cross_resolution_weighting_scales_values(
    a: Arithmetic,
    block: CrossResolutionWeighting,
    channels: Seq<usize>,
    ratio: usize,
    ts: Seq<Term>,
    i: int,
    p: Place,
)
    requires
        block.planned(channels, ratio),
        total(channels) <= usize::MAX,
        forall|j: int| 0 <= j < channels.len() ==> #[trigger] channels[j] > 0,
        branches_fit(ts, channels),
        0 <= i < ts.len(),
    ensures
        ({
            let low = shape(ts.last())->0;
            let pooled = Seq::new(
                ts.len(),
                |j: int|
                    if j == ts.len() - 1 {
                        ts[j]
                    } else {
                        Term::AvgPool(Box::new(ts[j]), low.height, low.width)
                    },
            );
            let weights = Term::Conv(
                block.conv2,
                Box::new(Term::Conv(block.conv1, Box::new(concat_all(pooled)))),
            );
            let own = own_weights(
                weights,
                total(channels.take(i)),
                channels[i],
                shape(ts[i])->0,
                low,
            );
            &&& block.of(ts).len() == ts.len()
            &&& value(a, block.of(ts)[i])(p) == value(a, ts[i])(p) * value(a, own)(p)
        }),
{
    law_cross_resolution_weighting_keeps_shapes(block, channels, ratio, ts);
    let low = shape(ts.last())->0;
    let pooled = Seq::new(
        ts.len(),
        |j: int|
            if j == ts.len() - 1 {
                ts[j]
            } else {
                Term::AvgPool(Box::new(ts[j]), low.height, low.width)
            },
    );
    assert(pooled =~= CrossResolutionWeighting::all_pooled(ts));
    let weights = block.weights_of(ts);
    let d = shape(ts[i])->0;
    assert(shape(ts[i]) is Some && shape(ts[ts.len() - 1]) is Some);
    let split = block.split(ts, i);
    assert(shape(split) is Some);
    assert(shape(block.weighted(ts, i)) == shape(ts[i]));
    assert(shape(weights) is Some);
    lemma_weights_extent(block, channels, ratio, ts, i);
    let own = own_weights(weights, total(channels.take(i)), channels[i], d, low);
    assert(own == nearest_to(split, d.height, d.width));
    assert(shape(own) == Some(d));
    assert(block.of(ts)[i] == Term::Times(Box::new(ts[i]), Box::new(own)));
    assert(read_at(p, d, d) == p);
}

/// The weights of a branch have the plane of the last branch.
proof fn lemma_weights_extent(
    block: CrossResolutionWeighting,
    channels: Seq<usize>,
    ratio: usize,
    ts: Seq<Term>,
    i: int,
)
    requires
        block.planned(channels, ratio),
        total(channels) <= usize::MAX,
        forall|j: int| 0 <= j < channels.len() ==> #[trigger] channels[j] > 0,
        branches_fit(ts, channels),
        0 <= i < ts.len(),
    ensures
        shape(block.split(ts, i)) == Some(shape(ts.last())->0.with_channels(channels[i])),
        shape(ts[i])->0.batch == shape(ts.last())->0.batch,
        shape(ts[i])->0.channels == channels[i],
{
    let n = ts.len() as int;
    let last = shape(ts[n - 1])->0;
    let pooled = CrossResolutionWeighting::all_pooled(ts);
    assert(shape(ts[n - 1]) is Some);
    assert forall|j: int| 0 <= j < pooled.len() implies shape(#[trigger] pooled[j]) == Some(
        last.with_channels(channels[j]),
    ) by {
        assert(shape(ts[j]) is Some);
        assert(shape(ts[j])->0.batch == shape(ts[0])->0.batch);
        assert(last.batch == shape(ts[0])->0.batch);
    }
    lemma_concat_all(pooled, channels, last);
    lemma_total_nonnegative(channels);
    let joined = concat_all(pooled);
    let dj = last.with_channels(total(channels) as usize);
    lemma_conv_1x1(block.conv1, joined, dj);
    let squeezed = block.conv1.of(joined);
    lemma_conv_1x1(block.conv2, squeezed, dj.with_channels(block.conv1.out_channels));
    lemma_total_prefix(channels, i + 1);
    lemma_total_nonnegative(channels.take(i));
    assert(channels.take(i + 1).drop_last() =~= channels.take(i));
    assert(shape(ts[i]) is Some);
}

/// In a concatenation, the channels of a term stand behind those of the terms before it.
pub proof fn law_concatenation_keeps_channels(
    a: Arithmetic,
    terms: Seq<Term>,
    channels: Seq<usize>,
    d: Dims,
    i: int,
    c: int,
    p: Place,
)
    requires
        terms.len() == channels.len(),
        total(channels) <= usize::MAX,
        forall|j: int|
            0 <= j < terms.len() ==> shape(#[trigger] terms[j]) == Some(
                d.with_channels(channels[j]),
            ),
        0 <= i < terms.len(),
        0 <= c < channels[i],
    ensures
        value(a, concat_all(terms))(p.in_channel(total(channels.take(i)) + c)) == value(
            a,
            terms[i],
        )(p.in_channel(c)),
    decreases terms.len(),
{
    let n = terms.len() - 1;
    if n == 0 {
        assert(channels.take(0) =~= Seq::<usize>::empty());
        assert(p.in_channel(0 + c) == p.in_channel(c));
    } else {
        let rest = terms.drop_last();
        let rest_channels = channels.drop_last();
        lemma_total_nonnegative(rest_channels);
        assert forall|j: int| 0 <= j < rest.len() implies shape(#[trigger] rest[j]) == Some(
            d.with_channels(rest_channels[j]),
        ) by {
            assert(rest[j] == terms[j]);
        }
        lemma_concat_all(rest, rest_channels, d);
        let first = total(rest_channels);
        assert(shape(concat_all(rest))->0.channels == first);
        let at = p.in_channel(total(channels.take(i)) + c);
        if i < n {
            assert(rest_channels.take(i) =~= channels.take(i));
            law_concatenation_keeps_channels(a, rest, rest_channels, d, i, c, p);
            lemma_total_prefix(rest_channels, i + 1);
            assert(rest_channels.take(i + 1).drop_last() =~= rest_channels.take(i));
            assert(at.channel < first);
        } else {
            assert(channels.take(n) =~= rest_channels);
            assert(at.in_channel(at.channel - first) == p.in_channel(c));
        }
    }
}

/// A shuffle unit with stride one passes the first half of the channels on as they are, to the
/// even places. At the odd places stand three convolutions of the other half.
pub proof fn law_shuffle_unit_passes_half_on(
    a: Arithmetic,
    unit: ShuffleUnit,
    channels: usize,
    t: Term,
    d: Dims,
    k: int,
    p: Place,
)
    requires
        unit.planned(channels, channels, 1),
        channels >= 2,
        channels % 2 == 0,
        shape(t) == Some(d),
        d.channels == channels,
        plane_fits(d),
        0 <= k < channels / 2,
    ensures
        value(a, unit.of(t))(p.in_channel(2 * k)) == value(a, t)(p.in_channel(k)),
        value(a, unit.of(t))(p.in_channel(2 * k + 1)) == (a.conv)(
            unit.branch2_linear,
            (a.conv)(
                unit.branch2_depthwise,
                (a.conv)(unit.branch2_expand, value(a, upper_half(t))),
            ),
        )(p.in_channel(k)),
{
    law_shuffle_unit_keeps_shape(unit, channels, t, d);
    lemma_halves(t, d);
    let first = first_half(t);
    let second = unit.second_branch(second_half(t));
    assert(second_half(t) == upper_half(t));
    let joined = Term::Concat(Box::new(first), Box::new(second));
    assert(unit.of(t) == Term::Shuffle(Box::new(joined), 2));
    lemma_interleaved(a, first, second, (channels / 2) as int, k, p);
    assert(p.in_channel(k).in_channel(k + 0) == p.in_channel(k));
    reveal_with_fuel(value, 4);
}

/// A shuffle unit with stride two works on all channels twice: at the even places stand two
/// convolutions of them, at the odd places three.
pub proof fn law_shuffle_unit_works_twice(
    a: Arithmetic,
    unit: ShuffleUnit,
    in_channels: usize,
    out_channels: usize,
    t: Term,
    d: Dims,
    k: int,
    p: Place,
)
    requires
        unit.planned(in_channels, out_channels, 2),
        out_channels >= 2,
        out_channels % 2 == 0,
        shape(t) == Some(d),
        d.channels == in_channels,
        plane_fits(d),
        0 <= k < out_channels / 2,
    ensures
        value(a, unit.of(t))(p.in_channel(2 * k)) == (a.conv)(
            unit.branch1_pointwise->0,
            (a.conv)(unit.branch1_depthwise->0, value(a, t)),
        )(p.in_channel(k)),
        value(a, unit.of(t))(p.in_channel(2 * k + 1)) == (a.conv)(
            unit.branch2_linear,
            (a.conv)(unit.branch2_depthwise, (a.conv)(unit.branch2_expand, value(a, t))),
        )(p.in_channel(k)),
{
    law_shuffle_unit_halves_plane(unit, in_channels, out_channels, t, d);
    let depthwise = unit.branch1_depthwise->0;
    let pointwise = unit.branch1_pointwise->0;
    lemma_conv_3x3(depthwise, t, d);
    lemma_conv_1x1(pointwise, depthwise.of(t), halved_plane(d));
    let first = pointwise.of(depthwise.of(t));
    let second = unit.second_branch(t);
    let joined = Term::Concat(Box::new(first), Box::new(second));
    assert(unit.of(t) == Term::Shuffle(Box::new(joined), 2));
    lemma_interleaved(a, first, second, (out_channels / 2) as int, k, p);
    reveal_with_fuel(value, 4);
}

/// A stem convolves the image, works on the two halves of its channels on their own, puts the
/// results behind each other and interleaves them.
pub proof fn law_stem_works_on_halves(stem: Stem, t: Term, d: Dims)
    requires
        shape(Term::Conv(stem.conv1, Box::new(t))) == Some(d),
        d.channels % 2 == 0,
    ensures
        ({
            let half = (d.channels / 2) as usize;
            let x = Term::Conv(stem.conv1, Box::new(t));
            let first = Term::Conv(
                stem.branch1_pointwise,
                Box::new(
                    Term::Conv(
                        stem.branch1_depthwise,
                        Box::new(Term::Narrow(Box::new(x), 0, half)),
                    ),
                ),
            );
            let second = Term::Conv(
                stem.linear_conv,
                Box::new(
                    Term::Conv(
                        stem.depthwise_conv,
                        Box::new(
                            Term::Conv(
                                stem.expand_conv,
                                Box::new(Term::Narrow(Box::new(x), half, half)),
                            ),
                        ),
                    ),
                ),
            );
            stem.of(t) == Term::Shuffle(
                Box::new(Term::Concat(Box::new(first), Box::new(second))),
                2,
            )
        }),
{
}

/// A stem whose channels stay as many puts what became of the first half of its channels at the
/// even places, and what became of the second half at the odd places.
pub proof fn law_stem_interleaves_its_branches(
    a: Arithmetic,
    stem: Stem,
    in_channels: usize,
    channels: usize,
    mid_channels: usize,
    t: Term,
    d: Dims,
    k: int,
    p: Place,
)
    requires
        stem.planned(in_channels, channels, mid_channels, channels),
        channels >= 2,
        channels % 2 == 0,
        shape(t) == Some(d),
        d.channels == in_channels,
        plane_fits(d),
        0 <= k < channels / 2,
    ensures
        ({
            let x = Term::Conv(stem.conv1, Box::new(t));
            let half = (channels / 2) as usize;
            let first = value(a, Term::Narrow(Box::new(x), 0, half));
            let second = value(a, Term::Narrow(Box::new(x), half, half));
            &&& value(a, stem.of(t))(p.in_channel(2 * k)) == (a.conv)(
                stem.branch1_pointwise,
                (a.conv)(stem.branch1_depthwise, first),
            )(p.in_channel(k))
            &&& value(a, stem.of(t))(p.in_channel(2 * k + 1)) == (a.conv)(
                stem.linear_conv,
                (a.conv)(stem.depthwise_conv, (a.conv)(stem.expand_conv, second)),
            )(p.in_channel(k))
        }),
{
    law_stem_shape(stem, in_channels, channels, mid_channels, channels, t, d);
    let x = stem.conv1.of(t);
    lemma_conv_3x3(stem.conv1, t, d);
    let dx = halved_plane(d).with_channels(channels);
    lemma_halves(x, dx);
    let half = first_half(x);
    let dh = dx.with_channels((channels / 2) as usize);
    lemma_conv_3x3(stem.branch1_depthwise, half, dh);
    lemma_conv_1x1(stem.branch1_pointwise, stem.branch1_depthwise.of(half), halved_plane(dh));
    lemma_interleaved(
        a,
        stem.first_branch(t),
        stem.second_branch(t),
        (channels / 2) as int,
        k,
        p,
    );
    reveal_with_fuel(value, 4);
}

/// Layers in a chain run one behind the other: none of them leaves a term as it is, one is its
/// convolution, and a chain behind another works on what the other gives.
pub proof fn law_chains_run_in_order(
    first: Seq<ConvBnAct>,
    second: Seq<ConvBnAct>,
    layer: ConvBnAct,
    t: Term,
)
    ensures
        chain(Seq::empty(), t) == t,
        chain(seq![layer], t) == Term::Conv(layer, Box::new(t)),
        chain(first + second, t) == chain(second, chain(first, t)),
    decreases second.len(),
{
    assert(seq![layer].drop_last() =~= Seq::<ConvBnAct>::empty());
    reveal_with_fuel(chain, 2);
    if second.len() == 0 {
        assert(first + second =~= first);
    } else {
        law_chains_run_in_order(first, second.drop_last(), layer, t);
        assert((first + second).drop_last() =~= first + second.drop_last());
        assert((first + second).last() == second.last());
    }
}

/// Blocks run one behind the other.
pub proof fn law_blocks_run_in_order(
    first: Seq<ConditionalChannelWeighting>,
    second: Seq<ConditionalChannelWeighting>,
    block: ConditionalChannelWeighting,
    ts: Seq<Term>,
)
    ensures
        lite_fold(Seq::empty(), ts) == ts,
        lite_fold(seq![block], ts) == block.of(ts),
        lite_fold(first + second, ts) == lite_fold(second, lite_fold(first, ts)),
    decreases second.len(),
{
    assert(seq![block].drop_last() =~= Seq::<ConditionalChannelWeighting>::empty());
    reveal_with_fuel(lite_fold, 2);
    if second.len() == 0 {
        assert(first + second =~= first);
    } else {
        law_blocks_run_in_order(first, second.drop_last(), block, ts);
        assert((first + second).drop_last() =~= first + second.drop_last());
        assert((first + second).last() == second.last());
    }
}

/// Shuffle units run one behind the other.
pub proof fn law_units_run_in_order(
    first: Seq<ShuffleUnit>,
    second: Seq<ShuffleUnit>,
    unit: ShuffleUnit,
    t: Term,
)
    ensures
        unit_chain(Seq::empty(), t) == t,
        unit_chain(seq![unit], t) == unit.of(t),
        unit_chain(first + second, t) == unit_chain(second, unit_chain(first, t)),
    decreases second.len(),
{
    assert(seq![unit].drop_last() =~= Seq::<ShuffleUnit>::empty());
    reveal_with_fuel(unit_chain, 2);
    if second.len() == 0 {
        assert(first + second =~= first);
    } else {
        law_units_run_in_order(first, second.drop_last(), unit, t);
        assert((first + second).drop_last() =~= first + second.drop_last());
        assert((first + second).last() == second.last());
    }
}

/// Modules run one behind the other.
pub proof fn law_modules_run_in_order(
    first: Seq<LiteHrModule>,
    second: Seq<LiteHrModule>,
    module: LiteHrModule,
    ts: Seq<Term>,
)
    ensures
        module_fold(Seq::empty(), ts) == ts,
        module_fold(seq![module], ts) == module.of(ts),
        module_fold(first + second, ts) == module_fold(second, module_fold(first, ts)),
    decreases second.len(),
{
    assert(seq![module].drop_last() =~= Seq::<LiteHrModule>::empty());
    reveal_with_fuel(module_fold, 2);
    if second.len() == 0 {
        assert(first + second =~= first);
    } else {
        law_modules_run_in_order(first, second.drop_last(), module, ts);
        assert((first + second).drop_last() =~= first + second.drop_last());
        assert((first + second).last() == second.last());
    }
}

/// Sum of the first `n` of a list of numbers.
pub open spec fn sum(numbers: spec_fn(int) -> int, n: int) -> int
    decreases n,
{
    if n <= 0 {
        0
    } else {
        sum(numbers, n - 1) + numbers(n - 1)
    }
}

/// What branch `input` gives to branch `output` in an exchange: branch `output` itself stays as it
/// is, a lower branch is convolved once and resized, and a higher one goes through its chain of
/// convolutions.
pub open spec fn given(
    rows: Seq<Vec<FuseLayer>>,
    outs: Seq<Term>,
    output: int,
    input: int,
) -> Term {
    let d = shape(outs[output])->0;
    let ops = rows[output]@[input].ops@;
    if input == output {
        outs[output]
    } else if input > output {
        let x = Term::Conv(ops[0], Box::new(outs[input]));
        if shape(x) is Some && shape(x)->0.height == d.height && shape(x)->0.width == d.width {
            x
        } else {
            Term::Nearest(Box::new(x), d.height, d.width)
        }
    } else {
        chain(ops, outs[input])
    }
}

/// An exchange gives every branch the rectified sum of what all branches give to it, in which the
/// first branch counts twice.
pub proof fn law_exchange_rectifies_the_sum_of_branches(
    a: Arithmetic,
    module: LiteHrModule,
    num_blocks: usize,
    channels: Seq<usize>,
    reduce_ratio: usize,
    module_type: LiteHrModuleType,
    multiscale_output: bool,
    ts: Seq<Term>,
    base: Dims,
    o: int,
    p: Place,
)
    requires
        module.planned(num_blocks, channels, reduce_ratio, module_type, multiscale_output, true),
        LiteHrModule::can_make(
            num_blocks,
            channels,
            reduce_ratio,
            module_type,
            multiscale_output,
            true,
        ),
        channels.len() > 1,
        pyramid(ts, channels, base),
        0 <= o < channels.len(),
        multiscale_output || o == 0,
    ensures
        ({
            let outs = module.blocks_of(ts);
            let gives = |i: int| value(a, given(module.fuse_layers@, outs, o, i))(p);
            let s = gives(0) + sum(gives, channels.len() as int);
            &&& module.of(ts).len() == if multiscale_output {
                channels.len()
            } else {
                1
            }
            &&& value(a, module.of(ts)[o])(p) == if s < 0 {
                0
            } else {
                s
            }
        }),
{
    lemma_blocks_keep_pyramid(
        module,
        num_blocks,
        channels,
        reduce_ratio,
        module_type,
        multiscale_output,
        true,
        ts,
        base,
    );
    let outs = module.blocks_of(ts);
    let rows = module.fuse_layers@;
    let n = channels.len() as int;
    let gives = |i: int| value(a, given(rows, outs, o, i))(p);
    assert(LiteHrModule::row_planned(rows[o]@, channels, o));
    lemma_exchange_sum(a, module, channels, outs, base, o, n, p);
    assert(module.of(ts)[o] == Term::Relu(Box::new(module.fused_sum(outs, o, n))));
}

/// What a branch gives to another is its contribution.
proof fn lemma_given(
    module: LiteHrModule,
    channels: Seq<usize>,
    outs: Seq<Term>,
    base: Dims,
    o: int,
    i: int,
)
    requires
        pyramid(outs, channels, base),
        0 <= o < module.fuse_layers@.len(),
        o < channels.len(),
        0 <= i < channels.len(),
        LiteHrModule::row_planned(module.fuse_layers@[o]@, channels, o),
    ensures
        shape(given(module.fuse_layers@, outs, o, i)) == Some(level(base, channels[o], o)),
        i != o ==> given(module.fuse_layers@, outs, o, i) == module.contribution(outs, o, i),
{
    lemma_contribution(module, channels, outs, base, o, i);
    assert(shape(outs[o]) == Some(level(base, channels[o], o)));
    let layer = module.fuse_layers@[o]@[i];
    assert(layer.planned(channels, o, i));
    if i > o {
        let ops = layer.ops@;
        law_chains_run_in_order(Seq::empty(), Seq::empty(), ops[0], outs[i]);
        assert(ops =~= seq![ops[0]]);
    }
}

/// The sum of an exchange adds up what the branches give.
proof fn lemma_exchange_sum(
    a: Arithmetic,
    module: LiteHrModule,
    channels: Seq<usize>,
    outs: Seq<Term>,
    base: Dims,
    o: int,
    n: int,
    p: Place,
)
    requires
        pyramid(outs, channels, base),
        0 <= o < module.fuse_layers@.len(),
        o < channels.len(),
        0 <= n <= channels.len(),
        LiteHrModule::row_planned(module.fuse_layers@[o]@, channels, o),
    ensures
        ({
            let gives = |i: int| value(a, given(module.fuse_layers@, outs, o, i))(p);
            value(a, module.fused_sum(outs, o, n))(p) == gives(0) + sum(gives, n)
        }),
        shape(module.fused_sum(outs, o, n)) == Some(level(base, channels[o], o)),
    decreases n,
{
    let d = level(base, channels[o], o);
    let gives = |i: int| value(a, given(module.fuse_layers@, outs, o, i))(p);
    assert(shape(outs[o]) == Some(d));
    if n == 0 {
        lemma_given(module, channels, outs, base, o, 0);
    } else {
        lemma_exchange_sum(a, module, channels, outs, base, o, n - 1, p);
        lemma_given(module, channels, outs, base, o, n - 1);
        let before = module.fused_sum(outs, o, n - 1);
        let added = given(module.fuse_layers@, outs, o, n - 1);
        assert(module.fused_sum(outs, o, n) == Term::Plus(Box::new(before), Box::new(added)));
        lemma_plus(a, before, added, d);
    }
}

/// Without an exchange a module gives its branches, or the first of them where it puts out one.
pub proof fn law_module_without_exchange_gives_its_blocks(
    module: LiteHrModule,
    num_blocks: usize,
    channels: Seq<usize>,
    reduce_ratio: usize,
    module_type: LiteHrModuleType,
    multiscale_output: bool,
    ts: Seq<Term>,
    base: Dims,
)
    requires
        module.planned(num_blocks, channels, reduce_ratio, module_type, multiscale_output, false),
        LiteHrModule::can_make(
            num_blocks,
            channels,
            reduce_ratio,
            module_type,
            multiscale_output,
            false,
        ),
        pyramid(ts, channels, base),
    ensures
        module_type is Lite && multiscale_output ==> module.of(ts) == lite_fold(
            module.lite_layers@,
            ts,
        ),
        module_type is Naive && multiscale_output ==> module.of(ts).len() == ts.len() && forall|i: int|
            0 <= i < ts.len() ==> #[trigger] module.of(ts)[i] == unit_chain(
                module.naive_layers@[i]@,
                ts[i],
            ),
        !multiscale_output ==> module.of(ts).len() == 1 && module.of(ts)[0] == module.blocks_of(
            ts,
        )[0],
{
    lemma_blocks_keep_pyramid(
        module,
        num_blocks,
        channels,
        reduce_ratio,
        module_type,
        multiscale_output,
        false,
        ts,
        base,
    );
}

/// The blocks of a module are its weighting blocks one behind the other, or on every branch its
/// shuffle units one behind the other.
pub proof fn law_module_runs_its_blocks(module: LiteHrModule, ts: Seq<Term>)
    requires
        module.module_type is Naive ==> module.naive_layers@.len() == ts.len(),
    ensures
        module.module_type is Lite ==> module.blocks_of(ts) == lite_fold(module.lite_layers@, ts),
        module.module_type is Naive ==> module.blocks_of(ts).len() == ts.len() && forall|i: int|
            0 <= i < ts.len() ==> #[trigger] module.blocks_of(ts)[i] == unit_chain(
                module.naive_layers@[i]@,
                ts[i],
            ),
{
}

/// A step between stages keeps a branch whose channels stay, convolves one whose channels change,
/// and makes every new branch out of the last one.
pub proof fn law_transition_makes_new_branches_of_the_last(
    layer: TransitionLayer,
    previous: Seq<usize>,
    current: Seq<usize>,
    ts: Seq<Term>,
    i: int,
)
    requires
        layer.planned(previous, current),
        ts.len() == previous.len(),
        previous.len() > 0,
        0 <= i < current.len(),
    ensures
        layer.of(ts).len() == current.len(),
        i < ts.len() && previous[i] == current[i] ==> layer.of(ts)[i] == ts[i],
        i < ts.len() && previous[i] != current[i] ==> layer.branches@[i].ops@.len() == 2
            && layer.of(ts)[i] == Term::Conv(
            layer.branches@[i].ops@[1],
            Box::new(Term::Conv(layer.branches@[i].ops@[0], Box::new(ts[i]))),
        ),
        i >= ts.len() ==> layer.branches@[i].ops@.len() == 2 * (i + 1 - ts.len()) && layer.of(ts)[i]
            == chain(layer.branches@[i].ops@, ts[ts.len() - 1]),
{
    let branch = layer.branches@[i];
    assert(TransitionLayer::branch_planned(branch, previous, current, i));
    let ops = branch.ops@;
    if i < ts.len() && previous[i] != current[i] {
        law_chains_run_in_order(seq![ops[0]], seq![ops[1]], ops[0], ts[i]);
        law_chains_run_in_order(
            Seq::empty(),
            Seq::empty(),
            ops[1],
            Term::Conv(ops[0], Box::new(ts[i])),
        );
        assert(ops =~= seq![ops[0]] + seq![ops[1]]);
    }
}

/// A backbone runs its stem and then its stages, each behind the step that leads to it, and the
/// head behind them.
pub proof fn law_backbone_runs_its_stages_in_order(net: LiteHrNet, t: Term, n: int)
    requires
        0 <= n,
    ensures
        ({
            let ts = seq![net.stem.of(t)];
            let steps = net.transitions@;
            let stages = net.stages@;
            &&& stage_fold(steps, stages, ts, 0) == ts
            &&& stage_fold(steps, stages, ts, n + 1) == module_fold(
                stages[n].modules@,
                steps[n].of(stage_fold(steps, stages, ts, n)),
            )
            &&& steps.len() == stages.len() && net.head_layer is None ==> net.features_of(t)
                == stage_fold(steps, stages, ts, stages.len() as int)
            &&& steps.len() == stages.len() && net.head_layer is Some ==> net.features_of(t)
                == net.head_layer->0.of(stage_fold(steps, stages, ts, stages.len() as int))
        }),
{
}

/// The heatmaps are one convolution of the feature with the highest resolution.
pub proof fn law_heatmaps_come_from_the_first_feature(net: LiteHrNetPose, t: Term)
    ensures
        net.of(t) == Term::Conv(net.head, Box::new(net.backbone.features_of(t)[0])),
{
}

/// What register `r` holds after the operations of a program were done one by one, where
/// `extents` are those of the registers.
pub open spec fn held(a: Arithmetic, ops: Seq<TensorOp>, extents: Seq<Dims>, r: int) -> spec_fn(
    Place,
) -> int
    decreases r,
{
    if r < 0 || !operands_below(ops[r], r) {
        |p: Place| 0
    } else {
        match ops[r] {
            TensorOp::Input { slot, dims } => (a.input)(slot),
            TensorOp::Conv { layer, input } => (a.conv)(layer, held(a, ops, extents, input as int)),
            TensorOp::AvgPool { input, height, width } => (a.pool)(
                held(a, ops, extents, input as int),
                extents[input as int],
                height,
                width,
            ),
            TensorOp::Concat { left, right } => {
                let first = extents[left as int].channels as int;
                let l = held(a, ops, extents, left as int);
                let r = held(a, ops, extents, right as int);
                |p: Place|
                    if p.channel < first {
                        l(p)
                    } else {
                        r(p.in_channel(p.channel - first))
                    }
            },
            TensorOp::Narrow { input, start, length } => {
                let x = held(a, ops, extents, input as int);
                |p: Place| x(p.in_channel(p.channel + start))
            },
            TensorOp::Shuffle { input, groups } => {
                let x = held(a, ops, extents, input as int);
                let channels = extents[input as int].channels as int;
                |p: Place| x(p.in_channel(shuffled_from(p.channel, channels, groups as int)))
            },
            TensorOp::Nearest { input, height, width } => (a.nearest)(
                held(a, ops, extents, input as int),
                extents[input as int],
                height,
                width,
            ),
            TensorOp::Bilinear { input, height, width } => (a.bilinear)(
                held(a, ops, extents, input as int),
                extents[input as int],
                height,
                width,
            ),
            TensorOp::Plus { left, right } => {
                let l = held(a, ops, extents, left as int);
                let r = held(a, ops, extents, right as int);
                let dl = extents[left as int];
                let dr = extents[right as int];
                let whole = elementwise_dims(dl, dr)->0;
                |p: Place| l(read_at(p, dl, whole)) + r(read_at(p, dr, whole))
            },
            TensorOp::Times { left, right } => {
                let l = held(a, ops, extents, left as int);
                let r = held(a, ops, extents, right as int);
                let dl = extents[left as int];
                let dr = extents[right as int];
                let whole = elementwise_dims(dl, dr)->0;
                |p: Place| l(read_at(p, dl, whole)) * r(read_at(p, dr, whole))
            },
            TensorOp::Relu { input } => {
                let x = held(a, ops, extents, input as int);
                |p: Place|
                    if x(p) < 0 {
                        0
                    } else {
                        x(p)
                    }
            },
        }
    }
}

/// Doing the operations of a program one by one gives in every register the values of its term.
pub proof fn law_operations_compute_the_terms(a: Arithmetic, graph: Graph, extents: Seq<Dims>, r: int)
    requires
        graph.wf(),
        0 <= r < graph.count(),
        extents.len() == graph.count(),
        forall|q: int|
            0 <= q < graph.count() ==> shape(#[trigger] graph.terms()[q]) == Some(extents[q]),
    ensures
        held(a, graph.operations(), extents, r) == value(a, graph.terms()[r]),
    decreases r,
{
    graph.law_replay_order();
    let ops = graph.operations();
    let ts = graph.terms();
    assert(operands_below(ops[r], r));
    assert(ts[r] == meaning(ops[r], ts));
    assert(shape(ts[r]) == Some(extents[r]));
    match ops[r] {
        TensorOp::Input { slot, dims } => {},
        TensorOp::Conv { layer, input } => {
            law_operations_compute_the_terms(a, graph, extents, input as int);
        },
        TensorOp::AvgPool { input, height, width } => {
            law_operations_compute_the_terms(a, graph, extents, input as int);
            assert(shape(ts[input as int]) == Some(extents[input as int]));
        },
        TensorOp::Concat { left, right } => {
            law_operations_compute_the_terms(a, graph, extents, left as int);
            law_operations_compute_the_terms(a, graph, extents, right as int);
            assert(shape(ts[left as int]) == Some(extents[left as int]));
            assert(held(a, ops, extents, r) =~= value(a, ts[r]));
        },
        TensorOp::Narrow { input, start, length } => {
            law_operations_compute_the_terms(a, graph, extents, input as int);
            assert(held(a, ops, extents, r) =~= value(a, ts[r]));
        },
        TensorOp::Shuffle { input, groups } => {
            law_operations_compute_the_terms(a, graph, extents, input as int);
            assert(shape(ts[input as int]) == Some(extents[input as int]));
            assert(held(a, ops, extents, r) =~= value(a, ts[r]));
        },
        TensorOp::Nearest { input, height, width } => {
            law_operations_compute_the_terms(a, graph, extents, input as int);
            assert(shape(ts[input as int]) == Some(extents[input as int]));
        },
        TensorOp::Bilinear { input, height, width } => {
            law_operations_compute_the_terms(a, graph, extents, input as int);
            assert(shape(ts[input as int]) == Some(extents[input as int]));
        },
        TensorOp::Plus { left, right } => {
            law_operations_compute_the_terms(a, graph, extents, left as int);
            law_operations_compute_the_terms(a, graph, extents, right as int);
            assert(shape(ts[left as int]) == Some(extents[left as int]));
            assert(shape(ts[right as int]) == Some(extents[right as int]));
            assert(held(a, ops, extents, r) =~= value(a, ts[r]));
        },
        TensorOp::Times { left, right } => {
            law_operations_compute_the_terms(a, graph, extents, left as int);
            law_operations_compute_the_terms(a, graph, extents, right as int);
            assert(shape(ts[left as int]) == Some(extents[left as int]));
            assert(shape(ts[right as int]) == Some(extents[right as int]));
            assert(held(a, ops, extents, r) =~= value(a, ts[r]));
        },
        TensorOp::Relu { input } => {
            law_operations_compute_the_terms(a, graph, extents, input as int);
            assert(held(a, ops, extents, r) =~= value(a, ts[r]));
        },
    }
}

/// The two halves share the channels: the first has those up to the middle, one more than the
/// second where their number is odd, and the second has the rest.
pub proof fn law_halves_share_the_channels(a: Arithmetic, t: Term, d: Dims, p: Place)
    requires
        shape(t) == Some(d),
        d.channels >= 2,
    ensures
        shape(first_half(t)) == Some(Dims { channels: ((d.channels + 1) / 2) as usize, ..d }),
        shape(second_half(t)) == Some(Dims { channels: (d.channels / 2) as usize, ..d }),
        value(a, first_half(t))(p) == value(a, t)(p),
        value(a, second_half(t))(p) == value(a, t)(
            Place { channel: p.channel + (d.channels + 1) / 2, ..p },
        ),
{
    assert(d.channels - d.channels / 2 == (d.channels + 1) / 2);
    assert(p.in_channel(p.channel + 0) == p);
}

} // verus!
