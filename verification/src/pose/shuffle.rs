//! Interleaving of channel groups.

use vstd::arithmetic::div_mod::{lemma_fundamental_div_mod, lemma_fundamental_div_mod_converse};
use vstd::prelude::*;

use crate::pose::graph::Dims;

verus! {

/// The channel that comes to stand at `channel` when `channels` channels in `groups` groups are
/// interleaved: the first of every group, then the second of every group, and so on.
pub open spec fn shuffled_from(channel: int, channels: int, groups: int) -> int {
    (channel % groups) * (channels / groups) + channel / groups
}

/// Where the value at `index` of a shuffled tensor comes from. `plane` is the number of values
/// per channel.
pub open spec fn shuffled_index(index: int, channels: int, plane: int, groups: int) -> int {
    let row = index / plane;
    let source = shuffled_from(row % channels, channels, groups);
    ((row / channels) * channels + source) * plane + index % plane
}

/// Number of values of a tensor.
pub open spec fn volume(d: Dims) -> int {
    d.batch * d.channels * (d.height * d.width)
}

/// The source of a channel is a channel, and it comes back when the roles of groups and group
/// members are swapped.
pub proof fn law_shuffle_inverts(channel: int, channels: int, groups: int)
    requires
        0 < groups,
        channels % groups == 0,
        0 <= channel < channels,
    ensures
        0 <= shuffled_from(channel, channels, groups) < channels,
        shuffled_from(shuffled_from(channel, channels, groups), channels, channels / groups)
            == channel,
{
    let m = channels / groups;
    let q = channel / groups;
    let r = channel % groups;
    lemma_fundamental_div_mod(channels, groups);
    lemma_fundamental_div_mod(channel, groups);
    assert(0 <= r < groups && 0 <= q);
    assert(channels == groups * m);
    assert(q < m) by (nonlinear_arith)
        requires
            channel == groups * q + r,
            channel < groups * m,
            0 <= r,
            0 < groups,
    ;
    let s = r * m + q;
    assert(0 <= s) by (nonlinear_arith)
        requires
            s == r * m + q,
            0 <= r,
            0 <= q < m,
    ;
    assert(s < groups * m) by (nonlinear_arith)
        requires
            s == r * m + q,
            0 <= r < groups,
            0 <= q < m,
    ;
    lemma_fundamental_div_mod_converse(s, m, r, q);
    assert(channels / m == groups) by {
        assert(channels == groups * m + 0);
        lemma_fundamental_div_mod_converse(channels, m, groups, 0);
    }
    assert(q * groups + r == channel) by (nonlinear_arith)
        requires
            channel == groups * q + r,
    ;
}

/// Shuffling interleaves the groups: member `i` of group `g` comes to stand at place `g` among the
/// `i`-th members of all groups.
pub proof fn law_shuffle_interleaves(g: int, i: int, groups: int, members: int)
    requires
        0 <= g < groups,
        0 <= i < members,
    ensures
        shuffled_from(i * groups + g, groups * members, groups) == g * members + i,
{
    lemma_fundamental_div_mod_converse(i * groups + g, groups, i, g);
    assert(groups * members == members * groups) by (nonlinear_arith);
    lemma_fundamental_div_mod_converse(groups * members, groups, members, 0);
}

/// In a shuffled tensor a value keeps its batch item and its place in the plane; only its channel
/// changes.
pub proof fn law_shuffle_moves_only_channels(
    item: int,
    channel: int,
    place: int,
    channels: int,
    plane: int,
    groups: int,
)
    requires
        0 <= item,
        0 <= channel < channels,
        0 <= place < plane,
    ensures
        shuffled_index((item * channels + channel) * plane + place, channels, plane, groups) == (item
            * channels + shuffled_from(channel, channels, groups)) * plane + place,
{
    let row = item * channels + channel;
    lemma_fundamental_div_mod_converse(row * plane + place, plane, row, place);
    lemma_fundamental_div_mod_converse(row, channels, item, channel);
}

/// Shuffling moves no value twice: two places never have the same source.
pub proof fn law_shuffle_moves_channels_apart(a: int, b: int, channels: int, groups: int)
    requires
        0 < groups,
        channels % groups == 0,
        0 <= a < channels,
        0 <= b < channels,
        shuffled_from(a, channels, groups) == shuffled_from(b, channels, groups),
    ensures
        a == b,
{
    law_shuffle_inverts(a, channels, groups);
    law_shuffle_inverts(b, channels, groups);
}

/// A source lies inside the tensor, in the same batch item and at the same place of its plane.
proof fn lemma_shuffled_index(index: int, batch: int, channels: int, plane: int, groups: int)
    requires
        0 < groups,
        channels % groups == 0,
        0 <= channels,
        0 <= plane,
        0 <= batch,
        0 <= index < batch * channels * plane,
    ensures
        plane > 0,
        channels > 0,
        0 <= shuffled_index(index, channels, plane, groups) < batch * channels * plane,
        shuffled_index(index, channels, plane, groups) / plane == (index / plane / channels)
            * channels + shuffled_from((index / plane) % channels, channels, groups),
        shuffled_index(index, channels, plane, groups) % plane == index % plane,
        0 <= index / plane < batch * channels,
        0 <= index / plane / channels < batch,
{
    assert(plane > 0) by (nonlinear_arith)
        requires
            0 <= plane,
            index >= 0,
            index < batch * channels * plane,
    ;
    assert(channels > 0 && batch > 0) by (nonlinear_arith)
        requires
            0 <= channels,
            0 <= batch,
            0 <= plane,
            0 <= index,
            index < batch * channels * plane,
    ;
    let row = index / plane;
    let p = index % plane;
    lemma_fundamental_div_mod(index, plane);
    assert(0 <= row < batch * channels) by (nonlinear_arith)
        requires
            index == plane * row + p,
            0 <= p < plane,
            0 <= index < batch * channels * plane,
    ;
    let item = row / channels;
    let c = row % channels;
    lemma_fundamental_div_mod(row, channels);
    assert(0 <= item < batch) by (nonlinear_arith)
        requires
            row == channels * item + c,
            0 <= c < channels,
            0 <= row < batch * channels,
    ;
    law_shuffle_inverts(c, channels, groups);
    let source = shuffled_from(c, channels, groups);
    let source_row = item * channels + source;
    assert(0 <= source_row < batch * channels) by (nonlinear_arith)
        requires
            source_row == item * channels + source,
            0 <= item < batch,
            0 <= source < channels,
    ;
    assert(0 <= source_row * plane + p < batch * channels * plane) by (nonlinear_arith)
        requires
            0 <= source_row < batch * channels,
            0 <= p < plane,
    ;
    lemma_fundamental_div_mod_converse(source_row * plane + p, plane, source_row, p);
}

/// Shuffling in groups and then in as many groups as a group had members moves every value back.
pub proof fn law_shuffle_twice_restores(
    index: int,
    batch: int,
    channels: int,
    plane: int,
    groups: int,
)
    requires
        0 < groups,
        channels % groups == 0,
        0 <= channels,
        0 <= plane,
        0 <= batch,
        0 <= index < batch * channels * plane,
    ensures
        shuffled_index(
            shuffled_index(index, channels, plane, groups),
            channels,
            plane,
            channels / groups,
        ) == index,
{
    lemma_shuffled_index(index, batch, channels, plane, groups);
    let row = index / plane;
    let item = row / channels;
    let c = row % channels;
    let source = shuffled_from(c, channels, groups);
    lemma_fundamental_div_mod(index, plane);
    lemma_fundamental_div_mod(row, channels);
    law_shuffle_inverts(c, channels, groups);
    lemma_fundamental_div_mod_converse(item * channels + source, channels, item, source);
    assert(item * channels + c == row) by (nonlinear_arith)
        requires
            row == channels * item + c,
    ;
    assert(row * plane + index % plane == index) by (nonlinear_arith)
        requires
            index == plane * row + index % plane,
    ;
}

/// Interleaves the channel groups of a tensor given by its values in row-major order.
pub fn channel_shuffle<T: Copy>(input: &Vec<T>, dims: Dims, groups: usize) -> (r: Vec<T>)
    requires
        groups > 0,
        dims.channels as int % groups as int == 0,
        input@.len() == volume(dims),
    ensures
        r@.len() == input@.len(),
        forall|i: int|
            0 <= i < r@.len() ==> #[trigger] r@[i] == input@[shuffled_index(
                i,
                dims.channels as int,
                dims.height * dims.width,
                groups as int,
            )],
{
    let n: usize = input.len();
    let mut out: Vec<T> = Vec::new();
    if n == 0 {
        return out;
    }
    let ghost plane = dims.height * dims.width;
    proof {
        assert(0 < plane <= input@.len() && dims.channels > 0) by (nonlinear_arith)
            requires
                input@.len() > 0,
                input@.len() == dims.batch * dims.channels * plane,
                plane == dims.height * dims.width,
        ;
    }
    let plane_len: usize = dims.height * dims.width;
    let members: usize = dims.channels / groups;
    for i in 0..n
        invariant
            n == input@.len(),
            n == dims.batch * dims.channels * plane,
            plane_len == plane == dims.height * dims.width,
            plane_len > 0,
            dims.channels > 0,
            groups > 0,
            members == dims.channels / groups,
            dims.channels as int % groups as int == 0,
            out@.len() == i,
            forall|j: int|
                0 <= j < i ==> #[trigger] out@[j] == input@[shuffled_index(
                    j,
                    dims.channels as int,
                    plane,
                    groups as int,
                )],
    {
        let row: usize = i / plane_len;
        let channel: usize = row % dims.channels;
        let ghost source = shuffled_from(channel as int, dims.channels as int, groups as int);
        proof {
            lemma_shuffled_index(
                i as int,
                dims.batch as int,
                dims.channels as int,
                plane,
                groups as int,
            );
            law_shuffle_inverts(channel as int, dims.channels as int, groups as int);
            let r = (channel % groups) as int;
            let q = (channel / groups) as int;
            assert(0 <= r * members <= source) by (nonlinear_arith)
                requires
                    source == r * members + q,
                    0 <= r,
                    0 <= q,
                    0 <= members,
            ;
        }
        let from: usize = (channel % groups) * members + channel / groups;
        proof {
            let item = (row / dims.channels) as int;
            assert(0 <= item * dims.channels <= item * dims.channels + from <= n) by (nonlinear_arith)
                requires
                    item >= 0,
                    0 <= (item * dims.channels + from) * plane + (i as int) % plane,
                    (item * dims.channels + from) * plane + (i as int) % plane < n,
                    (i as int) % plane >= 0,
                    plane > 0,
                    from >= 0,
            ;
            assert(0 <= (item * dims.channels + from) * plane <= n) by (nonlinear_arith)
                requires
                    0 <= item * dims.channels + from,
                    (item * dims.channels + from) * plane + (i as int) % plane < n,
                    (i as int) % plane >= 0,
                    plane > 0,
            ;
        }
        let source_row: usize = (row / dims.channels) * dims.channels + from;
        let at: usize = source_row * plane_len + i % plane_len;
        out.push(input[at]);
    }
    out
}

} // verus!
