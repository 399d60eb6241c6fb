//! Tensor programs.
//!
//! A network does not touch tensors here. Its forward pass writes the tensor operations that it
//! wants into a [`Graph`], one register per result, and whoever owns real tensors replays them.
//! What a register stands for is its [`Term`], the expression tree over the inputs; [`shape`]
//! gives the extent of a term, or nothing where the operations do not fit together.

use vstd::prelude::*;

use crate::pose::layers::ConvBnAct;

verus! {

/// Extent of a four-dimensional tensor.
#[derive(Clone, Copy, Debug, PartialEq, Eq, Structural)]
pub struct Dims {
    pub batch: usize,
    pub channels: usize,
    pub height: usize,
    pub width: usize,
}

impl Dims {
    pub fn new(batch: usize, channels: usize, height: usize, width: usize) -> (r: Dims)
        ensures
            r == (Dims { batch, channels, height, width }),
    {
        Dims { batch, channels, height, width }
    }

    /// The extents in tensor order.
    pub fn to_array(self) -> (r: [usize; 4])
        ensures
            r@ == seq![self.batch, self.channels, self.height, self.width],
    {
        [self.batch, self.channels, self.height, self.width]
    }

    /// The same batch and channels over another plane.
    pub open spec fn over(self, height: usize, width: usize) -> Dims {
        Dims { height, width, ..self }
    }

    /// The same batch and plane with another number of channels.
    pub open spec fn with_channels(self, channels: usize) -> Dims {
        Dims { channels, ..self }
    }

    /// Whether the plane is `height` by `width`.
    pub open spec fn is_over(self, height: usize, width: usize) -> bool {
        self.height == height && self.width == width
    }
}

/// One tensor operation. Operands are registers of the same graph.
#[derive(Clone, Copy, Debug)]
pub enum TensorOp {
    /// The tensor handed in under a number.
    Input { slot: usize, dims: Dims },
    /// A convolution layer with its optional batch norm and its activation.
    Conv { layer: ConvBnAct, input: usize },
    /// Adaptive average pooling to a plane.
    AvgPool { input: usize, height: usize, width: usize },
    /// Concatenation along the channels.
    Concat { left: usize, right: usize },
    /// A run of channels.
    Narrow { input: usize, start: usize, length: usize },
    /// Interleaving of channel groups.
    Shuffle { input: usize, groups: usize },
    /// Nearest-neighbour resize to a plane.
    Nearest { input: usize, height: usize, width: usize },
    /// Bilinear resize to a plane with aligned corners.
    Bilinear { input: usize, height: usize, width: usize },
    /// Elementwise sum, with broadcasting.
    Plus { left: usize, right: usize },
    /// Elementwise product, with broadcasting.
    Times { left: usize, right: usize },
    /// Rectifier.
    Relu { input: usize },
}

/// The expression that a register stands for.
pub enum Term {
    Input { slot: usize, dims: Dims },
    Conv(ConvBnAct, Box<Term>),
    AvgPool(Box<Term>, usize, usize),
    Concat(Box<Term>, Box<Term>),
    Narrow(Box<Term>, usize, usize),
    Shuffle(Box<Term>, usize),
    Nearest(Box<Term>, usize, usize),
    Bilinear(Box<Term>, usize, usize),
    Plus(Box<Term>, Box<Term>),
    Times(Box<Term>, Box<Term>),
    Relu(Box<Term>),
    /// What an operation with a bad operand would mean.
    Undefined,
}

/// Length of one side of a convolution's output.
pub open spec fn conv_extent(layer: ConvBnAct, size: usize) -> Option<usize> {
    let padded = size + 2 * layer.padding;
    if layer.stride > 0 && layer.kernel_size > 0 && layer.kernel_size <= padded <= usize::MAX {
        Some(((padded - layer.kernel_size) / (layer.stride as int) + 1) as usize)
    } else {
        None
    }
}

/// Extent of a convolution's output.
pub open spec fn conv_dims(layer: ConvBnAct, d: Dims) -> Option<Dims> {
    match (conv_extent(layer, d.height), conv_extent(layer, d.width)) {
        (Some(height), Some(width)) => if d.channels == layer.in_channels {
            Some(Dims { batch: d.batch, channels: layer.out_channels, height, width })
        } else {
            None
        },
        _ => None,
    }
}

/// Whether two extents can be combined elementwise.
pub open spec fn broadcasts(left: usize, right: usize) -> bool {
    left == right || left == 1 || right == 1
}

/// The common extent of two that broadcast.
pub open spec fn broadcast(left: usize, right: usize) -> usize {
    if left == 1 {
        right
    } else {
        left
    }
}

/// Extent of an elementwise combination.
pub open spec fn elementwise_dims(l: Dims, r: Dims) -> Option<Dims> {
    if broadcasts(l.batch, r.batch) && broadcasts(l.channels, r.channels) && broadcasts(
        l.height,
        r.height,
    ) && broadcasts(l.width, r.width) {
        Some(
            Dims {
                batch: broadcast(l.batch, r.batch),
                channels: broadcast(l.channels, r.channels),
                height: broadcast(l.height, r.height),
                width: broadcast(l.width, r.width),
            },
        )
    } else {
        None
    }
}

/// Extent of a concatenation along the channels.
pub open spec fn concat_dims(l: Dims, r: Dims) -> Option<Dims> {
    if l.batch == r.batch && l.height == r.height && l.width == r.width && l.channels + r.channels
        <= usize::MAX {
        Some(l.with_channels((l.channels + r.channels) as usize))
    } else {
        None
    }
}

/// Extent of a term, or nothing where some operation in it does not fit its operands.
pub open spec fn shape(t: Term) -> Option<Dims>
    decreases t,
{
    match t {
        Term::Input { slot, dims } => Some(dims),
        Term::Conv(layer, x) => match shape(*x) {
            Some(d) => conv_dims(layer, d),
            None => None,
        },
        Term::AvgPool(x, height, width) => match shape(*x) {
            Some(d) => Some(d.over(height, width)),
            None => None,
        },
        Term::Concat(l, r) => match (shape(*l), shape(*r)) {
            (Some(l), Some(r)) => concat_dims(l, r),
            _ => None,
        },
        Term::Narrow(x, start, length) => match shape(*x) {
            Some(d) => if 0 < length && start + length <= d.channels {
                Some(d.with_channels(length))
            } else {
                None
            },
            None => None,
        },
        Term::Shuffle(x, groups) => match shape(*x) {
            Some(d) => if 0 < groups && d.channels as int % groups as int == 0 {
                Some(d)
            } else {
                None
            },
            None => None,
        },
        Term::Nearest(x, height, width) => match shape(*x) {
            Some(d) => Some(d.over(height, width)),
            None => None,
        },
        Term::Bilinear(x, height, width) => match shape(*x) {
            Some(d) => Some(d.over(height, width)),
            None => None,
        },
        Term::Plus(l, r) => match (shape(*l), shape(*r)) {
            (Some(l), Some(r)) => elementwise_dims(l, r),
            _ => None,
        },
        Term::Times(l, r) => match (shape(*l), shape(*r)) {
            (Some(l), Some(r)) => elementwise_dims(l, r),
            _ => None,
        },
        Term::Relu(x) => shape(*x),
        Term::Undefined => None,
    }
}

/// Whether every term of a list has an extent.
pub open spec fn all_shaped(terms: Seq<Term>) -> bool {
    forall|i: int| 0 <= i < terms.len() ==> shape(#[trigger] terms[i]) is Some
}

/// Extent of an elementwise combination.
fn broadcast_dims(l: Dims, r: Dims) -> (d: Dims)
    requires
        elementwise_dims(l, r) is Some,
    ensures
        elementwise_dims(l, r) == Some(d),
{
    Dims {
        batch: if l.batch == 1 { r.batch } else { l.batch },
        channels: if l.channels == 1 { r.channels } else { l.channels },
        height: if l.height == 1 { r.height } else { l.height },
        width: if l.width == 1 { r.width } else { l.width },
    }
}

/// What an operation means where the registers before it mean `terms`.
pub open spec fn meaning(op: TensorOp, terms: Seq<Term>) -> Term {
    match op {
        TensorOp::Input { slot, dims } => Term::Input { slot, dims },
        TensorOp::Conv { layer, input } => Term::Conv(layer, Box::new(terms[input as int])),
        TensorOp::AvgPool { input, height, width } => Term::AvgPool(
            Box::new(terms[input as int]),
            height,
            width,
        ),
        TensorOp::Concat { left, right } => Term::Concat(
            Box::new(terms[left as int]),
            Box::new(terms[right as int]),
        ),
        TensorOp::Narrow { input, start, length } => Term::Narrow(
            Box::new(terms[input as int]),
            start,
            length,
        ),
        TensorOp::Shuffle { input, groups } => Term::Shuffle(Box::new(terms[input as int]), groups),
        TensorOp::Nearest { input, height, width } => Term::Nearest(
            Box::new(terms[input as int]),
            height,
            width,
        ),
        TensorOp::Bilinear { input, height, width } => Term::Bilinear(
            Box::new(terms[input as int]),
            height,
            width,
        ),
        TensorOp::Plus { left, right } => Term::Plus(
            Box::new(terms[left as int]),
            Box::new(terms[right as int]),
        ),
        TensorOp::Times { left, right } => Term::Times(
            Box::new(terms[left as int]),
            Box::new(terms[right as int]),
        ),
        TensorOp::Relu { input } => Term::Relu(Box::new(terms[input as int])),
    }
}

/// Whether the operands of an operation are registers below `r`.
pub open spec fn operands_below(op: TensorOp, r: int) -> bool {
    match op {
        TensorOp::Input { slot, dims } => true,
        TensorOp::Conv { layer, input } => input < r,
        TensorOp::AvgPool { input, height, width } => input < r,
        TensorOp::Concat { left, right } => left < r && right < r,
        TensorOp::Narrow { input, start, length } => input < r,
        TensorOp::Shuffle { input, groups } => input < r,
        TensorOp::Nearest { input, height, width } => input < r,
        TensorOp::Bilinear { input, height, width } => input < r,
        TensorOp::Plus { left, right } => left < r && right < r,
        TensorOp::Times { left, right } => left < r && right < r,
        TensorOp::Relu { input } => input < r,
    }
}

/// A tensor program: operations in the order in which they run.
pub struct Graph {
    ops: Vec<TensorOp>,
    dims: Vec<Dims>,
    terms: Ghost<Seq<Term>>,
}

impl Graph {
    /// Number of registers.
    pub closed spec fn count(self) -> nat {
        self.ops@.len()
    }

    /// The operations.
    pub closed spec fn operations(self) -> Seq<TensorOp> {
        self.ops@
    }

    /// What register `r` stands for.
    pub closed spec fn term(self, r: usize) -> Term {
        self.terms@[r as int]
    }

    /// What all registers stand for.
    pub closed spec fn terms(self) -> Seq<Term> {
        self.terms@
    }

    /// Every operation reads earlier registers only and fits its operands, and the recorded
    /// extents are those of the terms.
    pub closed spec fn wf(self) -> bool {
        &&& self.ops@.len() == self.dims@.len() == self.terms@.len()
        &&& forall|r: int|
            0 <= r < self.ops@.len() ==> {
                &&& operands_below(#[trigger] self.ops@[r], r)
                &&& self.terms@[r] == meaning(self.ops@[r], self.terms@)
                &&& shape(self.terms@[r]) == Some(self.dims@[r])
            }
    }

    /// Every register of `before` is here and stands for the same.
    pub open spec fn grows(self, before: Graph) -> bool {
        &&& before.count() <= self.count()
        &&& forall|r: usize| r < before.count() ==> #[trigger] self.term(r) == before.term(r)
    }

    /// This graph is well formed, grew out of `before`, and its register `r` stands for `t`.
    pub open spec fn provides(self, before: Graph, r: usize, t: Term) -> bool {
        &&& self.wf()
        &&& self.grows(before)
        &&& r < self.count()
        &&& self.term(r) == t
    }

    /// This graph is well formed, grew out of `before`, and a list of registers stands for `ts`.
    pub open spec fn provides_all(self, before: Graph, registers: Seq<usize>, ts: Seq<Term>) -> bool {
        &&& self.wf()
        &&& self.grows(before)
        &&& self.has_all(registers)
        &&& self.terms_at(registers) == ts
    }

    /// What a list of registers stands for.
    pub open spec fn terms_at(self, registers: Seq<usize>) -> Seq<Term> {
        registers.map_values(|r: usize| self.term(r))
    }

    /// Whether a list holds registers of this graph.
    pub open spec fn has_all(self, registers: Seq<usize>) -> bool {
        forall|i: int| 0 <= i < registers.len() ==> #[trigger] registers[i] < self.count()
    }

    /// A graph that grew still holds a list of registers, and they stand for the same.
    pub proof fn lemma_grown_registers(self, before: Graph, registers: Seq<usize>)
        requires
            self.grows(before),
            before.has_all(registers),
        ensures
            self.has_all(registers),
            self.terms_at(registers) == before.terms_at(registers),
    {
        assert(self.terms_at(registers) =~= before.terms_at(registers));
    }

    /// Registers of a well-formed graph have an extent.
    pub proof fn lemma_shaped(self, r: usize)
        requires
            self.wf(),
            r < self.count(),
        ensures
            shape(self.term(r)) is Some,
    {
        assert(operands_below(self.ops@[r as int], r as int));
    }

    /// Operations read earlier registers only, and each register means what its operation says.
    pub proof fn law_replay_order(self)
        requires
            self.wf(),
        ensures
            self.terms().len() == self.operations().len() == self.count(),
            forall|r: int|
                0 <= r < self.count() ==> {
                    &&& operands_below(#[trigger] self.operations()[r], r)
                    &&& self.terms()[r] == meaning(self.operations()[r], self.terms())
                },
            forall|r: usize| r < self.count() ==> #[trigger] self.term(r) == self.terms()[r as int],
    {
    }

    /// A graph that provides a term for a register is well formed, has the term in that register,
    /// and has in every register of the graph before it what was there.
    pub proof fn law_what_a_graph_provides(self, before: Graph, r: usize, t: Term)
        ensures
            self.provides(before, r, t) <==> {
                &&& self.wf()
                &&& before.count() <= self.count()
                &&& forall|q: usize| q < before.count() ==> #[trigger] self.term(q) == before.term(q)
                &&& r < self.count()
                &&& self.term(r) == t
            },
    {
    }

    /// A graph that provides a list of terms provides each of them, in its place.
    pub proof fn law_what_a_graph_provides_in_a_list(
        self,
        before: Graph,
        registers: Seq<usize>,
        ts: Seq<Term>,
    )
        ensures
            self.provides_all(before, registers, ts) <==> {
                &&& self.wf()
                &&& before.count() <= self.count()
                &&& forall|q: usize| q < before.count() ==> #[trigger] self.term(q) == before.term(q)
                &&& registers.len() == ts.len()
                &&& forall|i: int|
                    0 <= i < ts.len() ==> #[trigger] registers[i] < self.count() && self.term(
                        registers[i],
                    ) == ts[i]
            },
    {
        let found = self.terms_at(registers);
        if registers.len() == ts.len() && (forall|i: int|
            0 <= i < ts.len() ==> #[trigger] registers[i] < self.count() && self.term(registers[i])
                == ts[i]) {
            assert forall|i: int| 0 <= i < ts.len() implies found[i] == ts[i] by {
                assert(self.term(registers[i]) == ts[i]);
            }
            assert(found =~= ts);
        }
        if found == ts {
            assert forall|i: int| 0 <= i < ts.len() implies self.term(#[trigger] registers[i])
                == ts[i] by {
                assert(found[i] == ts[i]);
            }
        }
    }

    /// A program without operations.
    pub fn new() -> (r: Graph)
        ensures
            r.wf(),
            r.count() == 0,
    {
        Graph { ops: Vec::new(), dims: Vec::new(), terms: Ghost(Seq::empty()) }
    }

    /// Number of registers.
    pub fn len(&self) -> (r: usize)
        ensures
            r == self.count(),
    {
        self.ops.len()
    }

    /// The operation that fills register `r`.
    pub fn op(&self, r: usize) -> (op: TensorOp)
        requires
            r < self.count(),
        ensures
            op == self.operations()[r as int],
    {
        self.ops[r]
    }

    /// The extent of register `r`.
    pub fn dims(&self, r: usize) -> (d: Dims)
        requires
            self.wf(),
            r < self.count(),
        ensures
            shape(self.term(r)) == Some(d),
    {
        assert(operands_below(self.ops@[r as int], r as int));
        self.dims[r]
    }

    /// Appends an operation whose extent is known.
    fn emit(&mut self, op: TensorOp, dims: Dims) -> (r: usize)
        requires
            old(self).wf(),
            operands_below(op, old(self).count() as int),
            shape(meaning(op, old(self).terms())) == Some(dims),
        ensures
            final(self).wf(),
            final(self).grows(*old(self)),
            final(self).count() == old(self).count() + 1,
            r == old(self).count(),
            final(self).term(r) == meaning(op, old(self).terms()),
    {
        let r: usize = self.ops.len();
        let ghost before = self.terms@;
        let ghost t = meaning(op, before);
        self.ops.push(op);
        self.dims.push(dims);
        self.terms = Ghost(before.push(t));
        proof {
            assert forall|q: int| 0 <= q < self.ops@.len() implies {
                &&& operands_below(#[trigger] self.ops@[q], q)
                &&& self.terms@[q] == meaning(self.ops@[q], self.terms@)
                &&& shape(self.terms@[q]) == Some(self.dims@[q])
            } by {
                if q < before.len() {
                    assert(self.ops@[q] == old(self).ops@[q]);
                    assert(operands_below(old(self).ops@[q], q));
                }
            }
        }
        r
    }

    /// Reads the tensor handed in under `slot`.
    pub fn input(&mut self, slot: usize, dims: Dims) -> (r: usize)
        requires
            old(self).wf(),
        ensures
            final(self).provides(*old(self), r, Term::Input { slot, dims }),
    {
        self.emit(TensorOp::Input { slot, dims }, dims)
    }

    /// Runs a convolution layer.
    pub fn conv(&mut self, layer: ConvBnAct, input: usize) -> (r: usize)
        requires
            old(self).wf(),
            input < old(self).count(),
            shape(Term::Conv(layer, Box::new(old(self).term(input)))) is Some,
        ensures
            final(self).provides(*old(self), r, Term::Conv(layer, Box::new(old(self).term(input)))),
    {
        let d = self.dims(input);
        let height: usize = (d.height + layer.padding + layer.padding - layer.kernel_size) / layer.stride + 1;
        let width: usize = (d.width + layer.padding + layer.padding - layer.kernel_size) / layer.stride + 1;
        self.emit(
            TensorOp::Conv { layer, input },
            Dims { batch: d.batch, channels: layer.out_channels, height, width },
        )
    }

    /// Pools to a plane.
    pub fn avg_pool(&mut self, input: usize, height: usize, width: usize) -> (r: usize)
        requires
            old(self).wf(),
            input < old(self).count(),
            shape(Term::AvgPool(Box::new(old(self).term(input)), height, width)) is Some,
        ensures
            final(self).provides(*old(self), r, Term::AvgPool(Box::new(old(self).term(input)), height, width)),
    {
        let d = self.dims(input);
        self.emit(TensorOp::AvgPool { input, height, width }, Dims { height, width, ..d })
    }

    /// Takes `length` channels from `start` on.
    pub fn narrow(&mut self, input: usize, start: usize, length: usize) -> (r: usize)
        requires
            old(self).wf(),
            input < old(self).count(),
            shape(Term::Narrow(Box::new(old(self).term(input)), start, length)) is Some,
        ensures
            final(self).provides(*old(self), r, Term::Narrow(Box::new(old(self).term(input)), start, length)),
    {
        let d = self.dims(input);
        self.emit(TensorOp::Narrow { input, start, length }, Dims { channels: length, ..d })
    }

    /// Interleaves `groups` groups of channels.
    pub fn shuffle(&mut self, input: usize, groups: usize) -> (r: usize)
        requires
            old(self).wf(),
            input < old(self).count(),
            shape(Term::Shuffle(Box::new(old(self).term(input)), groups)) is Some,
        ensures
            final(self).provides(*old(self), r, Term::Shuffle(Box::new(old(self).term(input)), groups)),
    {
        let d = self.dims(input);
        self.emit(TensorOp::Shuffle { input, groups }, d)
    }

    /// Resizes to a plane by nearest neighbours.
    pub fn nearest(&mut self, input: usize, height: usize, width: usize) -> (r: usize)
        requires
            old(self).wf(),
            input < old(self).count(),
            shape(Term::Nearest(Box::new(old(self).term(input)), height, width)) is Some,
        ensures
            final(self).provides(*old(self), r, Term::Nearest(Box::new(old(self).term(input)), height, width)),
    {
        let d = self.dims(input);
        self.emit(TensorOp::Nearest { input, height, width }, Dims { height, width, ..d })
    }

    /// Resizes to a plane bilinearly, with aligned corners.
    pub fn bilinear(&mut self, input: usize, height: usize, width: usize) -> (r: usize)
        requires
            old(self).wf(),
            input < old(self).count(),
            shape(Term::Bilinear(Box::new(old(self).term(input)), height, width)) is Some,
        ensures
            final(self).provides(*old(self), r, Term::Bilinear(Box::new(old(self).term(input)), height, width)),
    {
        let d = self.dims(input);
        self.emit(TensorOp::Bilinear { input, height, width }, Dims { height, width, ..d })
    }

    /// Rectifies.
    pub fn relu(&mut self, input: usize) -> (r: usize)
        requires
            old(self).wf(),
            input < old(self).count(),
            shape(Term::Relu(Box::new(old(self).term(input)))) is Some,
        ensures
            final(self).provides(*old(self), r, Term::Relu(Box::new(old(self).term(input)))),
    {
        let d = self.dims(input);
        self.emit(TensorOp::Relu { input }, d)
    }

    /// Concatenates along the channels.
    pub fn concat(&mut self, left: usize, right: usize) -> (r: usize)
        requires
            old(self).wf(),
            left < old(self).count(),
            right < old(self).count(),
            shape(
                Term::Concat(Box::new(old(self).term(left)), Box::new(old(self).term(right))),
            ) is Some,
        ensures
            final(self).provides(
                *old(self),
                r,
                Term::Concat(Box::new(old(self).term(left)), Box::new(old(self).term(right))),
            ),
    {
        let l = self.dims(left);
        let r = self.dims(right);
        self.emit(TensorOp::Concat { left, right }, Dims { channels: l.channels + r.channels, ..l })
    }

    /// Adds elementwise.
    pub fn plus(&mut self, left: usize, right: usize) -> (r: usize)
        requires
            old(self).wf(),
            left < old(self).count(),
            right < old(self).count(),
            shape(
                Term::Plus(Box::new(old(self).term(left)), Box::new(old(self).term(right))),
            ) is Some,
        ensures
            final(self).provides(
                *old(self),
                r,
                Term::Plus(Box::new(old(self).term(left)), Box::new(old(self).term(right))),
            ),
    {
        let l = self.dims(left);
        let r = self.dims(right);
        self.emit(TensorOp::Plus { left, right }, broadcast_dims(l, r))
    }

    /// Multiplies elementwise.
    pub fn times(&mut self, left: usize, right: usize) -> (r: usize)
        requires
            old(self).wf(),
            left < old(self).count(),
            right < old(self).count(),
            shape(
                Term::Times(Box::new(old(self).term(left)), Box::new(old(self).term(right))),
            ) is Some,
        ensures
            final(self).provides(
                *old(self),
                r,
                Term::Times(Box::new(old(self).term(left)), Box::new(old(self).term(right))),
            ),
    {
        let l = self.dims(left);
        let r = self.dims(right);
        self.emit(TensorOp::Times { left, right }, broadcast_dims(l, r))
    }
}

} // verus!
