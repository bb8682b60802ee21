//! The amplifier block: a sum of (signal, gain) products.
use vstd::prelude::*;

verus! {

use crate::blocks::{Block, Node, SignalSource};
use crate::blocks::constant::ConstantBlock;
use crate::SCALE;

/// A block summing `signal * gain` over an ordered list of pairs. It has
/// no state of its own; a reload carries state only through its children.
#[derive(Clone, Debug)]
pub struct AmplifierBlock {
    /// The (signal source, gain source) pairs, in declaration order.
    pub sources: Vec<(SignalSource, SignalSource)>,
}

/// The pair list and arena after filling missing pairs up to index `n`
/// with padding: each missing pair gets a fresh anonymous silent-constant
/// signal and a fresh anonymous unit-constant gain, both appended to the
/// arena (signal first).
pub open spec fn spec_pad_pairs(
    sources: Seq<(SignalSource, SignalSource)>,
    arena: Seq<Node>,
    n: int,
) -> (Seq<(SignalSource, SignalSource)>, Seq<Node>)
    decreases n + 1 - sources.len(),
{
    if sources.len() > n || n < 0 {
        (sources, arena)
    } else {
        let sig = arena.len() as usize;
        let gain = (arena.len() + 1) as usize;
        spec_pad_pairs(
            sources.push((SignalSource::Anonymous(sig), SignalSource::Anonymous(gain))),
            arena.push(Node { block: Block::Constant(ConstantBlock { val: 0 }), steps: 0 }).push(
                Node { block: Block::Constant(ConstantBlock { val: SCALE }), steps: 0 },
            ),
            n,
        )
    }
}

/// The pair list and arena after `update_source`: pad up to `n`, then
/// replace the signal (`first`) or gain (`!first`) of pair `n`.
pub open spec fn spec_update_source(
    sources: Seq<(SignalSource, SignalSource)>,
    arena: Seq<Node>,
    n: int,
    first: bool,
    source: SignalSource,
) -> (Seq<(SignalSource, SignalSource)>, Seq<Node>) {
    let (ps, na) = spec_pad_pairs(sources, arena, n);
    let pair = if first {
        (source, ps[n].1)
    } else {
        (ps[n].0, source)
    };
    (ps.update(n, pair), na)
}

impl AmplifierBlock {
    /// An amplifier with no pairs, which outputs silence.
    pub fn new() -> (r: AmplifierBlock)
        ensures
            r.sources@.len() == 0,
    {
        AmplifierBlock { sources: Vec::new() }
    }

    /// Sets the signal (`first`) or the gain (`!first`) of pair `n`,
    /// filling any missing pairs below `n` with (silence, unity) defaults
    /// owned as fresh anonymous constant blocks appended to the arena.
    pub fn update_source(
        &mut self,
        n: usize,
        first: bool,
        source: SignalSource,
        arena: &mut Vec<Node>,
    )
        requires
            old(arena)@.len() + 2 * (n + 1) <= usize::MAX,
        ensures
            (final(self).sources@, final(arena)@) == spec_update_source(
                old(self).sources@,
                old(arena)@,
                n as int,
                first,
                source,
            ),
    {
        while self.sources.len() <= n
            invariant
                old(arena)@.len() + 2 * (n + 1) <= usize::MAX,
                old(self).sources@.len() <= self.sources@.len(),
                self.sources@.len() <= n + 1 || self.sources@.len() == old(self).sources@.len(),
                arena@.len() == old(arena)@.len() + 2 * (self.sources@.len() - old(
                    self,
                ).sources@.len()),
                spec_pad_pairs(self.sources@, arena@, n as int) == spec_pad_pairs(
                    old(self).sources@,
                    old(arena)@,
                    n as int,
                ),
            decreases n + 1 - self.sources@.len(),
        {
            let sig_id = arena.len();
            arena.push(Node { block: Block::Constant(ConstantBlock::zero()), steps: 0 });
            let gain_id = arena.len();
            arena.push(Node { block: Block::Constant(ConstantBlock::new(SCALE)), steps: 0 });
            self.sources.push((SignalSource::Anonymous(sig_id), SignalSource::Anonymous(gain_id)));
        }
        proof {
            assert(spec_pad_pairs(self.sources@, arena@, n as int) == (self.sources@, arena@));
        }
        let pair = self.sources[n];
        if first {
            self.sources.set(n, (source, pair.1));
        } else {
            self.sources.set(n, (pair.0, source));
        }
    }
}

} // verus!
