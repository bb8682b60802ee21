//! The polymorphic signal-block graph.
//!
//! Blocks live in an arena (`Vec<Node>`) and refer to each other by
//! index. A [`SignalSource`] is either `Anonymous` — the referring block
//! is the sole owner of the target and steps it as part of its own step —
//! or `Named` — a non-owning reference to a block registered in the
//! driver, which the driver steps. Every reference points strictly
//! backwards in the arena (a block can only use blocks created before
//! it), which makes the graph a DAG and every recursion below bounded.
use vstd::prelude::*;

pub mod amplifier;
pub mod constant;
pub mod oscillator;
pub mod sequencer;
pub mod stereo;

verus! {

use crate::SCALE;
use crate::fixed::{spec_sat_add, spec_mul_fp, sat_add, mul_fp, clamp_i64};
use vstd::string::StringSliceAdditionalSpecFns;
use crate::blocks::constant::ConstantBlock;
use crate::blocks::oscillator::{OscillatorBlock, spec_waveform_value, waveform_value};
use crate::blocks::amplifier::AmplifierBlock;
use crate::blocks::stereo::StereoBlock;
use crate::blocks::sequencer::{SequencerBlock, spec_seq_value, seq_value};

/// The variant tag of a block, queryable without downcasting; hot-reload
/// state transfer only happens between blocks of equal tag.
#[derive(Clone, Copy, PartialEq, Eq, Structural, Debug)]
pub enum BlockType {
    Constant,
    Oscillator,
    Amplifier,
    Stereo,
    Sequencer,
}

/// Byte-for-byte equality of two string slices.
pub fn str_eq(a: &str, b: &str) -> (r: bool)
    ensures
        r == (a.spec_bytes() == b.spec_bytes()),
{
    let x = a.as_bytes();
    let y = b.as_bytes();
    if x.len() != y.len() {
        return false;
    }
    let n = x.len();
    let mut i: usize = 0;
    while i < n
        invariant
            i <= n,
            n == x@.len() == y@.len(),
            x@ == a.spec_bytes(),
            y@ == b.spec_bytes(),
            forall|j: int| 0 <= j < i ==> x@[j] == y@[j],
        decreases n - i,
    {
        if *vstd::slice::slice_index_get(x, i) != *vstd::slice::slice_index_get(y, i) {
            return false;
        }
        i = i + 1;
    }
    proof {
        assert(a.spec_bytes() =~= b.spec_bytes());
    }
    true
}

impl core::str::FromStr for BlockType {
    type Err = ();

    fn from_str(s: &str) -> Result<Self, Self::Err> {
        if str_eq(s, "constant") || str_eq(s, "const") {
            Ok(BlockType::Constant)
        } else if str_eq(s, "oscillator") || str_eq(s, "osc") {
            Ok(BlockType::Oscillator)
        } else if str_eq(s, "amplifier") || str_eq(s, "amp") {
            Ok(BlockType::Amplifier)
        } else if str_eq(s, "stereo") {
            Ok(BlockType::Stereo)
        } else if str_eq(s, "sequencer") || str_eq(s, "seq") {
            Ok(BlockType::Sequencer)
        } else {
            Err(())
        }
    }
}

/// A reference from one block to another: `Anonymous` owns its target
/// (and is responsible for stepping it), `Named` merely looks it up.
#[derive(Clone, Copy, PartialEq, Eq, Structural, Debug)]
pub enum SignalSource {
    /// An exclusively owned, inline-created block.
    Anonymous(usize),
    /// A non-owning reference to a registered block.
    Named(usize),
}

impl SignalSource {
    /// The arena index this reference points at.
    pub open spec fn target(self) -> int {
        match self {
            SignalSource::Anonymous(t) => t as int,
            SignalSource::Named(t) => t as int,
        }
    }

    /// Whether this reference owns (and therefore steps) its target.
    pub open spec fn is_anonymous(self) -> bool {
        self matches SignalSource::Anonymous(_)
    }

    /// Wraps a freshly created block index as an owned reference.
    pub fn new_anonymous(target: usize) -> (r: SignalSource)
        ensures
            r == SignalSource::Anonymous(target),
    {
        SignalSource::Anonymous(target)
    }

    /// The index of the target block, whatever the ownership kind.
    pub fn inner(&self) -> (r: usize)
        ensures
            r == self.target(),
    {
        match self {
            SignalSource::Anonymous(t) => *t,
            SignalSource::Named(t) => *t,
        }
    }

    /// Steps the target if this reference owns it; a `Named` reference
    /// is inert — its target is stepped by the registry or by its
    /// owner.
    pub fn step(&self, arena: &mut Vec<Node>)
        requires
            arena_wf(old(arena)@),
        ensures
            final(arena)@ == spec_step_if_anon(old(arena)@, old(arena)@.len() as int, *self),
            arena_wf(final(arena)@),
    {
        step_source(arena, arena.len(), *self)
    }

    /// Reads the target's mono value.
    pub fn get_mono(&self, arena: &Vec<Node>) -> (r: i64)
        requires
            arena_wf(arena@),
            self.target() < arena@.len(),
        ensures
            r == spec_get(arena@, self.target(), Channel::Mono),
    {
        get_channel(arena, self.inner(), Channel::Mono)
    }

    /// Reads the target's left-channel value.
    pub fn get_left(&self, arena: &Vec<Node>) -> (r: i64)
        requires
            arena_wf(arena@),
            self.target() < arena@.len(),
        ensures
            r == spec_get(arena@, self.target(), Channel::Left),
    {
        get_channel(arena, self.inner(), Channel::Left)
    }

    /// Reads the target's right-channel value.
    pub fn get_right(&self, arena: &Vec<Node>) -> (r: i64)
        requires
            arena_wf(arena@),
            self.target() < arena@.len(),
        ensures
            r == spec_get(arena@, self.target(), Channel::Right),
    {
        get_channel(arena, self.inner(), Channel::Right)
    }
}

/// One block of the graph: a closed sum over the five variants.
#[derive(Clone, Debug)]
pub enum Block {
    Constant(ConstantBlock),
    Oscillator(OscillatorBlock),
    Amplifier(AmplifierBlock),
    Stereo(StereoBlock),
    Sequencer(SequencerBlock),
}

/// An arena slot: a block plus how many times it has been stepped.
#[derive(Clone, Debug)]
pub struct Node {
    /// The block itself.
    pub block: Block,
    /// How many ticks have advanced this block.
    pub steps: u64,
}

/// An audio channel selector for the value accessors. Blocks without an
/// inherent stereo image answer every channel with their mono value.
#[derive(Clone, Copy, PartialEq, Eq, Structural, Debug)]
pub enum Channel {
    Mono,
    Left,
    Right,
}

impl Block {
    /// The variant tag of this block.
    pub open spec fn spec_block_type(&self) -> BlockType {
        match self {
            Block::Constant(_) => BlockType::Constant,
            Block::Oscillator(_) => BlockType::Oscillator,
            Block::Amplifier(_) => BlockType::Amplifier,
            Block::Stereo(_) => BlockType::Stereo,
            Block::Sequencer(_) => BlockType::Sequencer,
        }
    }

    /// Returns the variant tag.
    pub fn block_type(&self) -> (r: BlockType)
        ensures
            r == self.spec_block_type(),
    {
        match self {
            Block::Constant(_) => BlockType::Constant,
            Block::Oscillator(_) => BlockType::Oscillator,
            Block::Amplifier(_) => BlockType::Amplifier,
            Block::Stereo(_) => BlockType::Stereo,
            Block::Sequencer(_) => BlockType::Sequencer,
        }
    }

    /// The single piece of continuous runtime state this block exposes
    /// for hot-reload carry-over: an oscillator's phase, a sequencer's
    /// progress, zero for the stateless variants.
    pub open spec fn spec_sync_value(&self) -> i64 {
        match self {
            Block::Oscillator(b) => b.phase,
            Block::Sequencer(b) => b.progress,
            _ => 0,
        }
    }

    /// Extracts the sync value.
    pub fn sync_value(&self) -> (r: i64)
        ensures
            r == self.spec_sync_value(),
    {
        match self {
            Block::Oscillator(b) => b.phase,
            Block::Sequencer(b) => b.progress,
            _ => 0,
        }
    }
}

/// The amplifier's pair list flattened into one source list:
/// signal 0, gain 0, signal 1, gain 1, ...
pub open spec fn spec_pairs_flat(ps: Seq<(SignalSource, SignalSource)>) -> Seq<SignalSource>
    decreases ps.len(),
{
    if ps.len() == 0 {
        Seq::empty()
    } else {
        spec_pairs_flat(ps.drop_last()).push(ps.last().0).push(ps.last().1)
    }
}

/// Every input reference of a block, in declaration order. This is both
/// the step order of its owned children and its child list for sync.
pub open spec fn spec_sources(b: Block) -> Seq<SignalSource> {
    match b {
        Block::Constant(_) => Seq::empty(),
        Block::Oscillator(o) => seq![o.freq_source],
        Block::Amplifier(a) => spec_pairs_flat(a.sources@),
        Block::Stereo(s) => seq![s.left, s.right, s.shift],
        Block::Sequencer(q) => seq![q.bpm, q.spacing],
    }
}

/// Well-formedness of one arena slot: every reference points strictly
/// backwards, and an oscillator's phase lies in `[0, 1)`.
pub open spec fn node_wf(a: Seq<Node>, i: int) -> bool {
    &&& forall|k: int|
        0 <= k < spec_sources(a[i].block).len() ==> (#[trigger] spec_sources(a[i].block)[k]).target()
            < i
    &&& (a[i].block matches Block::Oscillator(o) ==> 0 <= o.phase < SCALE)
}

/// Well-formedness of the whole arena.
pub open spec fn arena_wf(a: Seq<Node>) -> bool {
    forall|i: int| 0 <= i < a.len() ==> #[trigger] node_wf(a, i)
}

/// The recursion measure for the value accessors: one more than an
/// amplifier's flattened source count, one for every other variant.
pub open spec fn spec_m2(a: Seq<Node>, i: int) -> int {
    if 0 <= i < a.len() {
        match a[i].block {
            Block::Amplifier(b) => b.sources@.len() as int + 1,
            _ => 1,
        }
    } else {
        1
    }
}

/// The value a source reference delivers to block `i` on channel `ch`:
/// the target's value, or zero for an (ill-formed) forward reference.
pub open spec fn spec_source_value(a: Seq<Node>, i: int, s: SignalSource, ch: Channel) -> i64
    decreases i, 0int,
{
    if 0 <= s.target() < i {
        spec_get(a, s.target(), ch)
    } else {
        0
    }
}

/// The running sum of the amplifier's first `k` pair products on `ch`.
pub open spec fn spec_amp_fold(
    a: Seq<Node>,
    i: int,
    ps: Seq<(SignalSource, SignalSource)>,
    k: int,
    ch: Channel,
) -> i64
    decreases i, k,
{
    if k <= 0 {
        0
    } else {
        spec_sat_add(
            spec_amp_fold(a, i, ps, k - 1, ch),
            spec_mul_fp(
                spec_source_value(a, i, ps[k - 1].0, ch),
                spec_source_value(a, i, ps[k - 1].1, ch),
            ),
        )
    }
}

/// The output of block `i` on channel `ch`:
/// a constant returns its value; an oscillator maps its phase through its
/// waveform; an amplifier sums `signal * gain` over its pairs; a stereo
/// block mixes and pans as described at [`StereoBlock`]; a sequencer
/// plays its sequence as described at [`SequencerBlock`]. Out-of-range
/// indices yield silence.
pub open spec fn spec_get(a: Seq<Node>, i: int, ch: Channel) -> i64
    decreases i, spec_m2(a, i),
{
    if 0 <= i < a.len() {
        match a[i].block {
            Block::Constant(b) => b.val,
            Block::Oscillator(b) => spec_waveform_value(b.wave, b.phase),
            Block::Amplifier(b) => spec_amp_fold(
                a,
                i,
                b.sources@,
                b.sources@.len() as int,
                ch,
            ),
            Block::Stereo(b) => {
                match ch {
                    Channel::Mono => spec_sat_add(
                        spec_source_value(a, i, b.left, Channel::Mono),
                        (spec_source_value(a, i, b.right, Channel::Mono) as int / 2) as i64,
                    ),
                    Channel::Left => {
                        let s01 = (spec_source_value(a, i, b.shift, Channel::Mono) + SCALE) / 2;
                        spec_mul_fp(
                            spec_source_value(a, i, b.left, Channel::Left),
                            (SCALE - s01) as i64,
                        )
                    },
                    Channel::Right => {
                        let s01 = (spec_source_value(a, i, b.shift, Channel::Mono) + SCALE) / 2;
                        spec_mul_fp(spec_source_value(a, i, b.left, Channel::Right), s01 as i64)
                    },
                }
            },
            Block::Sequencer(b) => spec_seq_value(
                b.sequence@,
                b.progress,
                spec_source_value(a, i, b.spacing, Channel::Mono),
            ),
        }
    } else {
        0
    }
}

/// The source-fold measure used by the amplifier arm of `spec_amp_fold`
/// needs the flattened pair list; this relates its entries to the pairs.
pub proof fn lemma_pairs_flat_index(ps: Seq<(SignalSource, SignalSource)>, k: int)
    requires
        0 <= k < ps.len(),
    ensures
        spec_pairs_flat(ps).len() == 2 * ps.len(),
        spec_pairs_flat(ps)[2 * k] == ps[k].0,
        spec_pairs_flat(ps)[2 * k + 1] == ps[k].1,
    decreases ps.len(),
{
    if ps.len() > 0 {
        lemma_pairs_flat_len(ps.drop_last());
        if k < ps.len() - 1 {
            lemma_pairs_flat_index(ps.drop_last(), k);
        }
    }
}

/// The flattened pair list has twice as many entries as the pair list.
pub proof fn lemma_pairs_flat_len(ps: Seq<(SignalSource, SignalSource)>)
    ensures
        spec_pairs_flat(ps).len() == 2 * ps.len(),
    decreases ps.len(),
{
    if ps.len() > 0 {
        lemma_pairs_flat_len(ps.drop_last());
    }
}

/// Evaluates the value a source delivers to block `i` on channel `ch`.
pub fn source_value(a: &Vec<Node>, i: usize, s: SignalSource, ch: Channel) -> (r: i64)
    requires
        arena_wf(a@),
        i <= a@.len(),
    ensures
        r == spec_source_value(a@, i as int, s, ch),
    decreases i, 0int,
{
    let t = s.inner();
    if t < i {
        get_channel(a, t, ch)
    } else {
        0
    }
}

/// Evaluates the output of block `i` on channel `ch`.
pub fn get_channel(a: &Vec<Node>, i: usize, ch: Channel) -> (r: i64)
    requires
        arena_wf(a@),
        i < a@.len(),
    ensures
        r == spec_get(a@, i as int, ch),
    decreases i, spec_m2(a@, i as int),
{
    proof {
        assert(node_wf(a@, i as int));
    }
    match &a[i].block {
        Block::Constant(b) => b.val,
        Block::Oscillator(b) => waveform_value(b.wave, b.phase),
        Block::Amplifier(b) => {
            let n = b.sources.len();
            let mut acc: i64 = 0;
            let mut k: usize = 0;
            while k < n
                invariant
                    arena_wf(a@),
                    i < a@.len(),
                    a@[i as int].block matches Block::Amplifier(bb) && bb.sources@.len() == n,
                    acc == spec_amp_fold(a@, i as int, amp_sources(a@, i as int), k as int, ch),
                    k <= n,
                decreases n - k,
            {
                let (s, g) = match &a[i].block {
                    Block::Amplifier(bb) => bb.sources[k],
                    _ => {
                        proof {
                            assert(false);
                        }
                        (SignalSource::Named(0), SignalSource::Named(0))
                    },
                };
                proof {
                    assert(node_wf(a@, i as int));
                    lemma_pairs_flat_index(amp_sources(a@, i as int), k as int);
                    assert(spec_sources(a@[i as int].block)[2 * k] == s);
                    assert(spec_sources(a@[i as int].block)[2 * k + 1] == g);
                    assert(s.target() < i && g.target() < i);
                }
                let sv = source_value(a, i, s, ch);
                let gv = source_value(a, i, g, ch);
                acc = sat_add(acc, mul_fp(sv, gv));
                k = k + 1;
            }
            acc
        },
        Block::Stereo(b) => {
            proof {
                assert(spec_sources(a@[i as int].block)[0] == b.left);
                assert(spec_sources(a@[i as int].block)[1] == b.right);
                assert(spec_sources(a@[i as int].block)[2] == b.shift);
            }
            match ch {
                Channel::Mono => {
                    let l = source_value(a, i, b.left, Channel::Mono);
                    let r = source_value(a, i, b.right, Channel::Mono);
                    sat_add(l, crate::fixed::half(r))
                },
                Channel::Left => {
                    let sv = source_value(a, i, b.shift, Channel::Mono);
                    let s01 = shift01(sv);
                    let l = source_value(a, i, b.left, Channel::Left);
                    mul_fp(l, one_minus(s01))
                },
                Channel::Right => {
                    let sv = source_value(a, i, b.shift, Channel::Mono);
                    let s01 = shift01(sv);
                    let l = source_value(a, i, b.left, Channel::Right);
                    mul_fp(l, s01)
                },
            }
        },
        Block::Sequencer(b) => {
            proof {
                assert(spec_sources(a@[i as int].block)[1] == b.spacing);
            }
            let sp = source_value(a, i, b.spacing, Channel::Mono);
            seq_value(&b.sequence, b.progress, sp)
        },
    }
}

/// The amplifier pair list of slot `i` (empty for other variants).
pub open spec fn amp_sources(a: Seq<Node>, i: int) -> Seq<(SignalSource, SignalSource)> {
    match a[i].block {
        Block::Amplifier(b) => b.sources@,
        _ => Seq::empty(),
    }
}

/// One more step, saturating at the counter's range.
pub open spec fn bump_steps(s: u64) -> u64 {
    if s == u64::MAX {
        u64::MAX
    } else {
        (s + 1) as u64
    }
}

/// Steps the target of `s` if the reference owns it; a `Named` reference
/// is inert, its target is stepped by whoever owns it.
pub open spec fn spec_step_if_anon(a: Seq<Node>, i: int, s: SignalSource) -> Seq<Node>
    decreases i, 0int,
{
    if s.is_anonymous() && 0 <= s.target() < i {
        spec_step_node(a, s.target())
    } else {
        a
    }
}

/// Steps the owned targets of the first `k` sources of block `i`, in
/// declaration order.
pub open spec fn spec_step_srcs(a: Seq<Node>, i: int, srcs: Seq<SignalSource>, k: int) -> Seq<
    Node,
>
    decreases i, k,
{
    if k <= 0 {
        a
    } else {
        spec_step_if_anon(spec_step_srcs(a, i, srcs, k - 1), i, srcs[k - 1])
    }
}

/// Advances the state of block `i` itself (after its owned children were
/// stepped) and bumps its step counter:
/// an oscillator adds `frequency / SAMPLE_RATE` to its phase and wraps it
/// into `[0, 1)`; a sequencer adds `bpm / BEAT_RATE` beats to its
/// progress (saturating) and subtracts the sequence length once when the
/// progress exceeds it; the stateless variants only bump.
pub open spec fn spec_advance(a: Seq<Node>, i: int) -> Seq<Node> {
    if 0 <= i < a.len() {
        match a[i].block {
            Block::Oscillator(b) => {
                let fv = spec_source_value(a, i, b.freq_source, Channel::Mono);
                let inc = fv as int / (crate::SAMPLE_RATE as int);
                let ph = ((b.phase + inc) % (SCALE as int)) as i64;
                a.update(
                    i,
                    Node {
                        block: Block::Oscillator(
                            OscillatorBlock {
                                freq_source: b.freq_source,
                                phase: ph,
                                wave: b.wave,
                            },
                        ),
                        steps: bump_steps(a[i].steps),
                    },
                )
            },
            Block::Sequencer(b) => {
                let bv = spec_source_value(a, i, b.bpm, Channel::Mono);
                let inc = bv as int / (crate::BEAT_RATE as int);
                let p1 = clamp_i64(b.progress + inc) as int;
                let lenq = b.sequence@.len() * (SCALE as int);
                let p2 = if p1 > lenq {
                    p1 - lenq
                } else {
                    p1
                };
                a.update(
                    i,
                    Node {
                        block: Block::Sequencer(
                            SequencerBlock {
                                sequence: b.sequence,
                                bpm: b.bpm,
                                spacing: b.spacing,
                                progress: p2 as i64,
                            },
                        ),
                        steps: bump_steps(a[i].steps),
                    },
                )
            },
            _ => a.update(i, Node { block: a[i].block, steps: bump_steps(a[i].steps) }),
        }
    } else {
        a
    }
}

/// One step of block `i`: steps the owned targets of all its sources in
/// declaration order, then advances the block's own state.
pub open spec fn spec_step_node(a: Seq<Node>, i: int) -> Seq<Node>
    decreases i, spec_sources(a[i].block).len() + 1,
{
    if 0 <= i < a.len() {
        let srcs = spec_sources(a[i].block);
        spec_advance(spec_step_srcs(a, i, srcs, srcs.len() as int), i)
    } else {
        a
    }
}

/// Whether two arena slots agree on everything but running state: same
/// variant, same references, same waveform and sequence. Stepping and
/// state transfer keep the shape and only move phase, progress and step
/// counters.
pub open spec fn same_shape_node(x: Node, y: Node) -> bool {
    match (x.block, y.block) {
        (Block::Constant(p), Block::Constant(q)) => p == q,
        (Block::Oscillator(p), Block::Oscillator(q)) => p.freq_source == q.freq_source && p.wave
            == q.wave,
        (Block::Amplifier(p), Block::Amplifier(q)) => p.sources@ == q.sources@,
        (Block::Stereo(p), Block::Stereo(q)) => p == q,
        (Block::Sequencer(p), Block::Sequencer(q)) => p.sequence@ == q.sequence@ && p.bpm == q.bpm
            && p.spacing == q.spacing,
        _ => false,
    }
}

/// Pointwise shape agreement of two arenas.
pub open spec fn same_shape(a: Seq<Node>, b: Seq<Node>) -> bool {
    a.len() == b.len() && forall|i: int| 0 <= i < a.len() ==> #[trigger] same_shape_node(a[i], b[i])
}

/// Shape agreement preserves every derived structural notion: the
/// variant tag and the source list.
pub proof fn lemma_same_shape_node_sources(x: Node, y: Node)
    requires
        same_shape_node(x, y),
    ensures
        spec_sources(x.block) == spec_sources(y.block),
        x.block.spec_block_type() == y.block.spec_block_type(),
        spec_children(x.block) == spec_children(y.block),
{
}

/// Shape agreement is transitive.
pub proof fn lemma_same_shape_trans(a: Seq<Node>, b: Seq<Node>, c: Seq<Node>)
    requires
        same_shape(a, b),
        same_shape(b, c),
    ensures
        same_shape(a, c),
{
    assert forall|i: int| 0 <= i < a.len() implies #[trigger] same_shape_node(a[i], c[i]) by {
        assert(same_shape_node(a[i], b[i]));
        assert(same_shape_node(b[i], c[i]));
    }
}

/// Stepping preserves the arena's length, shape and well-formedness.
pub proof fn lemma_step_shape(a: Seq<Node>, i: int)
    requires
        arena_wf(a),
    ensures
        spec_step_node(a, i).len() == a.len(),
        same_shape(a, spec_step_node(a, i)),
        arena_wf(spec_step_node(a, i)),
    decreases i, spec_sources(a[i].block).len() + 1, 0int,
{
    if 0 <= i < a.len() {
        let srcs = spec_sources(a[i].block);
        lemma_step_srcs_shape(a, i, srcs, srcs.len() as int);
        let a1 = spec_step_srcs(a, i, srcs, srcs.len() as int);
        lemma_advance_shape(a1, i);
        lemma_same_shape_trans(a, a1, spec_step_node(a, i));
    }
}

/// Stepping a prefix of a block's sources preserves length, shape and
/// well-formedness.
pub proof fn lemma_step_srcs_shape(a: Seq<Node>, i: int, srcs: Seq<SignalSource>, k: int)
    requires
        arena_wf(a),
    ensures
        spec_step_srcs(a, i, srcs, k).len() == a.len(),
        same_shape(a, spec_step_srcs(a, i, srcs, k)),
        arena_wf(spec_step_srcs(a, i, srcs, k)),
    decreases i, k, 1int,
{
    if k <= 0 {
        lemma_same_shape_refl(a);
    } else {
        lemma_step_srcs_shape(a, i, srcs, k - 1);
        let a1 = spec_step_srcs(a, i, srcs, k - 1);
        lemma_step_if_anon_shape(a1, i, srcs[k - 1]);
        lemma_same_shape_trans(a, a1, spec_step_srcs(a, i, srcs, k));
    }
}

/// Stepping through one source reference preserves length, shape and
/// well-formedness.
pub proof fn lemma_step_if_anon_shape(a: Seq<Node>, i: int, s: SignalSource)
    requires
        arena_wf(a),
    ensures
        spec_step_if_anon(a, i, s).len() == a.len(),
        same_shape(a, spec_step_if_anon(a, i, s)),
        arena_wf(spec_step_if_anon(a, i, s)),
    decreases i, 0int, 0int,
{
    if s.is_anonymous() && 0 <= s.target() < i {
        lemma_step_shape(a, s.target());
    } else {
        lemma_same_shape_refl(a);
    }
}

/// Shape agreement is reflexive.
pub proof fn lemma_same_shape_refl(a: Seq<Node>)
    ensures
        same_shape(a, a),
{
    assert forall|i: int| 0 <= i < a.len() implies #[trigger] same_shape_node(a[i], a[i]) by {
        match a[i].block {
            Block::Constant(_) => {},
            Block::Oscillator(_) => {},
            Block::Amplifier(_) => {},
            Block::Stereo(_) => {},
            Block::Sequencer(_) => {},
        }
    }
}

/// Advancing one block's own state preserves length, shape and
/// well-formedness.
pub proof fn lemma_advance_shape(a: Seq<Node>, i: int)
    requires
        arena_wf(a),
    ensures
        spec_advance(a, i).len() == a.len(),
        same_shape(a, spec_advance(a, i)),
        arena_wf(spec_advance(a, i)),
{
    lemma_same_shape_refl(a);
    if 0 <= i < a.len() {
        let b = spec_advance(a, i);
        assert forall|j: int| 0 <= j < a.len() implies #[trigger] same_shape_node(a[j], b[j]) by {
            if j != i {
                assert(same_shape_node(a[j], a[j]));
            } else {
                match a[i].block {
                    Block::Constant(_) => {},
                    Block::Oscillator(_) => {},
                    Block::Amplifier(_) => {},
                    Block::Stereo(_) => {},
                    Block::Sequencer(_) => {},
                }
            }
        }
        assert forall|j: int| 0 <= j < b.len() implies #[trigger] node_wf(b, j) by {
            assert(node_wf(a, j));
            lemma_same_shape_node_sources(a[j], b[j]);
            if j == i {
                match a[i].block {
                    Block::Oscillator(ob) => {
                        let fv = spec_source_value(a, i, ob.freq_source, Channel::Mono);
                        let inc = fv as int / (crate::SAMPLE_RATE as int);
                        vstd::arithmetic::div_mod::lemma_mod_bound(
                            ob.phase + inc,
                            SCALE as int,
                        );
                    },
                    _ => {},
                }
            }
        }
    }
}

/// Steps the target of `s` if the reference owns it; `Named` references
/// are inert.
pub fn step_source(a: &mut Vec<Node>, i: usize, s: SignalSource)
    requires
        arena_wf(old(a)@),
        i <= old(a)@.len(),
    ensures
        final(a)@ == spec_step_if_anon(old(a)@, i as int, s),
        arena_wf(final(a)@),
        same_shape(old(a)@, final(a)@),
    decreases i, 0int,
{
    proof {
        lemma_step_if_anon_shape(a@, i as int, s);
    }
    match s {
        SignalSource::Anonymous(t) => {
            if t < i {
                step_node(a, t);
            }
        },
        SignalSource::Named(_) => {},
    }
}

/// Advances block `i` by one tick: steps the owned targets of all its
/// sources in declaration order, then advances its own state as
/// described at [`spec_advance`].
pub fn step_node(a: &mut Vec<Node>, i: usize)
    requires
        arena_wf(old(a)@),
        i < old(a)@.len(),
    ensures
        final(a)@ == spec_step_node(old(a)@, i as int),
        arena_wf(final(a)@),
        same_shape(old(a)@, final(a)@),
    decreases i, 1int,
{
    proof {
        lemma_step_shape(a@, i as int);
        assert(node_wf(a@, i as int));
    }
    let ghost a0 = a@;
    let ghost srcs = spec_sources(a0[i as int].block);
    match &a[i].block {
        Block::Constant(_) => {
            proof {
                assert(spec_step_srcs(a0, i as int, srcs, 0) == a0);
            }
        },
        Block::Oscillator(b) => {
            let fs = b.freq_source;
            proof {
                assert(srcs[0] == fs);
                assert(spec_step_srcs(a0, i as int, srcs, 0) == a0);
            }
            step_source(a, i, fs);
            proof {
                assert(a@ == spec_step_srcs(a0, i as int, srcs, 1));
            }
        },
        Block::Amplifier(b) => {
            let n = b.sources.len();
            proof {
                lemma_pairs_flat_len(amp_sources(a0, i as int));
                assert(spec_step_srcs(a0, i as int, srcs, 0) == a0);
            }
            let mut k: usize = 0;
            while k < n
                invariant
                    arena_wf(a0),
                    arena_wf(a@),
                    i < a@.len(),
                    k <= n,
                    same_shape(a0, a@),
                    a0[i as int].block matches Block::Amplifier(b0) && b0.sources@.len() == n,
                    srcs == spec_sources(a0[i as int].block),
                    srcs.len() == 2 * n,
                    a@ == spec_step_srcs(a0, i as int, srcs, 2 * k),
                decreases n - k,
            {
                proof {
                    assert(same_shape_node(a0[i as int], a@[i as int]));
                }
                let (s, g) = match &a[i].block {
                    Block::Amplifier(bb) => bb.sources[k],
                    _ => {
                        proof {
                            assert(false);
                        }
                        (SignalSource::Named(0), SignalSource::Named(0))
                    },
                };
                proof {
                    assert(same_shape_node(a0[i as int], a@[i as int]));
                    lemma_pairs_flat_index(amp_sources(a0, i as int), k as int);
                    assert(srcs[2 * k] == s);
                    assert(srcs[2 * k + 1] == g);
                }
                step_source(a, i, s);
                proof {
                    assert(a@ == spec_step_srcs(a0, i as int, srcs, 2 * k + 1));
                }
                step_source(a, i, g);
                proof {
                    assert(a@ == spec_step_srcs(a0, i as int, srcs, 2 * k + 2));
                    lemma_step_srcs_shape(a0, i as int, srcs, 2 * k + 2);
                }
                k = k + 1;
            }
        },
        Block::Stereo(b) => {
            let s1 = b.left;
            let s2 = b.right;
            let s3 = b.shift;
            proof {
                assert(srcs[0] == s1 && srcs[1] == s2 && srcs[2] == s3);
                assert(spec_step_srcs(a0, i as int, srcs, 0) == a0);
            }
            step_source(a, i, s1);
            proof {
                assert(a@ == spec_step_srcs(a0, i as int, srcs, 1));
            }
            step_source(a, i, s2);
            proof {
                assert(a@ == spec_step_srcs(a0, i as int, srcs, 2));
            }
            step_source(a, i, s3);
            proof {
                assert(a@ == spec_step_srcs(a0, i as int, srcs, 3));
            }
        },
        Block::Sequencer(b) => {
            let s1 = b.bpm;
            let s2 = b.spacing;
            proof {
                assert(srcs[0] == s1 && srcs[1] == s2);
                assert(spec_step_srcs(a0, i as int, srcs, 0) == a0);
            }
            step_source(a, i, s1);
            proof {
                assert(a@ == spec_step_srcs(a0, i as int, srcs, 1));
            }
            step_source(a, i, s2);
            proof {
                assert(a@ == spec_step_srcs(a0, i as int, srcs, 2));
            }
        },
    }
    proof {
        assert(a@ == spec_step_srcs(a0, i as int, srcs, srcs.len() as int));
        lemma_step_srcs_shape(a0, i as int, srcs, srcs.len() as int);
        assert(same_shape_node(a0[i as int], a@[i as int]));
        assert(node_wf(a@, i as int));
    }
    advance_node(a, i);
}

/// Advances the state of block `i` itself and bumps its step counter.
fn advance_node(a: &mut Vec<Node>, i: usize)
    requires
        arena_wf(old(a)@),
        i < old(a)@.len(),
    ensures
        final(a)@ == spec_advance(old(a)@, i as int),
{
    proof {
        assert(node_wf(a@, i as int));
    }
    let ghost a0 = a@;
    let steps = a[i].steps;
    let new_steps: u64 = if steps == u64::MAX {
        u64::MAX
    } else {
        steps + 1
    };
    // compute the new continuous state while the arena is still intact
    let (ph_new, pr_new): (Option<i64>, Option<i64>) = match &a[i].block {
        Block::Oscillator(b) => {
            let fs = b.freq_source;
            let phase = b.phase;
            let fv = source_value(a, i, fs, Channel::Mono);
            proof {
                vstd::arithmetic::div_mod::lemma_div_is_ordered(
                    i64::MIN as int,
                    fv as int,
                    crate::SAMPLE_RATE as int,
                );
                vstd::arithmetic::div_mod::lemma_div_is_ordered(
                    fv as int,
                    i64::MAX as int,
                    crate::SAMPLE_RATE as int,
                );
            }
            let inc = fv.checked_div_euclid(crate::SAMPLE_RATE as i64).unwrap();
            let ph = crate::fixed::wrap_unit(phase + inc);
            (Some(ph), None)
        },
        Block::Sequencer(b) => {
            let bpm = b.bpm;
            let progress = b.progress;
            let seq_len = b.sequence.len();
            let bv = source_value(a, i, bpm, Channel::Mono);
            proof {
                vstd::arithmetic::div_mod::lemma_div_is_ordered(
                    i64::MIN as int,
                    bv as int,
                    crate::BEAT_RATE as int,
                );
                vstd::arithmetic::div_mod::lemma_div_is_ordered(
                    bv as int,
                    i64::MAX as int,
                    crate::BEAT_RATE as int,
                );
            }
            let inc = bv.checked_div_euclid(crate::BEAT_RATE).unwrap();
            let p1 = crate::fixed::sat_add(progress, inc);
            let lenq: i128 = (seq_len as i128) * (SCALE as i128);
            let p2: i64 = if (p1 as i128) > lenq {
                ((p1 as i128) - lenq) as i64
            } else {
                p1
            };
            (None, Some(p2))
        },
        _ => (None, None),
    };
    // swap the node out, rebuild it with the new state, and put it back
    let mut nd = Node { block: Block::Constant(ConstantBlock { val: 0 }), steps: 0 };
    a.set_and_swap(i, &mut nd);
    let new_block = match nd.block {
        Block::Oscillator(b) => Block::Oscillator(
            OscillatorBlock {
                freq_source: b.freq_source,
                phase: ph_new.unwrap(),
                wave: b.wave,
            },
        ),
        Block::Sequencer(b) => Block::Sequencer(
            SequencerBlock {
                sequence: b.sequence,
                bpm: b.bpm,
                spacing: b.spacing,
                progress: pr_new.unwrap(),
            },
        ),
        other => other,
    };
    a.set(i, Node { block: new_block, steps: new_steps });
    proof {
        assert(final(a)@ =~= spec_advance(a0, i as int));
    }
}

/// Whether slot `k` of block `p`'s source list is an owning reference to
/// block `c`.
pub open spec fn anon_edge(a: Seq<Node>, p: int, k: int, c: int) -> bool {
    &&& 0 <= p < a.len()
    &&& 0 <= k < spec_sources(a[p].block).len()
    &&& spec_sources(a[p].block)[k].is_anonymous()
    &&& spec_sources(a[p].block)[k].target() == c
}

/// Every block has at most one owner: no two owning references point at
/// the same block. Together with the backwards-only invariant this makes
/// the owning references a forest, so one tick steps every block at most
/// once.
pub open spec fn unique_owner(a: Seq<Node>) -> bool {
    forall|p1: int, k1: int, p2: int, k2: int, c: int|
        #[trigger] anon_edge(a, p1, k1, c) && #[trigger] anon_edge(a, p2, k2, c) ==> p1 == p2 && k1
            == k2
}

/// Whether block `d` lies in the owned subtree of block `r`: it is `r`
/// itself or reachable from `r` through owning references. These are
/// exactly the blocks one step of `r` advances.
pub open spec fn reach(a: Seq<Node>, r: int, d: int) -> bool
    decreases r,
{
    r == d || (0 <= r < a.len() && exists|k: int|
        0 <= k < spec_sources(a[r].block).len() && (#[trigger] spec_sources(
            a[r].block,
        )[k]).is_anonymous() && 0 <= spec_sources(a[r].block)[k].target() < r && reach(
            a,
            spec_sources(a[r].block)[k].target(),
            d,
        ))
}

/// A reachable block sits at or below its root in the arena.
pub proof fn lemma_reach_le(a: Seq<Node>, r: int, d: int)
    requires
        reach(a, r, d),
    ensures
        d <= r,
        r != d ==> 0 <= d,
    decreases r,
{
    if r != d {
        let k = choose|k: int|
            0 <= k < spec_sources(a[r].block).len() && (#[trigger] spec_sources(
                a[r].block,
            )[k]).is_anonymous() && 0 <= spec_sources(a[r].block)[k].target() < r && reach(
                a,
                spec_sources(a[r].block)[k].target(),
                d,
            );
        lemma_reach_le(a, spec_sources(a[r].block)[k].target(), d);
    }
}

/// Reachability is transitive.
pub proof fn lemma_reach_trans(a: Seq<Node>, x: int, y: int, d: int)
    requires
        reach(a, x, y),
        reach(a, y, d),
    ensures
        reach(a, x, d),
    decreases x,
{
    if x != y {
        let k = choose|k: int|
            0 <= k < spec_sources(a[x].block).len() && (#[trigger] spec_sources(
                a[x].block,
            )[k]).is_anonymous() && 0 <= spec_sources(a[x].block)[k].target() < x && reach(
                a,
                spec_sources(a[x].block)[k].target(),
                y,
            );
        lemma_reach_trans(a, spec_sources(a[x].block)[k].target(), y, d);
    }
}

/// A block reached from elsewhere is entered through its owning edge.
pub proof fn lemma_reach_last_edge(a: Seq<Node>, x: int, d: int)
    requires
        reach(a, x, d),
        x != d,
    ensures
        exists|p: int, k: int| #[trigger] anon_edge(a, p, k, d) && reach(a, x, p),
    decreases x,
{
    let k = choose|k: int|
        0 <= k < spec_sources(a[x].block).len() && (#[trigger] spec_sources(
            a[x].block,
        )[k]).is_anonymous() && 0 <= spec_sources(a[x].block)[k].target() < x && reach(
            a,
            spec_sources(a[x].block)[k].target(),
            d,
        );
    let t = spec_sources(a[x].block)[k].target();
    if t == d {
        assert(anon_edge(a, x, k, d));
        assert(reach(a, x, x));
    } else {
        lemma_reach_last_edge(a, t, d);
        let (p, kk): (int, int) = choose|p: int, kk: int|
            #[trigger] anon_edge(a, p, kk, d) && reach(a, t, p);
        assert(reach(a, x, p));
        assert(anon_edge(a, p, kk, d) && reach(a, x, p));
    }
}

/// Two roots of a common descendant are comparable: one reaches the
/// other. This is where single ownership pays off.
pub proof fn lemma_reach_comparable(a: Seq<Node>, x: int, y: int, d: int)
    requires
        arena_wf(a),
        unique_owner(a),
        reach(a, x, d),
        reach(a, y, d),
    ensures
        reach(a, x, y) || reach(a, y, x),
    decreases x + y - 2 * d,
{
    lemma_reach_le(a, x, d);
    lemma_reach_le(a, y, d);
    if x == d || y == d {
    } else {
        lemma_reach_last_edge(a, x, d);
        lemma_reach_last_edge(a, y, d);
        let (p1, k1): (int, int) = choose|p1: int, k1: int|
            #[trigger] anon_edge(a, p1, k1, d) && reach(a, x, p1);
        let (p2, k2): (int, int) = choose|p2: int, k2: int|
            #[trigger] anon_edge(a, p2, k2, d) && reach(a, y, p2);
        assert(p1 == p2 && k1 == k2);
        assert(node_wf(a, p1));
        assert(d < p1);
        lemma_reach_le(a, x, p1);
        lemma_reach_le(a, y, p1);
        lemma_reach_comparable(a, x, y, p1);
    }
}

/// Subtrees hanging off two different owning slots of one parent are
/// disjoint.
pub proof fn lemma_sibling_disjoint(a: Seq<Node>, p: int, k1: int, k2: int, d: int)
    requires
        arena_wf(a),
        unique_owner(a),
        k1 != k2,
        anon_edge(a, p, k1, spec_sources(a[p].block)[k1].target()),
        anon_edge(a, p, k2, spec_sources(a[p].block)[k2].target()),
    ensures
        !(reach(a, spec_sources(a[p].block)[k1].target(), d) && reach(
            a,
            spec_sources(a[p].block)[k2].target(),
            d,
        )),
{
    let c1 = spec_sources(a[p].block)[k1].target();
    let c2 = spec_sources(a[p].block)[k2].target();
    if reach(a, c1, d) && reach(a, c2, d) {
        if c1 == c2 {
            assert(anon_edge(a, p, k1, c1) && anon_edge(a, p, k2, c1));
        } else {
            lemma_reach_comparable(a, c1, c2, d);
            if reach(a, c1, c2) {
                lemma_reach_last_edge(a, c1, c2);
                let (q, kq): (int, int) = choose|q: int, kq: int|
                    #[trigger] anon_edge(a, q, kq, c2) && reach(a, c1, q);
                assert(anon_edge(a, p, k2, c2));
                assert(q == p);
                lemma_reach_le(a, c1, p);
                assert(node_wf(a, p));
            } else {
                lemma_reach_last_edge(a, c2, c1);
                let (q, kq): (int, int) = choose|q: int, kq: int|
                    #[trigger] anon_edge(a, q, kq, c1) && reach(a, c2, q);
                assert(anon_edge(a, p, k1, c1));
                assert(q == p);
                lemma_reach_le(a, c2, p);
                assert(node_wf(a, p));
            }
        }
    }
}

/// Subtrees of two distinct roots that nobody owns are disjoint.
pub proof fn lemma_roots_disjoint(a: Seq<Node>, r1: int, r2: int, d: int)
    requires
        arena_wf(a),
        unique_owner(a),
        r1 != r2,
        forall|p: int, k: int| !anon_edge(a, p, k, r1),
        forall|p: int, k: int| !anon_edge(a, p, k, r2),
    ensures
        !(reach(a, r1, d) && reach(a, r2, d)),
{
    if reach(a, r1, d) && reach(a, r2, d) {
        lemma_reach_comparable(a, r1, r2, d);
        if reach(a, r1, r2) {
            lemma_reach_last_edge(a, r1, r2);
        } else {
            lemma_reach_last_edge(a, r2, r1);
        }
    }
}

/// Shape agreement preserves reachability.
pub proof fn lemma_reach_shape(a: Seq<Node>, b: Seq<Node>, r: int, d: int)
    requires
        same_shape(a, b),
    ensures
        reach(a, r, d) == reach(b, r, d),
    decreases r,
{
    if 0 <= r < a.len() {
        lemma_same_shape_node_sources(a[r], b[r]);
        if r != d && reach(a, r, d) {
            let k = choose|k: int|
                0 <= k < spec_sources(a[r].block).len() && (#[trigger] spec_sources(
                    a[r].block,
                )[k]).is_anonymous() && 0 <= spec_sources(a[r].block)[k].target() < r && reach(
                    a,
                    spec_sources(a[r].block)[k].target(),
                    d,
                );
            lemma_reach_shape(a, b, spec_sources(a[r].block)[k].target(), d);
        }
        if r != d && reach(b, r, d) {
            let k = choose|k: int|
                0 <= k < spec_sources(b[r].block).len() && (#[trigger] spec_sources(
                    b[r].block,
                )[k]).is_anonymous() && 0 <= spec_sources(b[r].block)[k].target() < r && reach(
                    b,
                    spec_sources(b[r].block)[k].target(),
                    d,
                );
            lemma_reach_shape(a, b, spec_sources(b[r].block)[k].target(), d);
        }
    }
}

/// Shape agreement preserves single ownership.
pub proof fn lemma_unique_shape(a: Seq<Node>, b: Seq<Node>)
    requires
        same_shape(a, b),
        unique_owner(a),
    ensures
        unique_owner(b),
{
    assert forall|p1: int, k1: int, p2: int, k2: int, c: int|
        #[trigger] anon_edge(b, p1, k1, c) && #[trigger] anon_edge(b, p2, k2, c) implies p1 == p2
        && k1 == k2 by {
        lemma_same_shape_node_sources(a[p1], b[p1]);
        lemma_same_shape_node_sources(a[p2], b[p2]);
        assert(anon_edge(a, p1, k1, c));
        assert(anon_edge(a, p2, k2, c));
    }
}

/// Whether `d` lies in the owned subtree of one of the first `k` sources
/// of block `i`.
pub open spec fn reach_prefix(a: Seq<Node>, i: int, srcs: Seq<SignalSource>, k: int, d: int) -> bool {
    exists|j: int|
        0 <= j < k && (#[trigger] srcs[j]).is_anonymous() && 0 <= srcs[j].target() < i && reach(
            a,
            srcs[j].target(),
            d,
        )
}

/// One step of block `i` advances exactly the blocks of its owned
/// subtree, each by exactly one.
pub proof fn lemma_step_counts(a: Seq<Node>, i: int)
    requires
        arena_wf(a),
        unique_owner(a),
        0 <= i < a.len(),
    ensures
        forall|d: int|
            0 <= d < a.len() ==> #[trigger] spec_step_node(a, i)[d].steps == if reach(a, i, d) {
                bump_steps(a[d].steps)
            } else {
                a[d].steps
            },
    decreases i, spec_sources(a[i].block).len() + 1, 0int,
{
    let srcs = spec_sources(a[i].block);
    lemma_counts_srcs(a, i, srcs, srcs.len() as int);
    let a1 = spec_step_srcs(a, i, srcs, srcs.len() as int);
    lemma_step_srcs_shape(a, i, srcs, srcs.len() as int);
    assert forall|d: int| 0 <= d < a.len() implies #[trigger] spec_step_node(a, i)[d].steps == if
    reach(a, i, d) {
        bump_steps(a[d].steps)
    } else {
        a[d].steps
    } by {
        if d == i {
            assert(reach(a, i, i));
            if reach_prefix(a, i, srcs, srcs.len() as int, i) {
                let j = choose|j: int|
                    0 <= j < srcs.len() && (#[trigger] srcs[j]).is_anonymous() && 0
                        <= srcs[j].target() < i && reach(a, srcs[j].target(), i);
                lemma_reach_le(a, srcs[j].target(), i);
            }
            assert(a1[i].steps == a[i].steps);
            assert(spec_step_node(a, i) == spec_advance(a1, i));
        } else {
            assert(reach(a, i, d) == reach_prefix(a, i, srcs, srcs.len() as int, d));
            assert(spec_advance(a1, i)[d] == a1[d]);
        }
    }
}

/// Stepping the first `k` sources of block `i` advances exactly the
/// blocks owned below one of them, each by exactly one.
pub proof fn lemma_counts_srcs(a: Seq<Node>, i: int, srcs: Seq<SignalSource>, k: int)
    requires
        arena_wf(a),
        unique_owner(a),
        0 <= i < a.len(),
        srcs == spec_sources(a[i].block),
        0 <= k <= srcs.len(),
    ensures
        forall|d: int|
            0 <= d < a.len() ==> #[trigger] spec_step_srcs(a, i, srcs, k)[d].steps == if
            reach_prefix(a, i, srcs, k, d) {
                bump_steps(a[d].steps)
            } else {
                a[d].steps
            },
    decreases i, k, 1int,
{
    if k > 0 {
        lemma_counts_srcs(a, i, srcs, k - 1);
        let a1 = spec_step_srcs(a, i, srcs, k - 1);
        lemma_step_srcs_shape(a, i, srcs, k - 1);
        let s = srcs[k - 1];
        if s.is_anonymous() && 0 <= s.target() < i {
            let t = s.target();
            lemma_unique_shape(a, a1);
            lemma_step_counts_inner(a1, t);
            assert forall|d: int| 0 <= d < a.len() implies #[trigger] spec_step_srcs(
                a,
                i,
                srcs,
                k,
            )[d].steps == if reach_prefix(a, i, srcs, k, d) {
                bump_steps(a[d].steps)
            } else {
                a[d].steps
            } by {
                lemma_reach_shape(a, a1, t, d);
                assert(spec_step_srcs(a, i, srcs, k) == spec_step_if_anon(a1, i, srcs[k - 1]));
                assert(spec_step_if_anon(a1, i, srcs[k - 1]) == spec_step_node(a1, t));
                if reach(a, t, d) && reach_prefix(a, i, srcs, k - 1, d) {
                    let j = choose|j: int|
                        0 <= j < k - 1 && (#[trigger] srcs[j]).is_anonymous() && 0
                            <= srcs[j].target() < i && reach(a, srcs[j].target(), d);
                    assert(anon_edge(a, i, j, srcs[j].target()));
                    assert(anon_edge(a, i, k - 1, t));
                    lemma_sibling_disjoint(a, i, j, k - 1, d);
                }
                if reach(a, t, d) {
                    assert(a1[d].steps == a[d].steps);
                    assert(spec_step_srcs(a, i, srcs, k) == spec_step_node(a1, t));
                    assert(reach_prefix(a, i, srcs, k, d));
                } else {
                    assert(spec_step_node(a1, t)[d].steps == a1[d].steps);
                    assert(reach_prefix(a, i, srcs, k, d) == reach_prefix(a, i, srcs, k - 1, d));
                }
            }
        } else {
            assert(spec_step_srcs(a, i, srcs, k) == spec_step_if_anon(a1, i, srcs[k - 1]));
            assert(spec_step_srcs(a, i, srcs, k) == a1);
            assert forall|d: int| 0 <= d < a.len() implies (reach_prefix(a, i, srcs, k, d)
                == reach_prefix(a, i, srcs, k - 1, d)) by {
                if reach_prefix(a, i, srcs, k, d) {
                    let j = choose|j: int|
                        0 <= j < k && (#[trigger] srcs[j]).is_anonymous() && 0 <= srcs[j].target()
                            < i && reach(a, srcs[j].target(), d);
                    assert(j < k - 1);
                }
            }
        }
    }
}

/// The inner copy of [`lemma_step_counts`] that closes the mutual
/// recursion: its first measure is the stepped child, strictly below `i`.
pub proof fn lemma_step_counts_inner(a: Seq<Node>, i: int)
    requires
        arena_wf(a),
        unique_owner(a),
        0 <= i < a.len(),
    ensures
        forall|d: int|
            0 <= d < a.len() ==> #[trigger] spec_step_node(a, i)[d].steps == if reach(a, i, d) {
                bump_steps(a[d].steps)
            } else {
                a[d].steps
            },
    decreases i, spec_sources(a[i].block).len() + 2, 0int,
{
    lemma_step_counts(a, i);
}

/// The list of a block's direct children for hot-reload traversal: the
/// targets of its sources, in declaration order. Constants and
/// sequencers expose no children to the synchronizer.
pub open spec fn spec_children(b: Block) -> Seq<int> {
    match b {
        Block::Constant(_) => Seq::empty(),
        Block::Sequencer(_) => Seq::empty(),
        _ => Seq::new(spec_sources(b).len(), |k: int| spec_sources(b)[k].target()),
    }
}

/// An ordered list of child block indices handed to the hot-reload
/// synchronizer.
#[derive(Clone, Debug)]
pub struct SignalBlockChildren(pub Vec<usize>);

impl SignalBlockChildren {
    /// An empty child list.
    pub fn new() -> (r: SignalBlockChildren)
        ensures
            r.0@.len() == 0,
    {
        SignalBlockChildren(Vec::new())
    }

    /// Appends a child.
    pub fn push(&mut self, child: usize)
        ensures
            final(self).0@ == old(self).0@.push(child),
    {
        self.0.push(child);
    }

    /// How many children are listed.
    pub fn len(&self) -> (r: usize)
        ensures
            r == self.0@.len(),
    {
        self.0.len()
    }

    /// The child at position `k`.
    pub fn get(&self, k: usize) -> (r: usize)
        requires
            k < self.0@.len(),
        ensures
            r == self.0@[k as int],
    {
        self.0[k]
    }
}

/// Collects the child indices of block `i`.
pub fn children_of(a: &Vec<Node>, i: usize) -> (c: SignalBlockChildren)
    requires
        i < a@.len(),
    ensures
        c.0@.len() == spec_children(a@[i as int].block).len(),
        forall|k: int|
            0 <= k < c.0@.len() ==> c.0@[k] == spec_children(a@[i as int].block)[k],
{
    let mut c = SignalBlockChildren::new();
    match &a[i].block {
        Block::Constant(_) => {},
        Block::Sequencer(_) => {},
        Block::Oscillator(b) => {
            c.push(b.freq_source.inner());
        },
        Block::Stereo(b) => {
            c.push(b.left.inner());
            c.push(b.right.inner());
            c.push(b.shift.inner());
        },
        Block::Amplifier(b) => {
            let n = b.sources.len();
            proof {
                lemma_pairs_flat_len(amp_sources(a@, i as int));
            }
            let mut k: usize = 0;
            while k < n
                invariant
                    i < a@.len(),
                    k <= n,
                    a@[i as int].block matches Block::Amplifier(bb) && bb.sources@.len() == n,
                    spec_children(a@[i as int].block).len() == 2 * n,
                    c.0@.len() == 2 * k,
                    forall|j: int|
                        0 <= j < c.0@.len() ==> c.0@[j] == spec_children(
                            a@[i as int].block,
                        )[j],
                decreases n - k,
            {
                let (s, g) = match &a[i].block {
                    Block::Amplifier(bb) => bb.sources[k],
                    _ => {
                        proof {
                            assert(false);
                        }
                        (SignalSource::Named(0), SignalSource::Named(0))
                    },
                };
                proof {
                    lemma_pairs_flat_index(amp_sources(a@, i as int), k as int);
                }
                c.push(s.inner());
                c.push(g.inner());
                k = k + 1;
            }
        },
    }
    c
}

/// Carries over block `i`'s own continuous state from its counterpart
/// `oi` in the old arena: an oscillator takes the old phase when the old
/// block is an oscillator too; a sequencer takes the old sync value; the
/// stateless variants take nothing.
pub open spec fn spec_sync_own(a: Seq<Node>, i: int, old_a: Seq<Node>, oi: int) -> Seq<Node> {
    if 0 <= i < a.len() && 0 <= oi < old_a.len() {
        match a[i].block {
            Block::Oscillator(b) => if old_a[oi].block matches Block::Oscillator(_) {
                a.update(
                    i,
                    Node {
                        block: Block::Oscillator(
                            OscillatorBlock {
                                freq_source: b.freq_source,
                                phase: old_a[oi].block.spec_sync_value(),
                                wave: b.wave,
                            },
                        ),
                        steps: a[i].steps,
                    },
                )
            } else {
                a
            },
            Block::Sequencer(b) => a.update(
                i,
                Node {
                    block: Block::Sequencer(
                        SequencerBlock {
                            sequence: b.sequence,
                            bpm: b.bpm,
                            spacing: b.spacing,
                            progress: old_a[oi].block.spec_sync_value(),
                        },
                    ),
                    steps: a[i].steps,
                },
            ),
            _ => a,
        }
    } else {
        a
    }
}

/// Pairwise sync of the first `k` zipped children: child `nc[j]` takes
/// state from `oc[j]` when their variant tags agree; mismatched pairs
/// are left untouched.
pub open spec fn spec_sync_children(
    a: Seq<Node>,
    i: int,
    nc: Seq<int>,
    oc: Seq<int>,
    old_a: Seq<Node>,
    k: int,
) -> Seq<Node>
    decreases i, k,
{
    if k <= 0 {
        a
    } else {
        let a2 = spec_sync_children(a, i, nc, oc, old_a, k - 1);
        let c = nc[k - 1];
        let o = oc[k - 1];
        if 0 <= c < i && c < a2.len() && 0 <= o < old_a.len() && a2[c].block.spec_block_type()
            == old_a[o].block.spec_block_type() {
            spec_sync(a2, c, old_a, o)
        } else {
            a2
        }
    }
}

/// The hot-reload state transfer for block `i` against its old
/// counterpart `oi`: carry over the block's own sync value, then zip its
/// child list with the old block's child list in declaration order and
/// recurse pairwise wherever the variant tags agree.
pub open spec fn spec_sync(a: Seq<Node>, i: int, old_a: Seq<Node>, oi: int) -> Seq<Node>
    decreases i, spec_children(a[i].block).len() + 1,
{
    if 0 <= i < a.len() {
        let a1 = spec_sync_own(a, i, old_a, oi);
        let nc = spec_children(a[i].block);
        let oc = if 0 <= oi < old_a.len() {
            spec_children(old_a[oi].block)
        } else {
            Seq::empty()
        };
        let m: int = if nc.len() <= oc.len() {
            nc.len() as int
        } else {
            oc.len() as int
        };
        spec_sync_children(a1, i, nc, oc, old_a, m)
    } else {
        a
    }
}

/// Carrying over own state preserves length, shape and (when the old
/// arena is well-formed) well-formedness.
pub proof fn lemma_sync_own_shape(a: Seq<Node>, i: int, old_a: Seq<Node>, oi: int)
    requires
        arena_wf(a),
        arena_wf(old_a),
    ensures
        spec_sync_own(a, i, old_a, oi).len() == a.len(),
        same_shape(a, spec_sync_own(a, i, old_a, oi)),
        arena_wf(spec_sync_own(a, i, old_a, oi)),
{
    lemma_same_shape_refl(a);
    if 0 <= i < a.len() && 0 <= oi < old_a.len() {
        let b = spec_sync_own(a, i, old_a, oi);
        assert forall|j: int| 0 <= j < a.len() implies #[trigger] same_shape_node(a[j], b[j]) by {
            assert(same_shape_node(a[j], a[j]));
        }
        assert forall|j: int| 0 <= j < b.len() implies #[trigger] node_wf(b, j) by {
            assert(node_wf(a, j));
            lemma_same_shape_node_sources(a[j], b[j]);
            if j == i {
                assert(node_wf(old_a, oi));
            }
        }
    }
}

/// The pairwise child sync preserves length, shape and well-formedness.
pub proof fn lemma_sync_children_shape(
    a: Seq<Node>,
    i: int,
    nc: Seq<int>,
    oc: Seq<int>,
    old_a: Seq<Node>,
    k: int,
)
    requires
        arena_wf(a),
        arena_wf(old_a),
    ensures
        spec_sync_children(a, i, nc, oc, old_a, k).len() == a.len(),
        same_shape(a, spec_sync_children(a, i, nc, oc, old_a, k)),
        arena_wf(spec_sync_children(a, i, nc, oc, old_a, k)),
    decreases i, k, 1int,
{
    if k <= 0 {
        lemma_same_shape_refl(a);
    } else {
        lemma_sync_children_shape(a, i, nc, oc, old_a, k - 1);
        let a2 = spec_sync_children(a, i, nc, oc, old_a, k - 1);
        let c = nc[k - 1];
        let o = oc[k - 1];
        if 0 <= c < i && c < a2.len() && 0 <= o < old_a.len() && a2[c].block.spec_block_type()
            == old_a[o].block.spec_block_type() {
            lemma_sync_shape(a2, c, old_a, o);
            lemma_same_shape_trans(a, a2, spec_sync_children(a, i, nc, oc, old_a, k));
        }
    }
}

/// The state transfer preserves length, shape and well-formedness.
pub proof fn lemma_sync_shape(a: Seq<Node>, i: int, old_a: Seq<Node>, oi: int)
    requires
        arena_wf(a),
        arena_wf(old_a),
    ensures
        spec_sync(a, i, old_a, oi).len() == a.len(),
        same_shape(a, spec_sync(a, i, old_a, oi)),
        arena_wf(spec_sync(a, i, old_a, oi)),
    decreases i, spec_children(a[i].block).len() + 1, 0int,
{
    if 0 <= i < a.len() {
        lemma_sync_own_shape(a, i, old_a, oi);
        let a1 = spec_sync_own(a, i, old_a, oi);
        let nc = spec_children(a[i].block);
        let oc = if 0 <= oi < old_a.len() {
            spec_children(old_a[oi].block)
        } else {
            Seq::empty()
        };
        let m: int = if nc.len() <= oc.len() {
            nc.len() as int
        } else {
            oc.len() as int
        };
        lemma_sync_children_shape(a1, i, nc, oc, old_a, m);
        lemma_same_shape_trans(a, a1, spec_sync(a, i, old_a, oi));
    } else {
        lemma_same_shape_refl(a);
    }
}

/// Applies the hot-reload state transfer to block `i` of `a`, reading
/// matched state from block `oi` of the old arena.
pub fn sync_from(a: &mut Vec<Node>, i: usize, old_a: &Vec<Node>, oi: usize)
    requires
        arena_wf(old(a)@),
        arena_wf(old_a@),
        i < old(a)@.len(),
    ensures
        final(a)@ == spec_sync(old(a)@, i as int, old_a@, oi as int),
        arena_wf(final(a)@),
        same_shape(old(a)@, final(a)@),
    decreases i, 1int,
{
    proof {
        lemma_sync_shape(a@, i as int, old_a@, oi as int);
        lemma_sync_own_shape(a@, i as int, old_a@, oi as int);
    }
    let ghost a0 = a@;
    // own state
    if oi < old_a.len() {
        let sv_opt: Option<i64> = match &a[i].block {
            Block::Oscillator(_) => {
                match &old_a[oi].block {
                    Block::Oscillator(_) => Some(old_a[oi].block.sync_value()),
                    _ => None,
                }
            },
            Block::Sequencer(_) => Some(old_a[oi].block.sync_value()),
            _ => None,
        };
        if let Some(sv) = sv_opt {
            let steps = a[i].steps;
            let mut nd = Node { block: Block::Constant(ConstantBlock { val: 0 }), steps: 0 };
            a.set_and_swap(i, &mut nd);
            let new_block = match nd.block {
                Block::Oscillator(b) => Block::Oscillator(
                    OscillatorBlock { freq_source: b.freq_source, phase: sv, wave: b.wave },
                ),
                Block::Sequencer(b) => Block::Sequencer(
                    SequencerBlock {
                        sequence: b.sequence,
                        bpm: b.bpm,
                        spacing: b.spacing,
                        progress: sv,
                    },
                ),
                other => other,
            };
            a.set(i, Node { block: new_block, steps });
            proof {
                assert(a@ =~= spec_sync_own(a0, i as int, old_a@, oi as int));
            }
        }
    }
    proof {
        assert(a@ == spec_sync_own(a0, i as int, old_a@, oi as int));
    }
    let ghost a1 = a@;
    // children, zipped positionally against the old block's children
    let nc = children_of(a, i);
    let oc = if oi < old_a.len() {
        children_of(old_a, oi)
    } else {
        SignalBlockChildren::new()
    };
    let ghost nc_spec = spec_children(a0[i as int].block);
    let ghost oc_spec = if 0 <= (oi as int) < old_a@.len() {
        spec_children(old_a@[oi as int].block)
    } else {
        Seq::<int>::empty()
    };
    proof {
        assert(same_shape_node(a0[i as int], a@[i as int]));
        lemma_same_shape_node_sources(a0[i as int], a@[i as int]);
    }
    let m: usize = if nc.len() <= oc.len() {
        nc.len()
    } else {
        oc.len()
    };
    let mut k: usize = 0;
    while k < m
        invariant
            arena_wf(a0),
            arena_wf(a1),
            arena_wf(a@),
            arena_wf(old_a@),
            i < a@.len(),
            a@.len() == a1.len() == a0.len(),
            k <= m,
            same_shape(a1, a@),
            nc.0@.len() == nc_spec.len(),
            forall|j: int| 0 <= j < nc.0@.len() ==> nc.0@[j] == nc_spec[j],
            oc.0@.len() == oc_spec.len(),
            forall|j: int| 0 <= j < oc.0@.len() ==> oc.0@[j] == oc_spec[j],
            m == if nc_spec.len() <= oc_spec.len() {
                nc_spec.len() as int
            } else {
                oc_spec.len() as int
            },
            a@ == spec_sync_children(a1, i as int, nc_spec, oc_spec, old_a@, k as int),
        decreases m - k,
    {
        let c = nc.get(k);
        let o = oc.get(k);
        if c < i && o < old_a.len() {
            let tc = a[c].block.block_type();
            let to = old_a[o].block.block_type();
            if tc == to {
                sync_from(a, c, old_a, o);
            }
        }
        proof {
            assert(a@ == spec_sync_children(a1, i as int, nc_spec, oc_spec, old_a@, k + 1));
            lemma_sync_children_shape(a1, i as int, nc_spec, oc_spec, old_a@, k + 1);
        }
        k = k + 1;
    }
    proof {
        assert(final(a)@ == spec_sync(a0, i as int, old_a@, oi as int));
    }
}

/// The oscillator phase-wrap law: stepping keeps every oscillator's
/// phase in `[0, 1)` — in particular the freshly advanced one, whatever
/// frequency its source delivered.
pub proof fn lemma_oscillator_phase_wrap(a: Seq<Node>, i: int)
    requires
        arena_wf(a),
    ensures
        forall|d: int|
            0 <= d < spec_step_node(a, i).len() && (#[trigger] spec_step_node(a, i)[d].block
                matches Block::Oscillator(o)) ==> 0 <= spec_step_node(a, i)[d].block->Oscillator_0.phase
                < SCALE,
{
    lemma_step_shape(a, i);
    assert forall|d: int|
        0 <= d < spec_step_node(a, i).len() && (#[trigger] spec_step_node(a, i)[d].block matches
        Block::Oscillator(o)) implies 0 <= spec_step_node(a, i)[d].block->Oscillator_0.phase
        < SCALE by {
        assert(node_wf(spec_step_node(a, i), d));
    }
}

/// The amplifier identity law: an amplifier with a single pair whose
/// gain is a constant one outputs exactly its signal source's value, on
/// every channel.
pub proof fn lemma_amplifier_identity(a: Seq<Node>, i: int, ch: Channel)
    requires
        0 <= i < a.len(),
        a[i].block matches Block::Amplifier(b) && b.sources@.len() == 1 && 0 <= (
        b.sources@[0].0).target() < i && 0 <= (b.sources@[0].1).target() < i && (a[(
        b.sources@[0].1).target()].block matches Block::Constant(c) && c.val == SCALE),
    ensures
        spec_get(a, i, ch) == spec_get(
            a,
            (a[i].block->Amplifier_0.sources@[0].0).target(),
            ch,
        ),
{
    let b = a[i].block->Amplifier_0;
    let s = b.sources@[0].0;
    let g = b.sources@[0].1;
    assert(spec_get(a, g.target(), ch) == SCALE);
    assert(spec_source_value(a, i, g, ch) == SCALE);
    let x = spec_source_value(a, i, s, ch);
    crate::fixed::lemma_mul_fp_one(x);
    assert(spec_amp_fold(a, i, b.sources@, 0, ch) == 0);
    assert(spec_amp_fold(a, i, b.sources@, 1, ch) == crate::fixed::spec_sat_add(
        0,
        crate::fixed::spec_mul_fp(x, SCALE),
    ));
    assert(spec_get(a, i, ch) == spec_amp_fold(a, i, b.sources@, 1, ch));
}

/// Maps a pan-shift value from `[-1, 1]` to `[0, 1]`: `(v + 1) / 2`.
fn shift01(v: i64) -> (r: i64)
    ensures
        r == (v + SCALE) / 2,
        i64::MIN / 2 <= r <= i64::MAX / 2 + SCALE,
{
    let w: i128 = (v as i128) + (SCALE as i128);
    proof {
        vstd::arithmetic::div_mod::lemma_div_is_ordered(i64::MIN as int, v + SCALE, 2);
        vstd::arithmetic::div_mod::lemma_div_is_ordered(
            v + SCALE,
            i64::MAX as int + SCALE as int,
            2,
        );
        vstd::arithmetic::div_mod::lemma_div_is_ordered(
            i64::MAX as int,
            i64::MAX as int + SCALE as int,
            2,
        );
    }
    w.checked_div_euclid(2).unwrap() as i64
}

/// `1 - s` in Q32.32 over the widened shift range.
fn one_minus(s01: i64) -> (r: i64)
    requires
        i64::MIN / 2 <= s01 <= i64::MAX / 2 + SCALE,
    ensures
        r == SCALE - s01,
{
    ((SCALE as i128) - (s01 as i128)) as i64
}

} // verus!
