//! The graph compiler: turns a sequence of typed block definitions into
//! a driver (registry + output selection).
//!
//! The textual grammar front-end is a thin collaborator that parses
//! source text into [`Instruction`] values; everything from there on —
//! resolving names against the registry built so far, filling defaults,
//! rejecting unknown properties, selecting the output — happens here.
//! Name references resolve only against blocks defined earlier, so the
//! compiled graph is a DAG in definition order.
use vstd::prelude::*;

verus! {

use crate::blocks::{anon_edge, arena_wf, spec_sources, Block, Node, SignalSource};
use crate::blocks::amplifier::AmplifierBlock;
use crate::blocks::sequencer::SequencerBlock;
use crate::blocks::constant::ConstantBlock;
use crate::blocks::oscillator::{OscillatorBlock, Waveform};
use crate::blocks::stereo::StereoBlock;
use crate::blocks::BlockType;

use crate::driver::HarmoniconDriver;
use crate::error::{ErrModel, HarmoniconError};
use crate::note::{is_digit_byte, spec_all_digits, spec_digits_val, Note};
use vstd::string::StringSliceAdditionalSpecFns;

/// The value of one initializer property.
#[derive(Debug)]
pub enum PropValue {
    /// A literal number (Q32.32).
    Number(i64),
    /// A reference to a named block.
    Reference(String),
    /// An inline anonymous sub-block.
    Anonymous(BlockType, InitValue),
    /// A waveform keyword.
    Wave(Waveform),
    /// A sequence of note spellings.
    Notes(Vec<String>),
}

/// One `key: value` entry of a block initializer.
#[derive(Debug)]
pub struct Prop {
    /// The property key.
    pub key: String,
    /// The property value.
    pub value: PropValue,
}

/// The initializer of a definition: a bare number (constant blocks) or
/// a `{ key: value, ... }` body.
#[derive(Debug)]
pub enum InitValue {
    /// A constant initializer.
    Number(i64),
    /// A block initializer body.
    Props(Vec<Prop>),
}

/// The right-hand side of a definition: an initializer, or the name of
/// an existing block to alias.
#[derive(Debug)]
pub enum AssignRhs {
    Init(InitValue),
    Alias(String),
}

/// One compiled statement of the source text.
#[derive(Debug)]
pub enum Instruction {
    /// `type name = rhs`: defines (or aliases) a named block.
    Assign(BlockType, String, AssignRhs),
    /// `out name`: selects the output block.
    Output(String),
}

/// The mathematical model of one block: the same data over sequences.
pub enum BlockModel {
    Constant(i64),
    Oscillator(SignalSource, i64, Waveform),
    Amplifier(Seq<(SignalSource, SignalSource)>),
    Stereo(SignalSource, SignalSource, SignalSource),
    Sequencer(Seq<Note>, SignalSource, SignalSource, i64),
}

/// The model of a block value.
pub open spec fn model_of(b: Block) -> BlockModel {
    match b {
        Block::Constant(c) => BlockModel::Constant(c.val),
        Block::Oscillator(o) => BlockModel::Oscillator(o.freq_source, o.phase, o.wave),
        Block::Amplifier(m) => BlockModel::Amplifier(m.sources@),
        Block::Stereo(s) => BlockModel::Stereo(s.left, s.right, s.shift),
        Block::Sequencer(q) => BlockModel::Sequencer(q.sequence@, q.bpm, q.spacing, q.progress),
    }
}

/// The model of an arena: each block's model, in order.
pub open spec fn arena_model(a: Seq<Node>) -> Seq<BlockModel> {
    Seq::new(a.len(), |i: int| model_of(a[i].block))
}

/// The model of a compiled driver: arena models, registry (names by
/// view), output.
pub struct DriverModel {
    pub arena: Seq<BlockModel>,
    pub names: Seq<(Seq<char>, usize)>,
    pub output: int,
}

/// Relates an executable result to its model: equal payloads on
/// success, the error's view on failure.
pub open spec fn rel_result<T>(r: Result<T, HarmoniconError>, s: Result<T, ErrModel>) -> bool {
    match r {
        Ok(x) => s matches Ok(y) && x == y,
        Err(e) => s matches Err(m) && e@ == m,
    }
}

/// The new arena only extends the old one: the old slots are unchanged
/// and every owning edge into the old region already existed.
pub open spec fn arena_extended(a: Seq<Node>, b: Seq<Node>) -> bool {
    &&& b.len() >= a.len()
    &&& forall|j: int| 0 <= j < a.len() ==> b[j] == a[j]
    &&& forall|p: int, k: int, c: int|
        #[trigger] anon_edge(b, p, k, c) && c < a.len() ==> anon_edge(a, p, k, c)
}

/// Extension is transitive.
pub proof fn lemma_extended_trans(a: Seq<Node>, b: Seq<Node>, c: Seq<Node>)
    requires
        arena_extended(a, b),
        arena_extended(b, c),
    ensures
        arena_extended(a, c),
{
    assert forall|p: int, k: int, cc: int|
        #[trigger] anon_edge(c, p, k, cc) && cc < a.len() implies anon_edge(a, p, k, cc) by {
        assert(anon_edge(b, p, k, cc));
    }
}

/// A freshly built source reference is sound for a block that will be
/// created above `base`: a named reference points into the arena; an
/// owned reference points at a fresh block above `base` that nobody
/// else owns and that carries no registry name.
pub open spec fn source_ok(
    base: int,
    a: Seq<Node>,
    ns: Seq<(Seq<char>, usize)>,
    s: SignalSource,
) -> bool {
    match s {
        SignalSource::Named(t) => t < a.len(),
        SignalSource::Anonymous(t) => {
            &&& base <= t < a.len()
            &&& forall|p: int, k: int| !#[trigger] anon_edge(a, p, k, t as int)
            &&& forall|e: int| 0 <= e < ns.len() ==> (#[trigger] ns[e]).1 != t
        },
    }
}

/// The registry as the compiler's model sees it: names by view.
pub open spec fn names_model(ns: Seq<(String, usize)>) -> Seq<(Seq<char>, usize)> {
    Seq::new(ns.len(), |i: int| (ns[i].0@, ns[i].1))
}

/// The index of the first model entry carrying `name`, or the length.
pub open spec fn spec_name_index_v(ns: Seq<(Seq<char>, usize)>, name: Seq<char>) -> int
    decreases ns.len(),
{
    if ns.len() == 0 {
        0
    } else if ns[0].0 == name {
        0
    } else {
        1 + spec_name_index_v(ns.subrange(1, ns.len() as int), name)
    }
}

/// The block registered under `name` in the model, if any.
pub open spec fn spec_lookup_v(ns: Seq<(Seq<char>, usize)>, name: Seq<char>) -> Option<usize> {
    let ix = spec_name_index_v(ns, name);
    if ix < ns.len() {
        Some(ns[ix].1)
    } else {
        None
    }
}

/// Binding a name in the model: replace its entry or append one.
pub open spec fn spec_names_insert_v(ns: Seq<(Seq<char>, usize)>, pair: (Seq<char>, usize)) -> Seq<
    (Seq<char>, usize),
> {
    let ix = spec_name_index_v(ns, pair.0);
    if ix < ns.len() {
        ns.update(ix, pair)
    } else {
        ns.push(pair)
    }
}

/// The registry and its model agree on name indices.
pub proof fn lemma_name_index_model(ns: Seq<(String, usize)>, name: Seq<char>)
    ensures
        crate::driver::spec_name_index(ns, name) == spec_name_index_v(names_model(ns), name),
    decreases ns.len(),
{
    if ns.len() > 0 {
        if ns[0].0@ != name {
            lemma_name_index_model(ns.subrange(1, ns.len() as int), name);
            assert(names_model(ns.subrange(1, ns.len() as int)) =~= names_model(ns).subrange(
                1,
                names_model(ns).len() as int,
            ));
        }
    }
}

/// The registry and its model agree on lookups.
pub proof fn lemma_lookup_model(ns: Seq<(String, usize)>, name: Seq<char>)
    ensures
        crate::driver::spec_lookup(ns, name) == spec_lookup_v(names_model(ns), name),
{
    lemma_name_index_model(ns, name);
    crate::driver::lemma_name_index_range(ns, name);
}

/// Insertion in the registry and in its model agree.
pub proof fn lemma_insert_model(ns: Seq<(String, usize)>, pair: (String, usize))
    ensures
        names_model(crate::driver::spec_names_insert(ns, pair)) == spec_names_insert_v(
            names_model(ns),
            (pair.0@, pair.1),
        ),
{
    lemma_name_index_model(ns, pair.0@);
    crate::driver::lemma_name_index_range(ns, pair.0@);
    let ix = crate::driver::spec_name_index(ns, pair.0@);
    if ix < ns.len() {
        assert(names_model(ns.update(ix, pair)) =~= names_model(ns).update(
            ix,
            (pair.0@, pair.1),
        ));
    } else {
        assert(names_model(ns.push(pair)) =~= names_model(ns).push((pair.0@, pair.1)));
    }
}

/// Whether `pb` is a prefix of `kb`.
pub open spec fn spec_has_prefix(kb: Seq<u8>, pb: Seq<u8>) -> bool {
    pb.len() <= kb.len() && kb.subrange(0, pb.len() as int) == pb
}

/// The numeric suffix of an amplifier key: one to four decimal digits,
/// or nothing.
pub open spec fn spec_digits_opt(d: Seq<u8>) -> Option<int> {
    if 1 <= d.len() <= 4 && spec_all_digits(d) {
        Some(spec_digits_val(d))
    } else {
        None
    }
}

/// The model of resolving a property value into a source reference:
/// a name resolves against the registry (or fails with `UnknownBlock`),
/// an anonymous initializer builds a fresh owned block, anything else is
/// a type error.
pub open spec fn spec_param_rhs(
    v: PropValue,
    am: Seq<BlockModel>,
    ns: Seq<(Seq<char>, usize)>,
) -> (Result<SignalSource, ErrModel>, Seq<BlockModel>)
    decreases v, 4int,
{
    match v {
        PropValue::Reference(name) => match spec_lookup_v(ns, name@) {
            Some(id) => (Ok(SignalSource::Named(id)), am),
            None => (Err(ErrModel::UnknownBlock(name@)), am),
        },
        PropValue::Anonymous(bt, init) => {
            let (r, am1) = spec_anon_init(bt, init, am, ns);
            match r {
                Ok(id) => (Ok(SignalSource::Anonymous(id as usize)), am1),
                Err(e) => (Err(e), am1),
            }
        },
        _ => (Err(ErrModel::Type("name or initializer"@, "other"@)), am),
    }
}

/// The model of building an anonymous block of the given variant from an
/// initializer and appending it to the arena; returns its index.
pub open spec fn spec_anon_init(
    bt: BlockType,
    init: InitValue,
    am: Seq<BlockModel>,
    ns: Seq<(Seq<char>, usize)>,
) -> (Result<int, ErrModel>, Seq<BlockModel>)
    decreases init, 3int,
{
    let (r, am1) = spec_block_init(bt, init, am, ns);
    match r {
        Ok(m) => (Ok(am1.len() as int), am1.push(m)),
        Err(e) => (Err(e), am1),
    }
}

/// The model of building a block of the given variant from an
/// initializer (without placing it anywhere yet).
pub open spec fn spec_block_init(
    bt: BlockType,
    init: InitValue,
    am: Seq<BlockModel>,
    ns: Seq<(Seq<char>, usize)>,
) -> (Result<BlockModel, ErrModel>, Seq<BlockModel>)
    decreases init, 2int,
{
    match bt {
        BlockType::Constant => {
            match spec_const_init(init) {
                Ok(v) => (Ok(BlockModel::Constant(v)), am),
                Err(e) => (Err(e), am),
            }
        },
        BlockType::Oscillator => {
            let (r, am1) = spec_osc_init(init, am, ns);
            match r {
                Ok(b) => (Ok(BlockModel::Oscillator(b.freq_source, b.phase, b.wave)), am1),
                Err(e) => (Err(e), am1),
            }
        },
        BlockType::Amplifier => {
            let (r, am1) = spec_amp_init(init, am, ns);
            match r {
                Ok(ps) => (Ok(BlockModel::Amplifier(ps)), am1),
                Err(e) => (Err(e), am1),
            }
        },
        BlockType::Stereo => {
            let (r, am1) = spec_stereo_init(init, am, ns);
            match r {
                Ok(b) => (Ok(BlockModel::Stereo(b.left, b.right, b.shift)), am1),
                Err(e) => (Err(e), am1),
            }
        },
        BlockType::Sequencer => {
            let (r, am1) = spec_seq_init(init, am, ns);
            match r {
                Ok(m) => (Ok(BlockModel::Sequencer(m.0, m.1, m.2, 0)), am1),
                Err(e) => (Err(e), am1),
            }
        },
    }
}

/// The model of a constant initializer: a bare number.
pub open spec fn spec_const_init(init: InitValue) -> Result<i64, ErrModel> {
    match init {
        InitValue::Number(v) => Ok(v),
        _ => Err(ErrModel::Type("constant initializer"@, "other initializer"@)),
    }
}

/// The oscillator an initializer starts from: a 440 Hz owned constant
/// frequency (the fresh block at the current arena top), phase zero,
/// sine wave.
pub open spec fn spec_osc_default(am: Seq<BlockModel>) -> (OscillatorBlock, Seq<BlockModel>) {
    (
        OscillatorBlock {
            freq_source: SignalSource::Anonymous(am.len() as usize),
            phase: 0,
            wave: Waveform::Sinus,
        },
        am.push(BlockModel::Constant(crate::note::A4_FREQ)),
    )
}

/// The model of one oscillator property: `wave`/`waveform` takes a
/// waveform keyword; `frequency`/`freq` takes a source; any other key is
/// an unknown property of the oscillator variant.
pub open spec fn spec_osc_prop(
    b: OscillatorBlock,
    p: Prop,
    am: Seq<BlockModel>,
    ns: Seq<(Seq<char>, usize)>,
) -> (Result<OscillatorBlock, ErrModel>, Seq<BlockModel>)
    decreases p, 5int,
{
    if p.key@ == "wave"@ || p.key@ == "waveform"@ {
        match p.value {
            PropValue::Wave(w) => (Ok(OscillatorBlock { wave: w, ..b }), am),
            _ => (Err(ErrModel::Type("waveform"@, "other"@)), am),
        }
    } else {
        let (r, am1) = spec_param_rhs(p.value, am, ns);
        match r {
            Err(e) => (Err(e), am1),
            Ok(src) => {
                if p.key@ == "frequency"@ || p.key@ == "freq"@ {
                    (Ok(OscillatorBlock { freq_source: src, ..b }), am1)
                } else {
                    (Err(ErrModel::UnknownProperty(p.key@, "oscillator"@)), am1)
                }
            },
        }
    }
}

/// The model of the first `k` oscillator properties, applied in order;
/// the first failing property aborts the build.
pub open spec fn spec_osc_props(
    b: OscillatorBlock,
    props: Seq<Prop>,
    k: int,
    am: Seq<BlockModel>,
    ns: Seq<(Seq<char>, usize)>,
) -> (Result<OscillatorBlock, ErrModel>, Seq<BlockModel>)
    decreases props, k,
{
    if k <= 0 || props.len() == 0 {
        (Ok(b), am)
    } else if k > props.len() {
        spec_osc_props(b, props, props.len() as int, am, ns)
    } else {
        let (r, am1) = spec_osc_props(b, props, k - 1, am, ns);
        match r {
            Err(e) => (Err(e), am1),
            Ok(b1) => spec_osc_prop(b1, props[k - 1], am1, ns),
        }
    }
}

/// The model of an oscillator initializer.
pub open spec fn spec_osc_init(init: InitValue, am: Seq<BlockModel>, ns: Seq<(Seq<char>, usize)>) -> (
    Result<OscillatorBlock, ErrModel>,
    Seq<BlockModel>,
)
    decreases init, 1int,
{
    match init {
        InitValue::Props(props) => {
            let d = spec_osc_default(am);
            spec_osc_props(d.0, props@, props@.len() as int, d.1, ns)
        },
        _ => (Err(ErrModel::Type("oscillator initializer"@, "other initializer"@)), am),
    }
}

/// The padded amplifier pair list and arena model: missing pairs up to
/// `n` are filled with fresh (silent, unity) anonymous constants.
pub open spec fn spec_pad_model(
    ps: Seq<(SignalSource, SignalSource)>,
    am: Seq<BlockModel>,
    n: int,
) -> (Seq<(SignalSource, SignalSource)>, Seq<BlockModel>)
    decreases n + 1 - ps.len(),
{
    if ps.len() > n || n < 0 {
        (ps, am)
    } else {
        let sig = am.len() as usize;
        let gain = (am.len() + 1) as usize;
        spec_pad_model(
            ps.push((SignalSource::Anonymous(sig), SignalSource::Anonymous(gain))),
            am.push(BlockModel::Constant(0)).push(BlockModel::Constant(crate::SCALE)),
            n,
        )
    }
}

/// The model of setting amplifier pair `n` after padding.
pub open spec fn spec_update_model(
    ps: Seq<(SignalSource, SignalSource)>,
    am: Seq<BlockModel>,
    n: int,
    first: bool,
    src: SignalSource,
) -> (Seq<(SignalSource, SignalSource)>, Seq<BlockModel>) {
    let padded = spec_pad_model(ps, am, n);
    let pair = if first {
        (src, padded.0[n].1)
    } else {
        (padded.0[n].0, src)
    };
    (padded.0.update(n, pair), padded.1)
}

/// The bytes of the key prefix `source`.
pub open spec fn source_bytes() -> Seq<u8> {
    seq![115u8, 111u8, 117u8, 114u8, 99u8, 101u8]
}

/// The bytes of the key prefix `src`.
pub open spec fn src_bytes() -> Seq<u8> {
    seq![115u8, 114u8, 99u8]
}

/// The bytes of the key prefix `amplify`.
pub open spec fn amplify_bytes() -> Seq<u8> {
    seq![97u8, 109u8, 112u8, 108u8, 105u8, 102u8, 121u8]
}

/// The bytes of the key prefix `amp`.
pub open spec fn amp_bytes() -> Seq<u8> {
    seq![97u8, 109u8, 112u8]
}

/// The model of one amplifier property. The source is built first; the
/// key then selects a pair: `source{N}`/`src{N}` set the signal of pair
/// `N`, `amp{N}` sets its gain (the `amplify` spelling mis-skips its
/// prefix and is therefore never accepted); `N` has one to four digits.
/// Any other key is an unknown property of the amplifier variant.
pub open spec fn spec_amp_prop(
    ps: Seq<(SignalSource, SignalSource)>,
    p: Prop,
    am: Seq<BlockModel>,
    ns: Seq<(Seq<char>, usize)>,
) -> (Result<Seq<(SignalSource, SignalSource)>, ErrModel>, Seq<BlockModel>)
    decreases p, 5int,
{
    let (r, am1) = spec_param_rhs(p.value, am, ns);
    match r {
        Err(e) => (Err(e), am1),
        Ok(src) => {
            let kb = vstd::utf8::encode_utf8(p.key@);
            if spec_has_prefix(kb, source_bytes()) || spec_has_prefix(kb, src_bytes()) {
                let nn = if spec_has_prefix(kb, source_bytes()) {
                    spec_digits_opt(kb.skip(6))
                } else {
                    spec_digits_opt(kb.skip(3))
                };
                match nn {
                    Some(n) => {
                        if am1.len() + 2 * (n + 1) <= usize::MAX {
                            let u = spec_update_model(ps, am1, n, true, src);
                            (Ok(u.0), u.1)
                        } else {
                            (Err(ErrModel::UnknownProperty(p.key@, "amplifier"@)), am1)
                        }
                    },
                    None => (Err(ErrModel::UnknownProperty(p.key@, "amplifier"@)), am1),
                }
            } else if spec_has_prefix(kb, amplify_bytes()) || spec_has_prefix(kb, amp_bytes()) {
                let nn = if spec_has_prefix(kb, amplify_bytes()) {
                    spec_digits_opt(kb.skip(6))
                } else {
                    spec_digits_opt(kb.skip(3))
                };
                match nn {
                    Some(n) => {
                        if am1.len() + 2 * (n + 1) <= usize::MAX {
                            let u = spec_update_model(ps, am1, n, false, src);
                            (Ok(u.0), u.1)
                        } else {
                            (Err(ErrModel::UnknownProperty(p.key@, "amplifier"@)), am1)
                        }
                    },
                    None => (Err(ErrModel::UnknownProperty(p.key@, "amplifier"@)), am1),
                }
            } else {
                (Err(ErrModel::UnknownProperty(p.key@, "amplifier"@)), am1)
            }
        },
    }
}

/// The model of the first `k` amplifier properties, applied in order.
pub open spec fn spec_amp_props(
    ps: Seq<(SignalSource, SignalSource)>,
    props: Seq<Prop>,
    k: int,
    am: Seq<BlockModel>,
    ns: Seq<(Seq<char>, usize)>,
) -> (Result<Seq<(SignalSource, SignalSource)>, ErrModel>, Seq<BlockModel>)
    decreases props, k,
{
    if k <= 0 || props.len() == 0 {
        (Ok(ps), am)
    } else if k > props.len() {
        spec_amp_props(ps, props, props.len() as int, am, ns)
    } else {
        let (r, am1) = spec_amp_props(ps, props, k - 1, am, ns);
        match r {
            Err(e) => (Err(e), am1),
            Ok(ps1) => spec_amp_prop(ps1, props[k - 1], am1, ns),
        }
    }
}

/// The model of an amplifier initializer.
pub open spec fn spec_amp_init(init: InitValue, am: Seq<BlockModel>, ns: Seq<(Seq<char>, usize)>) -> (
    Result<Seq<(SignalSource, SignalSource)>, ErrModel>,
    Seq<BlockModel>,
)
    decreases init, 1int,
{
    match init {
        InitValue::Props(props) => spec_amp_props(
            Seq::empty(),
            props@,
            props@.len() as int,
            am,
            ns,
        ),
        _ => (Err(ErrModel::Type("amplifier initializer"@, "other initializer"@)), am),
    }
}

/// The stereo block an initializer starts from: three silent owned
/// constants (left, right, shift) freshly created at the arena top.
pub open spec fn spec_stereo_default(am: Seq<BlockModel>) -> (StereoBlock, Seq<BlockModel>) {
    (
        StereoBlock {
            left: SignalSource::Anonymous(am.len() as usize),
            right: SignalSource::Anonymous((am.len() + 1) as usize),
            shift: SignalSource::Anonymous((am.len() + 2) as usize),
        },
        am.push(BlockModel::Constant(0)).push(BlockModel::Constant(0)).push(
            BlockModel::Constant(0),
        ),
    )
}

/// The model of one stereo property: `left`/`l`, `right`/`r` and
/// `shift`/`s` take sources; any other key is an unknown property of the
/// stereo variant.
pub open spec fn spec_stereo_prop(
    b: StereoBlock,
    p: Prop,
    am: Seq<BlockModel>,
    ns: Seq<(Seq<char>, usize)>,
) -> (Result<StereoBlock, ErrModel>, Seq<BlockModel>)
    decreases p, 5int,
{
    let (r, am1) = spec_param_rhs(p.value, am, ns);
    match r {
        Err(e) => (Err(e), am1),
        Ok(src) => {
            if p.key@ == "left"@ || p.key@ == "l"@ {
                (Ok(StereoBlock { left: src, ..b }), am1)
            } else if p.key@ == "right"@ || p.key@ == "r"@ {
                (Ok(StereoBlock { right: src, ..b }), am1)
            } else if p.key@ == "shift"@ || p.key@ == "s"@ {
                (Ok(StereoBlock { shift: src, ..b }), am1)
            } else {
                (Err(ErrModel::UnknownProperty(p.key@, "stereo"@)), am1)
            }
        },
    }
}

/// The model of the first `k` stereo properties, applied in order.
pub open spec fn spec_stereo_props(
    b: StereoBlock,
    props: Seq<Prop>,
    k: int,
    am: Seq<BlockModel>,
    ns: Seq<(Seq<char>, usize)>,
) -> (Result<StereoBlock, ErrModel>, Seq<BlockModel>)
    decreases props, k,
{
    if k <= 0 || props.len() == 0 {
        (Ok(b), am)
    } else if k > props.len() {
        spec_stereo_props(b, props, props.len() as int, am, ns)
    } else {
        let (r, am1) = spec_stereo_props(b, props, k - 1, am, ns);
        match r {
            Err(e) => (Err(e), am1),
            Ok(b1) => spec_stereo_prop(b1, props[k - 1], am1, ns),
        }
    }
}

/// The model of a stereo initializer.
pub open spec fn spec_stereo_init(
    init: InitValue,
    am: Seq<BlockModel>,
    ns: Seq<(Seq<char>, usize)>,
) -> (Result<StereoBlock, ErrModel>, Seq<BlockModel>)
    decreases init, 1int,
{
    match init {
        InitValue::Props(props) => {
            let d = spec_stereo_default(am);
            spec_stereo_props(d.0, props@, props@.len() as int, d.1, ns)
        },
        _ => (Err(ErrModel::Type("stereo initializer"@, "other initializer"@)), am),
    }
}

/// The sequencer data an initializer starts from: an empty sequence, a
/// 120-bpm owned constant tempo and a zero owned constant spacing,
/// freshly created at the arena top.
pub open spec fn spec_seq_default(am: Seq<BlockModel>) -> (
    (Seq<Note>, SignalSource, SignalSource),
    Seq<BlockModel>,
) {
    (
        (
            Seq::empty(),
            SignalSource::Anonymous(am.len() as usize),
            SignalSource::Anonymous((am.len() + 1) as usize),
        ),
        am.push(BlockModel::Constant((120 * crate::SCALE) as i64)).push(BlockModel::Constant(0)),
    )
}

/// The model of a note list: every spelling must parse.
pub open spec fn spec_note_list(ls: Seq<String>, k: int) -> Result<Seq<Note>, ErrModel>
    decreases k,
{
    if k <= 0 {
        Ok(Seq::empty())
    } else {
        match spec_note_list(ls, k - 1) {
            Err(e) => Err(e),
            Ok(notes) => {
                match crate::note::spec_parse_note_freq(
                    vstd::utf8::encode_utf8(ls[k - 1]@),
                ) {
                    Some(f) => Ok(notes.push(crate::note::spec_note_of(f))),
                    None => Err(ErrModel::Type("note"@, "other"@)),
                }
            },
        }
    }
}

/// The model of a sequence property value.
pub open spec fn spec_sequence(v: PropValue) -> Result<Seq<Note>, ErrModel> {
    match v {
        PropValue::Notes(ls) => spec_note_list(ls@, ls@.len() as int),
        _ => Err(ErrModel::Type("sequence"@, "other"@)),
    }
}

/// The model of one sequencer property: `seq`/`sequence` takes a note
/// list; `bpm` and `spacing` take sources; any other key is an unknown
/// property of the sequencer variant.
pub open spec fn spec_seq_prop(
    m: (Seq<Note>, SignalSource, SignalSource),
    p: Prop,
    am: Seq<BlockModel>,
    ns: Seq<(Seq<char>, usize)>,
) -> (Result<(Seq<Note>, SignalSource, SignalSource), ErrModel>, Seq<BlockModel>)
    decreases p, 5int,
{
    if p.key@ == "seq"@ || p.key@ == "sequence"@ {
        match spec_sequence(p.value) {
            Ok(notes) => (Ok((notes, m.1, m.2)), am),
            Err(e) => (Err(e), am),
        }
    } else {
        let (r, am1) = spec_param_rhs(p.value, am, ns);
        match r {
            Err(e) => (Err(e), am1),
            Ok(src) => {
                if p.key@ == "bpm"@ {
                    (Ok((m.0, src, m.2)), am1)
                } else if p.key@ == "spacing"@ {
                    (Ok((m.0, m.1, src)), am1)
                } else {
                    (Err(ErrModel::UnknownProperty(p.key@, "sequencer"@)), am1)
                }
            },
        }
    }
}

/// The model of the first `k` sequencer properties, applied in order.
pub open spec fn spec_seq_props(
    m: (Seq<Note>, SignalSource, SignalSource),
    props: Seq<Prop>,
    k: int,
    am: Seq<BlockModel>,
    ns: Seq<(Seq<char>, usize)>,
) -> (Result<(Seq<Note>, SignalSource, SignalSource), ErrModel>, Seq<BlockModel>)
    decreases props, k,
{
    if k <= 0 || props.len() == 0 {
        (Ok(m), am)
    } else if k > props.len() {
        spec_seq_props(m, props, props.len() as int, am, ns)
    } else {
        let (r, am1) = spec_seq_props(m, props, k - 1, am, ns);
        match r {
            Err(e) => (Err(e), am1),
            Ok(m1) => spec_seq_prop(m1, props[k - 1], am1, ns),
        }
    }
}

/// The model of a sequencer initializer.
pub open spec fn spec_seq_init(init: InitValue, am: Seq<BlockModel>, ns: Seq<(Seq<char>, usize)>) -> (
    Result<(Seq<Note>, SignalSource, SignalSource), ErrModel>,
    Seq<BlockModel>,
)
    decreases init, 1int,
{
    match init {
        InitValue::Props(props) => {
            let d = spec_seq_default(am);
            spec_seq_props(d.0, props@, props@.len() as int, d.1, ns)
        },
        _ => (Err(ErrModel::Type("stereo initializer"@, "other initializer"@)), am),
    }
}

/// Equality of a string's view against a literal's, decided by bytes.
fn key_is(k: &str, lit: &str) -> (r: bool)
    ensures
        r == (k@ == lit@),
{
    let e = crate::blocks::str_eq(k, lit);
    proof {
        if e {
            crate::driver::lemma_str_bytes_eq(k@, lit@);
        } else {
            crate::driver::lemma_str_bytes_neq(k@, lit@);
        }
    }
    e
}

/// Parses the decimal suffix of a key after `skip` bytes, accepting one
/// to four digits.
fn key_digits(k: &str, skip: usize) -> (r: Option<usize>)
    requires
        skip <= k.spec_bytes().len(),
    ensures
        match spec_digits_opt(k.spec_bytes().skip(skip as int)) {
            Some(n) => r matches Some(m) && m == n && m < 10000,
            None => r is None,
        },
{
    let kb = k.as_bytes();
    let n = kb.len();
    let m = n - skip;
    let ghost d_seq = k.spec_bytes().skip(skip as int);
    if m < 1 || m > 4 {
        return None;
    }
    let mut val: usize = 0;
    let mut i: usize = skip;
    while i < n
        invariant
            skip <= i <= n,
            n == kb@.len(),
            kb@ == k.spec_bytes(),
            d_seq == k.spec_bytes().skip(skip as int),
            1 <= n - skip <= 4,
            val == spec_digits_val(kb@.subrange(skip as int, i as int)),
            0 <= val < 10000,
            forall|j: int| skip <= j < i ==> is_digit_byte(#[trigger] kb@[j]),
        decreases n - i,
    {
        let b = *vstd::slice::slice_index_get(kb, i);
        if !(48 <= b && b <= 57) {
            proof {
                assert(d_seq[i - skip] == kb@[i as int]);
                assert(!spec_all_digits(d_seq));
            }
            return None;
        }
        proof {
            assert(kb@.subrange(skip as int, i + 1).take(i - skip) =~= kb@.subrange(
                skip as int,
                i as int,
            ));
            assert(kb@.subrange(skip as int, i + 1)[i - skip] == kb@[i as int]);
            crate::note::lemma_digits_val_bound(kb@.subrange(skip as int, i as int));
            crate::note::lemma_pow10_small();
        }
        val = val * 10 + ((b - 48) as usize);
        i = i + 1;
    }
    proof {
        assert(kb@.subrange(skip as int, n as int) =~= d_seq);
        assert(spec_all_digits(d_seq));
    }
    Some(val)
}

/// Pushing a constant block adds no owning edges.
pub proof fn lemma_push_const_edges(a: Seq<Node>, c: ConstantBlock)
    ensures
        forall|p: int, k: int, cc: int|
            #[trigger] anon_edge(a.push(Node { block: Block::Constant(c), steps: 0u64 }), p, k, cc)
                <==> anon_edge(a, p, k, cc),
{
    let b = a.push(Node { block: Block::Constant(c), steps: 0u64 });
    assert forall|p: int, k: int, cc: int| #[trigger] anon_edge(b, p, k, cc) implies anon_edge(
        a,
        p,
        k,
        cc,
    ) by {
        if p < a.len() {
            assert(b[p] == a[p]);
        } else {
            assert(spec_sources(b[p].block).len() == 0);
        }
    }
    assert forall|p: int, k: int, cc: int| #[trigger] anon_edge(a, p, k, cc) implies anon_edge(
        b,
        p,
        k,
        cc,
    ) by {
        assert(b[p] == a[p]);
    }
}

/// Replacing one source slot of a registrable block with a freshly
/// resolved source keeps the block registrable over the extended arena,
/// and keeps its owned targets above any base below the old arena.
pub proof fn lemma_slot_update(
    a_pre: Seq<Node>,
    a: Seq<Node>,
    ns: Seq<(String, usize)>,
    old_block: Block,
    new_block: Block,
    src: SignalSource,
    slot: int,
    base0: int,
)
    requires
        crate::driver::registrable(a_pre, ns, old_block),
        arena_extended(a_pre, a),
        source_ok(a_pre.len() as int, a, names_model(ns), src),
        0 <= slot < spec_sources(old_block).len(),
        spec_sources(new_block) == spec_sources(old_block).update(slot, src),
        new_block matches Block::Oscillator(o) ==> 0 <= o.phase < crate::SCALE,
        block_fresh(base0, old_block),
        0 <= base0 <= a_pre.len(),
    ensures
        crate::driver::registrable(a, ns, new_block),
        block_fresh(base0, new_block),
{
    let so = spec_sources(old_block);
    let sn = spec_sources(new_block);
    assert forall|e: int| 0 <= e < ns.len() implies (#[trigger] names_model(ns)[e]).1
        == ns[e].1 by {}
    assert forall|k: int| 0 <= k < sn.len() implies (#[trigger] sn[k]).target() < a.len() by {
        if k != slot {
            assert(sn[k] == so[k]);
        }
    }
    assert forall|k: int, p: int, kk: int|
        0 <= k < sn.len() && (#[trigger] sn[k]).is_anonymous() implies !#[trigger] anon_edge(
        a,
        p,
        kk,
        sn[k].target(),
    ) by {
        if k != slot {
            assert(sn[k] == so[k]);
            if anon_edge(a, p, kk, sn[k].target()) {
                assert(sn[k].target() < a_pre.len());
                assert(anon_edge(a_pre, p, kk, sn[k].target()));
            }
        }
    }
    assert forall|k1: int, k2: int|
        0 <= k1 < k2 < sn.len() && (#[trigger] sn[k1]).is_anonymous() && (
        #[trigger] sn[k2]).is_anonymous() implies sn[k1].target() != sn[k2].target() by {
        if k1 != slot && k2 != slot {
            assert(sn[k1] == so[k1] && sn[k2] == so[k2]);
        } else if k1 == slot {
            assert(sn[k2] == so[k2]);
            assert(so[k2].target() < a_pre.len());
        } else {
            assert(sn[k1] == so[k1]);
            assert(so[k1].target() < a_pre.len());
        }
    }
    assert forall|k: int, e: int|
        0 <= k < sn.len() && (#[trigger] sn[k]).is_anonymous() && 0 <= e < ns.len() implies
        sn[k].target() != (#[trigger] ns[e]).1 by {
        if k != slot {
            assert(sn[k] == so[k]);
        } else {
            assert(names_model(ns)[e].1 == ns[e].1);
        }
    }
    assert forall|k: int|
        0 <= k < sn.len() && (#[trigger] sn[k]).is_anonymous() implies sn[k].target()
            >= base0 by {
        if k != slot {
            assert(sn[k] == so[k]);
        }
    }
}

/// A block's constraints survive pure arena extension.
pub proof fn lemma_registrable_extended(
    a: Seq<Node>,
    b: Seq<Node>,
    ns: Seq<(String, usize)>,
    block: Block,
)
    requires
        arena_extended(a, b),
        crate::driver::registrable(a, ns, block),
        block_fresh_targets_below(a.len() as int, block),
    ensures
        crate::driver::registrable(b, ns, block),
{
    assert forall|k: int, p: int, kk: int|
        0 <= k < spec_sources(block).len() && (#[trigger] spec_sources(
            block,
        )[k]).is_anonymous() implies !#[trigger] anon_edge(
        b,
        p,
        kk,
        spec_sources(block)[k].target(),
    ) by {
        if anon_edge(b, p, kk, spec_sources(block)[k].target()) {
            assert(spec_sources(block)[k].target() < a.len());
            assert(anon_edge(a, p, kk, spec_sources(block)[k].target()));
        }
    }
}

/// Whether every reference of a block points below `bound`.
pub open spec fn block_fresh_targets_below(bound: int, block: Block) -> bool {
    forall|k: int|
        0 <= k < spec_sources(block).len() ==> (#[trigger] spec_sources(block)[k]).target()
            < bound
}

/// A failing note prefix fails the whole list.
proof fn lemma_note_list_err(ls: Seq<String>, k1: int, k2: int)
    requires
        0 <= k1 <= k2,
        spec_note_list(ls, k1) is Err,
    ensures
        spec_note_list(ls, k2) == spec_note_list(ls, k1),
    decreases k2,
{
    if k2 > k1 {
        lemma_note_list_err(ls, k1, k2 - 1);
    }
}

/// The driver after a parsing step builds on the driver before it: same
/// registry, output and pending sample, a well-formed, only-extended
/// arena.
pub open spec fn builds_on(d0: HarmoniconDriver, d1: HarmoniconDriver) -> bool {
    &&& d1.wf()
    &&& d1.names == d0.names
    &&& d1.output == d0.output
    &&& d1.pending == d0.pending
    &&& arena_extended(d0.arena@, d1.arena@)
}

/// An error result of the oscillator property fold is final.
proof fn lemma_osc_props_err(
    b: OscillatorBlock,
    props: Seq<Prop>,
    k1: int,
    k2: int,
    am: Seq<BlockModel>,
    ns: Seq<(Seq<char>, usize)>,
)
    requires
        0 <= k1 <= k2,
        k1 <= props.len(),
        spec_osc_props(b, props, k1, am, ns).0 is Err,
    ensures
        spec_osc_props(b, props, k2, am, ns) == spec_osc_props(b, props, k1, am, ns),
    decreases k2,
{
    if k2 > props.len() {
        lemma_osc_props_err(b, props, k1, props.len() as int, am, ns);
    } else if k2 > k1 {
        lemma_osc_props_err(b, props, k1, k2 - 1, am, ns);
    }
}

/// An error result of the stereo property fold is final.
proof fn lemma_stereo_props_err(
    b: StereoBlock,
    props: Seq<Prop>,
    k1: int,
    k2: int,
    am: Seq<BlockModel>,
    ns: Seq<(Seq<char>, usize)>,
)
    requires
        0 <= k1 <= k2,
        k1 <= props.len(),
        spec_stereo_props(b, props, k1, am, ns).0 is Err,
    ensures
        spec_stereo_props(b, props, k2, am, ns) == spec_stereo_props(b, props, k1, am, ns),
    decreases k2,
{
    if k2 > props.len() {
        lemma_stereo_props_err(b, props, k1, props.len() as int, am, ns);
    } else if k2 > k1 {
        lemma_stereo_props_err(b, props, k1, k2 - 1, am, ns);
    }
}

/// An error result of the sequencer property fold is final.
proof fn lemma_seq_props_err(
    m: (Seq<Note>, SignalSource, SignalSource),
    props: Seq<Prop>,
    k1: int,
    k2: int,
    am: Seq<BlockModel>,
    ns: Seq<(Seq<char>, usize)>,
)
    requires
        0 <= k1 <= k2,
        k1 <= props.len(),
        spec_seq_props(m, props, k1, am, ns).0 is Err,
    ensures
        spec_seq_props(m, props, k2, am, ns) == spec_seq_props(m, props, k1, am, ns),
    decreases k2,
{
    if k2 > props.len() {
        lemma_seq_props_err(m, props, k1, props.len() as int, am, ns);
    } else if k2 > k1 {
        lemma_seq_props_err(m, props, k1, k2 - 1, am, ns);
    }
}

/// An error result of the amplifier property fold is final.
proof fn lemma_amp_props_err(
    ps: Seq<(SignalSource, SignalSource)>,
    props: Seq<Prop>,
    k1: int,
    k2: int,
    am: Seq<BlockModel>,
    ns: Seq<(Seq<char>, usize)>,
)
    requires
        0 <= k1 <= k2,
        k1 <= props.len(),
        spec_amp_props(ps, props, k1, am, ns).0 is Err,
    ensures
        spec_amp_props(ps, props, k2, am, ns) == spec_amp_props(ps, props, k1, am, ns),
    decreases k2,
{
    if k2 > props.len() {
        lemma_amp_props_err(ps, props, k1, props.len() as int, am, ns);
    } else if k2 > k1 {
        lemma_amp_props_err(ps, props, k1, k2 - 1, am, ns);
    }
}

/// Parses a sequence property value into notes.
fn parse_sequence(v: &PropValue) -> (r: Result<Vec<Note>, HarmoniconError>)
    ensures
        match spec_sequence(*v) {
            Ok(notes) => r matches Ok(out) && out@ == notes,
            Err(m) => r matches Err(e) && e@ == m,
        },
{
    match v {
        PropValue::Notes(ls) => {
            let n = ls.len();
            let mut out: Vec<Note> = Vec::new();
            let mut i: usize = 0;
            while i < n
                invariant
                    i <= n,
                    n == ls@.len(),
                    spec_sequence(*v) == spec_note_list(ls@, ls@.len() as int),
                    spec_note_list(ls@, i as int) == Ok::<Seq<Note>, ErrModel>(out@),
                decreases n - i,
            {
                match Note::from_str(ls[i].as_str()) {
                    Ok(note) => {
                        proof {
                            crate::note::lemma_note_of(note.spec_freq(), note);
                        }
                        out.push(note);
                    },
                    Err(_) => {
                        proof {
                            assert(spec_sequence(*v) == spec_note_list(ls@, ls@.len() as int));
                            assert(spec_note_list(ls@, i + 1) matches Err(m) && m
                                == ErrModel::Type("note"@, "other"@));
                            lemma_note_list_err(ls@, i + 1, ls@.len() as int);
                        }
                        return Err(
                            HarmoniconError::TypeError("note".to_owned(), "other".to_owned()),
                        );
                    },
                }
                i = i + 1;
            }
            Ok(out)
        },
        _ => Err(HarmoniconError::TypeError("sequence".to_owned(), "other".to_owned())),
    }
}

/// The name of the last output statement among the first `k`
/// instructions, if any.
pub open spec fn spec_last_output(instrs: Seq<Instruction>, k: int) -> Option<Seq<char>>
    decreases k,
{
    if k <= 0 || instrs.len() == 0 {
        None
    } else if k > instrs.len() {
        spec_last_output(instrs, instrs.len() as int)
    } else {
        match instrs[k - 1] {
            Instruction::Output(nm) => Some(nm@),
            _ => spec_last_output(instrs, k - 1),
        }
    }
}

/// The model of the definition pass over the first `k` instructions:
/// each assignment builds and registers a block (or re-binds an alias),
/// remembering the last defined block; output statements are left for
/// the second pass.
pub open spec fn spec_stage2_loop(
    instrs: Seq<Instruction>,
    k: int,
    dm: DriverModel,
    last: Option<usize>,
) -> Result<(DriverModel, Option<usize>), ErrModel>
    decreases instrs, k,
{
    if k <= 0 || instrs.len() == 0 {
        Ok((dm, last))
    } else if k > instrs.len() {
        spec_stage2_loop(instrs, instrs.len() as int, dm, last)
    } else {
        match spec_stage2_loop(instrs, k - 1, dm, last) {
            Err(e) => Err(e),
            Ok((dm1, last1)) => match instrs[k - 1] {
                Instruction::Output(_) => Ok((dm1, last1)),
                Instruction::Assign(bt, name, rhs) => match rhs {
                    AssignRhs::Init(init) => {
                        let r2 = spec_block_init(bt, init, dm1.arena, dm1.names);
                        match r2.0 {
                            Err(e) => Err(e),
                            Ok(m) => {
                                let id = r2.1.len() as usize;
                                Ok(
                                    (
                                        DriverModel {
                                            arena: r2.1.push(m),
                                            names: spec_names_insert_v(dm1.names, (name@, id)),
                                            output: dm1.output,
                                        },
                                        Some(id),
                                    ),
                                )
                            },
                        }
                    },
                    AssignRhs::Alias(target) => match spec_lookup_v(dm1.names, target@) {
                        Some(id) => Ok(
                            (
                                DriverModel {
                                    arena: dm1.arena,
                                    names: spec_names_insert_v(dm1.names, (name@, id)),
                                    output: dm1.output,
                                },
                                Some(id),
                            ),
                        ),
                        None => Err(ErrModel::UnknownBlock(target@)),
                    },
                },
            },
        }
    }
}

/// The model of the initial driver: a silent constant as output zero.
pub open spec fn spec_stage2_start() -> DriverModel {
    DriverModel { arena: seq![BlockModel::Constant(0)], names: Seq::empty(), output: 0 }
}

/// The model of the whole compilation: run the definitions in order,
/// then select the output — the last explicit output statement's name
/// (which must resolve), or the last defined block, or the silent
/// default.
pub open spec fn spec_stage2(instrs: Seq<Instruction>) -> Result<DriverModel, ErrModel> {
    match spec_stage2_loop(instrs, instrs.len() as int, spec_stage2_start(), None) {
        Err(e) => Err(e),
        Ok((dm, last)) => match spec_last_output(instrs, instrs.len() as int) {
            Some(nm) => match spec_lookup_v(dm.names, nm) {
                Some(id) => Ok(DriverModel { output: id as int, ..dm }),
                None => Err(ErrModel::UnknownOutput(nm)),
            },
            None => match last {
                Some(id) => Ok(DriverModel { output: id as int, ..dm }),
                None => Ok(dm),
            },
        },
    }
}

/// An error result of the definition pass is final.
proof fn lemma_stage2_err(
    instrs: Seq<Instruction>,
    k1: int,
    k2: int,
    dm: DriverModel,
    last: Option<usize>,
)
    requires
        0 <= k1 <= k2,
        k1 <= instrs.len(),
        spec_stage2_loop(instrs, k1, dm, last) is Err,
    ensures
        spec_stage2_loop(instrs, k2, dm, last) == spec_stage2_loop(instrs, k1, dm, last),
    decreases k2,
{
    if k2 > instrs.len() {
        lemma_stage2_err(instrs, k1, instrs.len() as int, dm, last);
    } else if k2 > k1 {
        lemma_stage2_err(instrs, k1, k2 - 1, dm, last);
    }
}

/// Compiles a sequence of definitions into a driver: builds and
/// registers each named block in order (resolving references against
/// the registry built so far), then selects the output. On any error
/// the whole compilation is discarded: no partial block is registered
/// anywhere.
pub fn parse_stage2(instrs: Vec<Instruction>) -> (r: Result<HarmoniconDriver, HarmoniconError>)
    ensures
        match spec_stage2(instrs@) {
            Ok(m) => r matches Ok(dd) && dd.wf() && arena_model(dd.arena@) == m.arena
                && names_model(dd.names@) == m.names && dd.output as int == m.output
                && dd.pending is None,
            Err(e) => r matches Err(err) && err@ == e,
        },
{
    let ghost dm0 = spec_stage2_start();
    let mut d = HarmoniconDriver::new();
    proof {
        assert(arena_model(d.arena@) =~= dm0.arena);
        assert(names_model(d.names@) =~= dm0.names);
    }
    let mut last: Option<usize> = None;
    let n = instrs.len();
    let mut i: usize = 0;
    while i < n
        invariant
            n == instrs@.len(),
            i <= n,
            d.wf(),
            d.pending is None,
            dm0 == spec_stage2_start(),
            last matches Some(id) ==> id < d.arena@.len(),
            spec_stage2_loop(instrs@, i as int, dm0, None) matches Ok(st) && arena_model(d.arena@)
                == st.0.arena && names_model(d.names@) == st.0.names && d.output as int
                == st.0.output && st.1 == last,
        decreases n - i,
    {
        let ghost st_pre = spec_stage2_loop(instrs@, i as int, dm0, None)->Ok_0;
        match &instrs[i] {
            Instruction::Output(_) => {},
            Instruction::Assign(bt, name, rhs) => {
                match rhs {
                    AssignRhs::Init(init) => {
                        let block = match parse_block_init(*bt, init, &mut d) {
                            Ok(b) => b,
                            Err(e) => {
                                proof {
                                    assert(spec_stage2_loop(instrs@, i + 1, dm0, None) matches Err(
                                        m,
                                    ) && m == e@);
                                    lemma_stage2_err(instrs@, i + 1, instrs@.len() as int, dm0, None);
                                }
                                return Err(e);
                            },
                        };
                        let name_c = name.clone();
                        let ghost name_g = name_c;
                        let ghost d_mid = d;
                        let id = d.register_block(name_c, block);
                        last = Some(id);
                        proof {
                            crate::driver::lemma_name_index_range(d_mid.names@, name@);
                            lemma_insert_model(d_mid.names@, (name_g, id));
                            assert(arena_model(d.arena@) =~= arena_model(d_mid.arena@).push(
                                model_of(block),
                            ));
                            assert(names_model(d.names@) == spec_names_insert_v(
                                names_model(d_mid.names@),
                                (name@, id),
                            ));
                        }
                    },
                    AssignRhs::Alias(target) => {
                        let name_c = name.clone();
                        let ghost name_g = name_c;
                        let ghost d_mid = d;
                        let found = d.alias_block(target.as_str(), name_c);
                        proof {
                            lemma_lookup_model(d_mid.names@, target@);
                        }
                        match found {
                            Some(id) => {
                                last = Some(id);
                                proof {
                                    crate::driver::lemma_name_index_range(d_mid.names@, target@);
                                    lemma_insert_model(d_mid.names@, (name_g, id));
                                }
                            },
                            None => {
                                proof {
                                    assert(spec_stage2_loop(instrs@, i + 1, dm0, None) matches Err(
                                        m,
                                    ) && m == ErrModel::UnknownBlock(target@));
                                    lemma_stage2_err(instrs@, i + 1, instrs@.len() as int, dm0, None);
                                }
                                return Err(HarmoniconError::UnknownBlock(target.clone()));
                            },
                        }
                    },
                }
            },
        }
        proof {
            assert(spec_stage2_loop(instrs@, i + 1, dm0, None) matches Ok(st) && arena_model(
                d.arena@,
            ) == st.0.arena && names_model(d.names@) == st.0.names && d.output as int
                == st.0.output && st.1 == last);
        }
        i = i + 1;
    }
    // output selection: the last explicit output statement wins
    let mut out_idx: Option<usize> = None;
    let mut j: usize = 0;
    while j < n
        invariant
            n == instrs@.len(),
            j <= n,
            match out_idx {
                Some(ix) => ix < j && (instrs@[ix as int] matches Instruction::Output(nm)
                    && spec_last_output(instrs@, j as int) == Some(nm@)),
                None => spec_last_output(instrs@, j as int) is None,
            },
        decreases n - j,
    {
        match &instrs[j] {
            Instruction::Output(_) => {
                out_idx = Some(j);
            },
            _ => {},
        }
        j = j + 1;
    }
    match out_idx {
        Some(ix) => {
            let nm = match &instrs[ix] {
                Instruction::Output(nm) => nm,
                _ => {
                    proof {
                        assert(false);
                    }
                    return Err(HarmoniconError::UnknownOutput(String::new()));
                },
            };
            let found = d.get_block(nm.as_str());
            proof {
                lemma_lookup_model(d.names@, nm@);
            }
            match found {
                Some(id) => {
                    proof {
                        crate::driver::lemma_name_index_range(d.names@, nm@);
                    }
                    d.set_output(id);
                    Ok(d)
                },
                None => Err(HarmoniconError::UnknownOutput(nm.clone())),
            }
        },
        None => {
            match last {
                Some(id) => {
                    d.set_output(id);
                    Ok(d)
                },
                None => Ok(d),
            }
        },
    }
}

/// Parses a constant initializer: a bare number.
pub fn parse_const_init(init: &InitValue) -> (r: Result<ConstantBlock, HarmoniconError>)
    ensures
        match spec_const_init(*init) {
            Ok(v) => r matches Ok(c) && c.val == v,
            Err(m) => r matches Err(e) && e@ == m,
        },
{
    match init {
        InitValue::Number(v) => Ok(ConstantBlock::new(*v)),
        _ => Err(
            HarmoniconError::TypeError(
                "constant initializer".to_owned(),
                "other initializer".to_owned(),
            ),
        ),
    }
}

/// Resolves a property value into a source reference against the driver
/// built so far, creating anonymous sub-blocks in its arena.
pub fn parse_param_rhs(v: &PropValue, d: &mut HarmoniconDriver) -> (r: Result<
    SignalSource,
    HarmoniconError,
>)
    requires
        old(d).wf(),
    ensures
        builds_on(*old(d), *final(d)),
        rel_result(
            r,
            spec_param_rhs(*v, arena_model(old(d).arena@), names_model(old(d).names@)).0,
        ),
        arena_model(final(d).arena@) == spec_param_rhs(
            *v,
            arena_model(old(d).arena@),
            names_model(old(d).names@),
        ).1,
        r matches Ok(s) ==> source_ok(
            old(d).arena@.len() as int,
            final(d).arena@,
            names_model(final(d).names@),
            s,
        ),
    decreases v, 4int,
{
    match v {
        PropValue::Reference(name) => {
            let found = d.get_block(name.as_str());
            proof {
                lemma_lookup_model(d.names@, name@);
                if crate::driver::spec_lookup(d.names@, name@) is Some {
                    crate::driver::lemma_name_index_range(d.names@, name@);
                }
            }
            match found {
                Some(id) => Ok(SignalSource::Named(id)),
                None => Err(HarmoniconError::UnknownBlock(name.clone())),
            }
        },
        PropValue::Anonymous(bt, init) => {
            match parse_anon_init(*bt, init, d) {
                Ok(id) => Ok(SignalSource::Anonymous(id)),
                Err(e) => Err(e),
            }
        },
        PropValue::Number(_) => Err(
            HarmoniconError::TypeError("name or initializer".to_owned(), "other".to_owned()),
        ),
        PropValue::Wave(_) => Err(
            HarmoniconError::TypeError("name or initializer".to_owned(), "other".to_owned()),
        ),
        PropValue::Notes(_) => Err(
            HarmoniconError::TypeError("name or initializer".to_owned(), "other".to_owned()),
        ),
    }
}

/// Builds an anonymous block of the given variant and appends it to the
/// driver's arena; the returned index is owned by the caller alone.
pub fn parse_anon_init(bt: BlockType, init: &InitValue, d: &mut HarmoniconDriver) -> (r: Result<
    usize,
    HarmoniconError,
>)
    requires
        old(d).wf(),
    ensures
        builds_on(*old(d), *final(d)),
        match spec_anon_init(bt, *init, arena_model(old(d).arena@), names_model(old(d).names@)).0 {
            Ok(idm) => r matches Ok(id) && id as int == idm,
            Err(m) => r matches Err(e) && e@ == m,
        },
        arena_model(final(d).arena@) == spec_anon_init(
            bt,
            *init,
            arena_model(old(d).arena@),
            names_model(old(d).names@),
        ).1,
        r matches Ok(id) ==> {
            &&& old(d).arena@.len() <= id < final(d).arena@.len()
            &&& forall|p: int, k: int| !#[trigger] anon_edge(final(d).arena@, p, k, id as int)
            &&& forall|e: int|
                0 <= e < final(d).names@.len() ==> (#[trigger] final(d).names@[e]).1 != id
        },
    decreases init, 3int,
{
    match parse_block_init(bt, init, d) {
        Ok(block) => {
            let ghost d_mid = *d;
            let ghost blk = block;
            let id = d.create_block(block);
            proof {
                assert(arena_model(d.arena@) =~= arena_model(d_mid.arena@).push(model_of(blk)));
                assert(arena_extended(old(d).arena@, d.arena@)) by {
                    assert forall|p: int, k: int, c: int|
                        #[trigger] anon_edge(d.arena@, p, k, c) && c < old(d).arena@.len() implies
                        anon_edge(old(d).arena@, p, k, c) by {
                        if p < d_mid.arena@.len() {
                            assert(d.arena@[p] == d_mid.arena@[p]);
                            assert(anon_edge(d_mid.arena@, p, k, c));
                        } else {
                            assert(d.arena@[p].block == blk);
                            assert(spec_sources(blk)[k].target() >= old(d).arena@.len());
                        }
                    }
                    assert forall|j: int| 0 <= j < old(d).arena@.len() implies d.arena@[j] == old(
                        d,
                    ).arena@[j] by {
                        assert(d.arena@[j] == d_mid.arena@[j]);
                    }
                }
            }
            Ok(id)
        },
        Err(e) => Err(e),
    }
}

/// Builds a block of the given variant from an initializer; anonymous
/// children are created in the driver's arena, the block itself is
/// handed back for the caller to place.
pub fn parse_block_init(bt: BlockType, init: &InitValue, d: &mut HarmoniconDriver) -> (r: Result<
    Block,
    HarmoniconError,
>)
    requires
        old(d).wf(),
    ensures
        builds_on(*old(d), *final(d)),
        match spec_block_init(bt, *init, arena_model(old(d).arena@), names_model(old(d).names@)).0 {
            Ok(m) => r matches Ok(b) && model_of(b) == m,
            Err(m) => r matches Err(e) && e@ == m,
        },
        arena_model(final(d).arena@) == spec_block_init(
            bt,
            *init,
            arena_model(old(d).arena@),
            names_model(old(d).names@),
        ).1,
        r matches Ok(b) ==> crate::driver::registrable(final(d).arena@, final(d).names@, b)
            && block_fresh(old(d).arena@.len() as int, b),
    decreases init, 2int,
{
    match bt {
        BlockType::Constant => {
            match parse_const_init(init) {
                Ok(c) => Ok(Block::Constant(c)),
                Err(e) => Err(e),
            }
        },
        BlockType::Oscillator => {
            match parse_osc_init(init, d) {
                Ok(b) => Ok(Block::Oscillator(b)),
                Err(e) => Err(e),
            }
        },
        BlockType::Amplifier => {
            match parse_amp_init(init, d) {
                Ok(b) => Ok(Block::Amplifier(b)),
                Err(e) => Err(e),
            }
        },
        BlockType::Stereo => {
            match parse_stereo_init(init, d) {
                Ok(b) => Ok(Block::Stereo(b)),
                Err(e) => Err(e),
            }
        },
        BlockType::Sequencer => {
            match parse_sequencer_init(init, d) {
                Ok(b) => Ok(Block::Sequencer(b)),
                Err(e) => Err(e),
            }
        },
    }
}

/// A block's owned targets all lie at or above `base`.
pub open spec fn block_fresh(base: int, block: Block) -> bool {
    forall|k: int|
        0 <= k < spec_sources(block).len() && (#[trigger] spec_sources(block)[k]).is_anonymous()
            ==> spec_sources(block)[k].target() >= base
}

/// Builds an oscillator from its initializer body: defaults first, then
/// the properties in source order.
pub fn parse_osc_init(init: &InitValue, d: &mut HarmoniconDriver) -> (r: Result<
    OscillatorBlock,
    HarmoniconError,
>)
    requires
        old(d).wf(),
    ensures
        builds_on(*old(d), *final(d)),
        rel_result(
            r,
            spec_osc_init(*init, arena_model(old(d).arena@), names_model(old(d).names@)).0,
        ),
        arena_model(final(d).arena@) == spec_osc_init(
            *init,
            arena_model(old(d).arena@),
            names_model(old(d).names@),
        ).1,
        r matches Ok(b) ==> crate::driver::registrable(
            final(d).arena@,
            final(d).names@,
            Block::Oscillator(b),
        ) && block_fresh(old(d).arena@.len() as int, Block::Oscillator(b)),
    decreases init, 1int,
{
    let ghost am0 = arena_model(old(d).arena@);
    let ghost nsv = names_model(old(d).names@);
    match init {
        InitValue::Number(_) => Err(
            HarmoniconError::TypeError(
                "oscillator initializer".to_owned(),
                "other initializer".to_owned(),
            ),
        ),
        InitValue::Props(props) => {
            let ghost b0 = spec_osc_default(am0).0;
            let ghost amd = spec_osc_default(am0).1;
            let fs_id = d.create_block(
                Block::Constant(ConstantBlock::new(crate::note::A4_FREQ)),
            );
            let mut osc = OscillatorBlock {
                freq_source: SignalSource::new_anonymous(fs_id),
                phase: 0,
                wave: Waveform::Sinus,
            };
            proof {
                assert(arena_model(d.arena@) =~= amd);
                assert(osc == b0);
                assert(spec_osc_init(*init, am0, nsv) == spec_osc_props(
                    b0,
                    props@,
                    props@.len() as int,
                    amd,
                    nsv,
                ));
                assert(spec_sources(Block::Oscillator(osc)) == seq![osc.freq_source]);
            }
            let n = props.len();
            let mut i: usize = 0;
            while i < n
                invariant
                    *init == InitValue::Props(*props),
                    old(d).wf(),
                    d.wf(),
                    d.names == old(d).names,
                    d.output == old(d).output,
                    d.pending == old(d).pending,
                    arena_extended(old(d).arena@, d.arena@),
                    n == props@.len(),
                    i <= n,
                    nsv == names_model(d.names@),
                    am0 == arena_model(old(d).arena@),
                    b0 == spec_osc_default(am0).0,
                    amd == spec_osc_default(am0).1,
                    spec_osc_init(*init, am0, nsv) == spec_osc_props(
                        b0,
                        props@,
                        props@.len() as int,
                        amd,
                        nsv,
                    ),
                    spec_osc_props(b0, props@, i as int, amd, nsv) == (
                        Ok::<OscillatorBlock, ErrModel>(osc),
                        arena_model(d.arena@),
                    ),
                    crate::driver::registrable(d.arena@, d.names@, Block::Oscillator(osc)),
                    block_fresh(old(d).arena@.len() as int, Block::Oscillator(osc)),
                decreases n - i,
            {
                let ghost d_pre = *d;
                let ghost osc_pre = osc;
                let p = &props[i];
                proof {
                    assert(decreases_to!(*init => *props));
                    assert(decreases_to!(*props => props@));
                    assert(decreases_to!(props@ => props@[i as int]));
                    assert(decreases_to!(props@[i as int] => props@[i as int].value));
                    assert(decreases_to!(*init => p.value));
                    assert(spec_osc_props(b0, props@, i + 1, amd, nsv) == spec_osc_prop(
                        osc,
                        props@[i as int],
                        arena_model(d.arena@),
                        nsv,
                    ));
                }
                if key_is(p.key.as_str(), "wave") || key_is(p.key.as_str(), "waveform") {
                    match &p.value {
                        PropValue::Wave(w) => {
                            osc.update_waveform(*w);
                            proof {
                                assert(spec_sources(Block::Oscillator(osc)) == seq![
                                    osc.freq_source,
                                ]);
                            }
                        },
                        _ => {
                            proof {
                                assert(spec_osc_props(b0, props@, i + 1, amd, nsv).0 matches Err(
                                    m,
                                ) && m == ErrModel::Type("waveform"@, "other"@));
                                lemma_osc_props_err(b0, props@, i + 1, props@.len() as int, amd, nsv);
                            }
                            return Err(
                                HarmoniconError::TypeError(
                                    "waveform".to_owned(),
                                    "other".to_owned(),
                                ),
                            );
                        },
                    }
                } else {
                    let rhs = match parse_param_rhs(&p.value, d) {
                        Ok(s) => s,
                        Err(e) => {
                            proof {
                                assert(spec_osc_props(b0, props@, i + 1, amd, nsv).0 matches Err(
                                    m,
                                ) && m == e@);
                                lemma_osc_props_err(b0, props@, i + 1, props@.len() as int, amd, nsv);
                            }
                            return Err(e);
                        },
                    };
                    if key_is(p.key.as_str(), "frequency") || key_is(p.key.as_str(), "freq") {
                        osc.update_frequency(rhs);
                        proof {
                            assert(spec_sources(Block::Oscillator(osc)) =~= spec_sources(
                                Block::Oscillator(osc_pre),
                            ).update(0, rhs));
                            lemma_slot_update(
                                d_pre.arena@,
                                d.arena@,
                                d.names@,
                                Block::Oscillator(osc_pre),
                                Block::Oscillator(osc),
                                rhs,
                                0,
                                old(d).arena@.len() as int,
                            );
                        }
                    } else {
                        proof {
                            assert(spec_osc_props(b0, props@, i + 1, amd, nsv).0 matches Err(m)
                                && m == ErrModel::UnknownProperty(p.key@, "oscillator"@));
                            lemma_osc_props_err(b0, props@, i + 1, props@.len() as int, amd, nsv);
                        }
                        return Err(
                            HarmoniconError::UnknownProperty(
                                p.key.clone(),
                                "oscillator".to_owned(),
                            ),
                        );
                    }
                }
                proof {
                    assert(spec_osc_props(b0, props@, i + 1, amd, nsv) == (
                        Ok::<OscillatorBlock, ErrModel>(osc),
                        arena_model(d.arena@),
                    ));
                }
                i = i + 1;
            }
            proof {
                if props@.len() == 0 {
                    assert(spec_osc_props(b0, props@, 0, amd, nsv) == (
                        Ok::<OscillatorBlock, ErrModel>(osc),
                        arena_model(d.arena@),
                    ));
                }
            }
            Ok(osc)
        },
    }
}

/// Builds a stereo block from its initializer body: three silent
/// defaults first, then the properties in source order.
pub fn parse_stereo_init(init: &InitValue, d: &mut HarmoniconDriver) -> (r: Result<
    StereoBlock,
    HarmoniconError,
>)
    requires
        old(d).wf(),
    ensures
        builds_on(*old(d), *final(d)),
        rel_result(
            r,
            spec_stereo_init(*init, arena_model(old(d).arena@), names_model(old(d).names@)).0,
        ),
        arena_model(final(d).arena@) == spec_stereo_init(
            *init,
            arena_model(old(d).arena@),
            names_model(old(d).names@),
        ).1,
        r matches Ok(b) ==> crate::driver::registrable(
            final(d).arena@,
            final(d).names@,
            Block::Stereo(b),
        ) && block_fresh(old(d).arena@.len() as int, Block::Stereo(b)),
    decreases init, 1int,
{
    let ghost am0 = arena_model(old(d).arena@);
    let ghost nsv = names_model(old(d).names@);
    match init {
        InitValue::Number(_) => Err(
            HarmoniconError::TypeError(
                "stereo initializer".to_owned(),
                "other initializer".to_owned(),
            ),
        ),
        InitValue::Props(props) => {
            let ghost b0 = spec_stereo_default(am0).0;
            let ghost amd = spec_stereo_default(am0).1;
            let left_id = d.create_block(Block::Constant(ConstantBlock::zero()));
            let ghost a_l = d.arena@;
            let right_id = d.create_block(Block::Constant(ConstantBlock::zero()));
            let ghost a_r = d.arena@;
            let shift_id = d.create_block(Block::Constant(ConstantBlock::zero()));
            proof {
                lemma_push_const_edges(a_l, ConstantBlock { val: 0 });
                lemma_push_const_edges(a_r, ConstantBlock { val: 0 });
                assert forall|pp: int, kk: int| !#[trigger] anon_edge(
                    d.arena@,
                    pp,
                    kk,
                    left_id as int,
                ) by {
                    if anon_edge(d.arena@, pp, kk, left_id as int) {
                        assert(anon_edge(a_r, pp, kk, left_id as int));
                        assert(anon_edge(a_l, pp, kk, left_id as int));
                    }
                }
                assert forall|pp: int, kk: int| !#[trigger] anon_edge(
                    d.arena@,
                    pp,
                    kk,
                    right_id as int,
                ) by {
                    if anon_edge(d.arena@, pp, kk, right_id as int) {
                        assert(anon_edge(a_r, pp, kk, right_id as int));
                    }
                }
            }
            let mut st = StereoBlock {
                left: SignalSource::new_anonymous(left_id),
                right: SignalSource::new_anonymous(right_id),
                shift: SignalSource::new_anonymous(shift_id),
            };
            proof {
                assert(arena_model(d.arena@) =~= amd);
                assert(st == b0);
                assert(spec_stereo_init(*init, am0, nsv) == spec_stereo_props(
                    b0,
                    props@,
                    props@.len() as int,
                    amd,
                    nsv,
                ));
                assert(spec_sources(Block::Stereo(st)) == seq![st.left, st.right, st.shift]);
                assert(crate::driver::registrable(d.arena@, d.names@, Block::Stereo(st)));
            }
            let n = props.len();
            let mut i: usize = 0;
            while i < n
                invariant
                    *init == InitValue::Props(*props),
                    old(d).wf(),
                    d.wf(),
                    d.names == old(d).names,
                    d.output == old(d).output,
                    d.pending == old(d).pending,
                    arena_extended(old(d).arena@, d.arena@),
                    n == props@.len(),
                    i <= n,
                    nsv == names_model(d.names@),
                    am0 == arena_model(old(d).arena@),
                    b0 == spec_stereo_default(am0).0,
                    amd == spec_stereo_default(am0).1,
                    spec_stereo_init(*init, am0, nsv) == spec_stereo_props(
                        b0,
                        props@,
                        props@.len() as int,
                        amd,
                        nsv,
                    ),
                    spec_stereo_props(b0, props@, i as int, amd, nsv) == (
                        Ok::<StereoBlock, ErrModel>(st),
                        arena_model(d.arena@),
                    ),
                    crate::driver::registrable(d.arena@, d.names@, Block::Stereo(st)),
                    block_fresh(old(d).arena@.len() as int, Block::Stereo(st)),
                decreases n - i,
            {
                let ghost d_pre = *d;
                let ghost st_pre = st;
                let p = &props[i];
                proof {
                    assert(decreases_to!(*init => *props));
                    assert(decreases_to!(*props => props@));
                    assert(decreases_to!(props@ => props@[i as int]));
                    assert(decreases_to!(props@[i as int] => props@[i as int].value));
                    assert(decreases_to!(*init => p.value));
                    assert(spec_stereo_props(b0, props@, i + 1, amd, nsv) == spec_stereo_prop(
                        st,
                        props@[i as int],
                        arena_model(d.arena@),
                        nsv,
                    ));
                }
                let rhs = match parse_param_rhs(&p.value, d) {
                    Ok(s) => s,
                    Err(e) => {
                        proof {
                            assert(spec_stereo_props(b0, props@, i + 1, amd, nsv).0 matches Err(
                                m,
                            ) && m == e@);
                            lemma_stereo_props_err(b0, props@, i + 1, props@.len() as int, amd, nsv);
                        }
                        return Err(e);
                    },
                };
                if key_is(p.key.as_str(), "left") || key_is(p.key.as_str(), "l") {
                    st.update_left(rhs);
                    proof {
                        assert(spec_sources(Block::Stereo(st)) =~= spec_sources(
                            Block::Stereo(st_pre),
                        ).update(0, rhs));
                        lemma_slot_update(
                            d_pre.arena@,
                            d.arena@,
                            d.names@,
                            Block::Stereo(st_pre),
                            Block::Stereo(st),
                            rhs,
                            0,
                            old(d).arena@.len() as int,
                        );
                    }
                } else if key_is(p.key.as_str(), "right") || key_is(p.key.as_str(), "r") {
                    st.update_right(rhs);
                    proof {
                        assert(spec_sources(Block::Stereo(st)) =~= spec_sources(
                            Block::Stereo(st_pre),
                        ).update(1, rhs));
                        lemma_slot_update(
                            d_pre.arena@,
                            d.arena@,
                            d.names@,
                            Block::Stereo(st_pre),
                            Block::Stereo(st),
                            rhs,
                            1,
                            old(d).arena@.len() as int,
                        );
                    }
                } else if key_is(p.key.as_str(), "shift") || key_is(p.key.as_str(), "s") {
                    st.update_shift(rhs);
                    proof {
                        assert(spec_sources(Block::Stereo(st)) =~= spec_sources(
                            Block::Stereo(st_pre),
                        ).update(2, rhs));
                        lemma_slot_update(
                            d_pre.arena@,
                            d.arena@,
                            d.names@,
                            Block::Stereo(st_pre),
                            Block::Stereo(st),
                            rhs,
                            2,
                            old(d).arena@.len() as int,
                        );
                    }
                } else {
                    proof {
                        assert(spec_stereo_props(b0, props@, i + 1, amd, nsv).0 matches Err(m)
                            && m == ErrModel::UnknownProperty(p.key@, "stereo"@));
                        lemma_stereo_props_err(b0, props@, i + 1, props@.len() as int, amd, nsv);
                    }
                    return Err(
                        HarmoniconError::UnknownProperty(p.key.clone(), "stereo".to_owned()),
                    );
                }
                proof {
                    assert(spec_stereo_props(b0, props@, i + 1, amd, nsv) == (
                        Ok::<StereoBlock, ErrModel>(st),
                        arena_model(d.arena@),
                    ));
                }
                i = i + 1;
            }
            proof {
                if props@.len() == 0 {
                    assert(spec_stereo_props(b0, props@, 0, amd, nsv) == (
                        Ok::<StereoBlock, ErrModel>(st),
                        arena_model(d.arena@),
                    ));
                }
            }
            Ok(st)
        },
    }
}

/// Builds a sequencer from its initializer body: an empty sequence at
/// 120 bpm with no spacing first, then the properties in source order.
pub fn parse_sequencer_init(init: &InitValue, d: &mut HarmoniconDriver) -> (r: Result<
    SequencerBlock,
    HarmoniconError,
>)
    requires
        old(d).wf(),
    ensures
        builds_on(*old(d), *final(d)),
        match spec_seq_init(*init, arena_model(old(d).arena@), names_model(old(d).names@)).0 {
            Ok(m) => r matches Ok(b) && b.sequence@ == m.0 && b.bpm == m.1 && b.spacing == m.2
                && b.progress == 0,
            Err(m) => r matches Err(e) && e@ == m,
        },
        arena_model(final(d).arena@) == spec_seq_init(
            *init,
            arena_model(old(d).arena@),
            names_model(old(d).names@),
        ).1,
        r matches Ok(b) ==> crate::driver::registrable(
            final(d).arena@,
            final(d).names@,
            Block::Sequencer(b),
        ) && block_fresh(old(d).arena@.len() as int, Block::Sequencer(b)),
    decreases init, 1int,
{
    let ghost am0 = arena_model(old(d).arena@);
    let ghost nsv = names_model(old(d).names@);
    match init {
        InitValue::Number(_) => Err(
            HarmoniconError::TypeError(
                "stereo initializer".to_owned(),
                "other initializer".to_owned(),
            ),
        ),
        InitValue::Props(props) => {
            let ghost m0 = spec_seq_default(am0).0;
            let ghost amd = spec_seq_default(am0).1;
            let bpm_id = d.create_block(
                Block::Constant(ConstantBlock::new(120i64 * crate::SCALE)),
            );
            let ghost a_b = d.arena@;
            let spacing_id = d.create_block(Block::Constant(ConstantBlock::zero()));
            proof {
                lemma_push_const_edges(a_b, ConstantBlock { val: 0 });
                assert forall|pp: int, kk: int| !#[trigger] anon_edge(
                    d.arena@,
                    pp,
                    kk,
                    bpm_id as int,
                ) by {
                    if anon_edge(d.arena@, pp, kk, bpm_id as int) {
                        assert(anon_edge(a_b, pp, kk, bpm_id as int));
                    }
                }
            }
            let mut sq = SequencerBlock {
                sequence: Vec::new(),
                bpm: SignalSource::new_anonymous(bpm_id),
                spacing: SignalSource::new_anonymous(spacing_id),
                progress: 0,
            };
            proof {
                assert(arena_model(d.arena@) =~= amd);
                assert(sq.sequence@ == m0.0 && sq.bpm == m0.1 && sq.spacing == m0.2);
                assert(spec_seq_init(*init, am0, nsv) == spec_seq_props(
                    m0,
                    props@,
                    props@.len() as int,
                    amd,
                    nsv,
                ));
                assert(spec_sources(Block::Sequencer(sq)) == seq![sq.bpm, sq.spacing]);
                assert(crate::driver::registrable(d.arena@, d.names@, Block::Sequencer(sq)));
            }
            let n = props.len();
            let mut i: usize = 0;
            while i < n
                invariant
                    *init == InitValue::Props(*props),
                    old(d).wf(),
                    d.wf(),
                    d.names == old(d).names,
                    d.output == old(d).output,
                    d.pending == old(d).pending,
                    arena_extended(old(d).arena@, d.arena@),
                    n == props@.len(),
                    i <= n,
                    nsv == names_model(d.names@),
                    am0 == arena_model(old(d).arena@),
                    m0 == spec_seq_default(am0).0,
                    amd == spec_seq_default(am0).1,
                    spec_seq_init(*init, am0, nsv) == spec_seq_props(
                        m0,
                        props@,
                        props@.len() as int,
                        amd,
                        nsv,
                    ),
                    spec_seq_props(m0, props@, i as int, amd, nsv) == (
                        Ok::<(Seq<Note>, SignalSource, SignalSource), ErrModel>(
                            (sq.sequence@, sq.bpm, sq.spacing),
                        ),
                        arena_model(d.arena@),
                    ),
                    sq.progress == 0,
                    crate::driver::registrable(d.arena@, d.names@, Block::Sequencer(sq)),
                    block_fresh(old(d).arena@.len() as int, Block::Sequencer(sq)),
                decreases n - i,
            {
                let ghost d_pre = *d;
                let ghost sq_pre = sq;
                let p = &props[i];
                proof {
                    assert(decreases_to!(*init => *props));
                    assert(decreases_to!(*props => props@));
                    assert(decreases_to!(props@ => props@[i as int]));
                    assert(decreases_to!(props@[i as int] => props@[i as int].value));
                    assert(decreases_to!(*init => p.value));
                    assert(spec_seq_props(m0, props@, i + 1, amd, nsv) == spec_seq_prop(
                        (sq.sequence@, sq.bpm, sq.spacing),
                        props@[i as int],
                        arena_model(d.arena@),
                        nsv,
                    ));
                }
                if key_is(p.key.as_str(), "seq") || key_is(p.key.as_str(), "sequence") {
                    match parse_sequence(&p.value) {
                        Ok(notes) => {
                            sq.update_sequence(notes);
                            proof {
                                assert(spec_sources(Block::Sequencer(sq)) == spec_sources(
                                    Block::Sequencer(sq_pre),
                                ));
                            }
                        },
                        Err(e) => {
                            proof {
                                assert(spec_seq_props(m0, props@, i + 1, amd, nsv).0 matches Err(
                                    m,
                                ) && m == e@);
                                lemma_seq_props_err(m0, props@, i + 1, props@.len() as int, amd, nsv);
                            }
                            return Err(e);
                        },
                    }
                } else {
                    let rhs = match parse_param_rhs(&p.value, d) {
                        Ok(s) => s,
                        Err(e) => {
                            proof {
                                assert(spec_seq_props(m0, props@, i + 1, amd, nsv).0 matches Err(
                                    m,
                                ) && m == e@);
                                lemma_seq_props_err(m0, props@, i + 1, props@.len() as int, amd, nsv);
                            }
                            return Err(e);
                        },
                    };
                    if key_is(p.key.as_str(), "bpm") {
                        sq.update_bpm(rhs);
                        proof {
                            assert(spec_sources(Block::Sequencer(sq)) =~= spec_sources(
                                Block::Sequencer(sq_pre),
                            ).update(0, rhs));
                            lemma_slot_update(
                                d_pre.arena@,
                                d.arena@,
                                d.names@,
                                Block::Sequencer(sq_pre),
                                Block::Sequencer(sq),
                                rhs,
                                0,
                                old(d).arena@.len() as int,
                            );
                        }
                    } else if key_is(p.key.as_str(), "spacing") {
                        sq.update_spacing(rhs);
                        proof {
                            assert(spec_sources(Block::Sequencer(sq)) =~= spec_sources(
                                Block::Sequencer(sq_pre),
                            ).update(1, rhs));
                            lemma_slot_update(
                                d_pre.arena@,
                                d.arena@,
                                d.names@,
                                Block::Sequencer(sq_pre),
                                Block::Sequencer(sq),
                                rhs,
                                1,
                                old(d).arena@.len() as int,
                            );
                        }
                    } else {
                        proof {
                            assert(spec_seq_props(m0, props@, i + 1, amd, nsv).0 matches Err(m)
                                && m == ErrModel::UnknownProperty(p.key@, "sequencer"@));
                            lemma_seq_props_err(m0, props@, i + 1, props@.len() as int, amd, nsv);
                        }
                        return Err(
                            HarmoniconError::UnknownProperty(
                                p.key.clone(),
                                "sequencer".to_owned(),
                            ),
                        );
                    }
                }
                i = i + 1;
            }
            Ok(sq)
        },
    }
}

/// How many pairs padding adds.
pub open spec fn pad_count(len: int, n: int) -> int {
    if len > n || n < 0 {
        0
    } else {
        n + 1 - len
    }
}

/// What padding does: old slots and pairs unchanged, fresh constant
/// nodes appended, fresh owned pair references in order; and the model
/// version agrees with the arena version.
pub proof fn lemma_pad_facts(s: Seq<(SignalSource, SignalSource)>, a: Seq<Node>, n: int)
    ensures
        ({
            let (ps, na) = crate::blocks::amplifier::spec_pad_pairs(s, a, n);
            &&& na.len() == a.len() + 2 * pad_count(s.len() as int, n)
            &&& forall|j: int| 0 <= j < a.len() ==> na[j] == a[j]
            &&& forall|j: int|
                a.len() <= j < na.len() ==> (#[trigger] na[j]).steps == 0 && (na[j].block matches
                Block::Constant(_))
            &&& ps.len() == if s.len() > n || n < 0 {
                s.len() as int
            } else {
                n + 1
            }
            &&& forall|k: int| 0 <= k < s.len() ==> #[trigger] ps[k] == s[k]
            &&& forall|k: int|
                s.len() <= k < ps.len() ==> #[trigger] ps[k] == (
                    SignalSource::Anonymous((a.len() + 2 * (k - s.len())) as usize),
                    SignalSource::Anonymous((a.len() + 2 * (k - s.len()) + 1) as usize),
                )
            &&& arena_model(na) == spec_pad_model(s, arena_model(a), n).1
            &&& ps == spec_pad_model(s, arena_model(a), n).0
        }),
    decreases n + 1 - s.len(),
{
    if s.len() > n || n < 0 {
        assert(arena_model(a) == spec_pad_model(s, arena_model(a), n).1);
    } else {
        let sig = a.len() as usize;
        let gain = (a.len() + 1) as usize;
        let s1 = s.push((SignalSource::Anonymous(sig), SignalSource::Anonymous(gain)));
        let a1 = a.push(Node { block: Block::Constant(ConstantBlock { val: 0 }), steps: 0u64 }).push(
            Node { block: Block::Constant(ConstantBlock { val: crate::SCALE }), steps: 0u64 },
        );
        lemma_pad_facts(s1, a1, n);
        assert(arena_model(a1) =~= arena_model(a).push(BlockModel::Constant(0)).push(
            BlockModel::Constant(crate::SCALE),
        ));
    }
}

/// After padding and setting one pair, the amplifier block stays
/// registrable and the driver pieces stay well-formed.
proof fn lemma_amp_update_wf(
    a1: Seq<Node>,
    ns: Seq<(String, usize)>,
    bp: AmplifierBlock,
    n: int,
    first: bool,
    src: SignalSource,
    base_pre: int,
    base0: int,
)
    requires
        arena_wf(a1),
        crate::blocks::unique_owner(a1),
        crate::driver::names_wf(a1, ns),
        0 <= n,
        0 <= base0 <= base_pre <= a1.len(),
        crate::driver::registrable(a1, ns, Block::Amplifier(bp)),
        block_fresh_targets_below(base_pre, Block::Amplifier(bp)),
        block_fresh(base0, Block::Amplifier(bp)),
        source_ok(base_pre, a1, names_model(ns), src),
        a1.len() + 2 * (n + 1) <= usize::MAX,
    ensures
        ({
            let (ps, na) = crate::blocks::amplifier::spec_update_source(bp.sources@, a1, n, first, src);
            &&& arena_wf(na)
            &&& crate::blocks::unique_owner(na)
            &&& crate::driver::names_wf(na, ns)
            &&& arena_extended(a1, na)
            &&& forall|k: int|
                0 <= k < crate::blocks::spec_pairs_flat(ps).len() ==> (
                #[trigger] crate::blocks::spec_pairs_flat(ps)[k]).target() < na.len()
            &&& forall|k: int|
                0 <= k < crate::blocks::spec_pairs_flat(ps).len() && (
                #[trigger] crate::blocks::spec_pairs_flat(ps)[k]).is_anonymous() ==> (forall|
                    p: int,
                    kk: int,
                |
                    !#[trigger] anon_edge(
                        na,
                        p,
                        kk,
                        crate::blocks::spec_pairs_flat(ps)[k].target(),
                    )) && (forall|e: int|
                    0 <= e < ns.len() ==> (#[trigger] ns[e]).1 != crate::blocks::spec_pairs_flat(
                        ps,
                    )[k].target()) && crate::blocks::spec_pairs_flat(ps)[k].target() >= base0
            &&& forall|k1: int, k2: int|
                0 <= k1 < k2 < crate::blocks::spec_pairs_flat(ps).len() && (
                #[trigger] crate::blocks::spec_pairs_flat(ps)[k1]).is_anonymous() && (
                #[trigger] crate::blocks::spec_pairs_flat(ps)[k2]).is_anonymous()
                    ==> crate::blocks::spec_pairs_flat(ps)[k1].target()
                    != crate::blocks::spec_pairs_flat(ps)[k2].target()
        }),
{
    assert(spec_sources(Block::Amplifier(bp)) == crate::blocks::spec_pairs_flat(bp.sources@));
    crate::blocks::lemma_pairs_flat_len(bp.sources@);
    lemma_pad_facts(bp.sources@, a1, n);
    let padded = crate::blocks::amplifier::spec_pad_pairs(bp.sources@, a1, n);
    let ps0 = padded.0;
    let na = padded.1;
    let pair = if first {
        (src, ps0[n].1)
    } else {
        (ps0[n].0, src)
    };
    let ps = ps0.update(n, pair);
    // no owning edges were added: the new nodes are sourceless constants
    assert forall|p: int, k: int, c: int| #[trigger] anon_edge(na, p, k, c) implies p < a1.len()
        && anon_edge(a1, p, k, c) by {
        if p >= a1.len() {
            assert(spec_sources(na[p].block).len() == 0);
        } else {
            assert(na[p] == a1[p]);
        }
    }
    assert forall|j: int| 0 <= j < na.len() implies #[trigger] crate::blocks::node_wf(na, j) by {
        if j < a1.len() {
            assert(crate::blocks::node_wf(a1, j));
            assert(na[j] == a1[j]);
        } else {
            assert(spec_sources(na[j].block).len() == 0);
        }
    }
    assert forall|e: int, p: int, k: int| 0 <= e < ns.len() implies !#[trigger] anon_edge(
        na,
        p,
        k,
        ns[e].1 as int,
    ) by {
        if anon_edge(na, p, k, ns[e].1 as int) {
            assert(anon_edge(a1, p, k, ns[e].1 as int));
        }
    }
    // classify every flattened slot of the updated pair list
    crate::blocks::lemma_pairs_flat_len(ps);
    crate::blocks::lemma_pairs_flat_len(bp.sources@);
    assert forall|k: int| 0 <= k < crate::blocks::spec_pairs_flat(ps).len() implies slot_class(
        crate::blocks::spec_pairs_flat(ps)[k],
        k,
        bp.sources@,
        n,
        first,
        src,
        base_pre,
        a1.len() as int,
    ) by {
        lemma_flat_slot(ps0, ps, bp.sources@, n, pair, k);
        vstd::arithmetic::div_mod::lemma_fundamental_div_mod(k, 2);
        vstd::arithmetic::div_mod::lemma_mod_bound(k, 2);
        if k / 2 < bp.sources@.len() {
            crate::blocks::lemma_pairs_flat_index(bp.sources@, k / 2);
        }
        if k / 2 == n && n < bp.sources@.len() {
            crate::blocks::lemma_pairs_flat_index(bp.sources@, n);
        }
    }
    let flat = crate::blocks::spec_pairs_flat(ps);
    assert forall|k: int| 0 <= k < flat.len() implies (#[trigger] flat[k]).target() < na.len() by {
        assert(slot_class(flat[k], k, bp.sources@, n, first, src, base_pre, a1.len() as int));
    }
    assert forall|k: int|
        0 <= k < flat.len() && (#[trigger] flat[k]).is_anonymous() implies (forall|p: int, kk: int|
        !#[trigger] anon_edge(na, p, kk, flat[k].target())) && (forall|e: int|
        0 <= e < ns.len() ==> (#[trigger] ns[e]).1 != flat[k].target()) && flat[k].target()
        >= base0 by {
        assert(slot_class(flat[k], k, bp.sources@, n, first, src, base_pre, a1.len() as int));
        assert forall|p: int, kk: int| !#[trigger] anon_edge(na, p, kk, flat[k].target()) by {
            if anon_edge(na, p, kk, flat[k].target()) {
                assert(anon_edge(a1, p, kk, flat[k].target()));
                assert(crate::blocks::node_wf(a1, p));
            }
        }
        assert forall|e: int| 0 <= e < ns.len() implies (#[trigger] ns[e]).1 != flat[k].target()
            by {
            assert(names_model(ns)[e].1 == ns[e].1);
        }
    }
    assert forall|k1: int, k2: int|
        0 <= k1 < k2 < flat.len() && (#[trigger] flat[k1]).is_anonymous() && (
        #[trigger] flat[k2]).is_anonymous() implies flat[k1].target() != flat[k2].target() by {
        assert(slot_class(flat[k1], k1, bp.sources@, n, first, src, base_pre, a1.len() as int));
        assert(slot_class(flat[k2], k2, bp.sources@, n, first, src, base_pre, a1.len() as int));
        lemma_flat_slot(ps0, ps, bp.sources@, n, pair, k1);
        lemma_flat_slot(ps0, ps, bp.sources@, n, pair, k2);
    }
}

/// What a flattened slot of the updated pair list can be: an old slot
/// (kept at its position), the freshly resolved source, or a fresh pad
/// reference whose target is determined by its position.
pub open spec fn slot_class(
    v: SignalSource,
    k: int,
    b_pre: Seq<(SignalSource, SignalSource)>,
    n: int,
    first: bool,
    src: SignalSource,
    base_pre: int,
    a1len: int,
) -> bool {
    ||| (k < 2 * b_pre.len() && v == crate::blocks::spec_pairs_flat(b_pre)[k] && v.target()
        < base_pre)
    ||| (k / 2 == n && (if first {
        k % 2 == 0
    } else {
        k % 2 == 1
    }) && v == src)
    ||| (v matches SignalSource::Anonymous(t) && t == a1len + k - 2 * b_pre.len() && k >= 2
        * b_pre.len())
}

/// Relates a flattened slot of the updated, padded pair list to its
/// class.
proof fn lemma_flat_slot(
    ps0: Seq<(SignalSource, SignalSource)>,
    ps: Seq<(SignalSource, SignalSource)>,
    b_pre: Seq<(SignalSource, SignalSource)>,
    n: int,
    pair: (SignalSource, SignalSource),
    k: int,
)
    requires
        0 <= k < 2 * ps.len(),
        ps == ps0.update(n, pair),
        0 <= n < ps0.len(),
    ensures
        ({
            let kk = k / 2;
            &&& 0 <= kk < ps.len()
            &&& crate::blocks::spec_pairs_flat(ps)[k] == if k % 2 == 0 {
                ps[kk].0
            } else {
                ps[kk].1
            }
            &&& (kk != n ==> ps[kk] == ps0[kk])
            &&& (kk == n ==> ps[kk] == pair)
        }),
{
    vstd::arithmetic::div_mod::lemma_fundamental_div_mod(k, 2);
    let kk = k / 2;
    crate::blocks::lemma_pairs_flat_len(ps);
    crate::blocks::lemma_pairs_flat_index(ps, kk);
}

/// Whether a string's bytes start with a given byte sequence, given
/// byte-for-byte.
fn bytes_prefix(k: &str, p0: u8, p1: u8, p2: u8, rest: Option<(u8, u8, u8, u8)>) -> (r: bool)
    ensures
        ({
            let pb = match rest {
                None => seq![p0, p1, p2],
                Some((a, b, c, dd)) => if dd == 0 {
                    seq![p0, p1, p2, a, b, c]
                } else {
                    seq![p0, p1, p2, a, b, c, dd]
                },
            };
            r == spec_has_prefix(k.spec_bytes(), pb)
        }),
{
    let kb = k.as_bytes();
    let ghost pb = match rest {
        None => seq![p0, p1, p2],
        Some((a, b, c, dd)) => if dd == 0 {
            seq![p0, p1, p2, a, b, c]
        } else {
            seq![p0, p1, p2, a, b, c, dd]
        },
    };
    let plen: usize = match rest {
        None => 3,
        Some((_, _, _, dd)) => if dd == 0 {
            6
        } else {
            7
        },
    };
    if kb.len() < plen {
        return false;
    }
    let ok0 = *vstd::slice::slice_index_get(kb, 0) == p0 && *vstd::slice::slice_index_get(kb, 1)
        == p1 && *vstd::slice::slice_index_get(kb, 2) == p2;
    let ok = match rest {
        None => ok0,
        Some((a, b, c, dd)) => {
            let ok1 = ok0 && *vstd::slice::slice_index_get(kb, 3) == a
                && *vstd::slice::slice_index_get(kb, 4) == b && *vstd::slice::slice_index_get(
                kb,
                5,
            ) == c;
            if dd == 0 {
                ok1
            } else {
                ok1 && *vstd::slice::slice_index_get(kb, 6) == dd
            }
        },
    };
    proof {
        if ok {
            assert(kb@.subrange(0, plen as int) =~= pb);
        } else {
            assert(!(kb@.subrange(0, plen as int) =~= pb)) by {
                if kb@.subrange(0, plen as int) =~= pb {
                    assert(kb@[0] == pb[0] && kb@[1] == pb[1] && kb@[2] == pb[2]);
                    if plen >= 6 {
                        assert(kb@[3] == pb[3] && kb@[4] == pb[4] && kb@[5] == pb[5]);
                    }
                    if plen == 7 {
                        assert(kb@[6] == pb[6]);
                    }
                }
            }
        }
    }
    ok
}

/// Builds an amplifier from its initializer body: no pairs first, then
/// the properties in source order, padding missing pairs with defaults.
pub fn parse_amp_init(init: &InitValue, d: &mut HarmoniconDriver) -> (r: Result<
    AmplifierBlock,
    HarmoniconError,
>)
    requires
        old(d).wf(),
    ensures
        builds_on(*old(d), *final(d)),
        match spec_amp_init(*init, arena_model(old(d).arena@), names_model(old(d).names@)).0 {
            Ok(ps) => r matches Ok(b) && b.sources@ == ps,
            Err(m) => r matches Err(e) && e@ == m,
        },
        arena_model(final(d).arena@) == spec_amp_init(
            *init,
            arena_model(old(d).arena@),
            names_model(old(d).names@),
        ).1,
        r matches Ok(b) ==> crate::driver::registrable(
            final(d).arena@,
            final(d).names@,
            Block::Amplifier(b),
        ) && block_fresh(old(d).arena@.len() as int, Block::Amplifier(b)),
    decreases init, 1int,
{
    let ghost am0 = arena_model(old(d).arena@);
    let ghost nsv = names_model(old(d).names@);
    match init {
        InitValue::Number(_) => Err(
            HarmoniconError::TypeError(
                "amplifier initializer".to_owned(),
                "other initializer".to_owned(),
            ),
        ),
        InitValue::Props(props) => {
            let mut amp = AmplifierBlock::new();
            proof {
                crate::blocks::lemma_pairs_flat_len(amp.sources@);
                assert(spec_amp_init(*init, am0, nsv) == spec_amp_props(
                    Seq::empty(),
                    props@,
                    props@.len() as int,
                    am0,
                    nsv,
                ));
                assert(amp.sources@ =~= Seq::<(SignalSource, SignalSource)>::empty());
            }
            let n = props.len();
            let mut i: usize = 0;
            while i < n
                invariant
                    *init == InitValue::Props(*props),
                    old(d).wf(),
                    d.wf(),
                    d.names == old(d).names,
                    d.output == old(d).output,
                    d.pending == old(d).pending,
                    arena_extended(old(d).arena@, d.arena@),
                    n == props@.len(),
                    i <= n,
                    nsv == names_model(d.names@),
                    am0 == arena_model(old(d).arena@),
                    spec_amp_init(*init, am0, nsv) == spec_amp_props(
                        Seq::empty(),
                        props@,
                        props@.len() as int,
                        am0,
                        nsv,
                    ),
                    spec_amp_props(Seq::empty(), props@, i as int, am0, nsv) == (
                        Ok::<Seq<(SignalSource, SignalSource)>, ErrModel>(amp.sources@),
                        arena_model(d.arena@),
                    ),
                    crate::driver::registrable(d.arena@, d.names@, Block::Amplifier(amp)),
                    block_fresh(old(d).arena@.len() as int, Block::Amplifier(amp)),
                decreases n - i,
            {
                let ghost d_pre = *d;
                let ghost amp_pre = amp.sources@;
                let p = &props[i];
                proof {
                    assert(decreases_to!(*init => *props));
                    assert(decreases_to!(*props => props@));
                    assert(decreases_to!(props@ => props@[i as int]));
                    assert(decreases_to!(props@[i as int] => props@[i as int].value));
                    assert(decreases_to!(*init => p.value));
                    assert(spec_amp_props(Seq::empty(), props@, i + 1, am0, nsv) == spec_amp_prop(
                        amp.sources@,
                        props@[i as int],
                        arena_model(d.arena@),
                        nsv,
                    ));
                }
                let rhs = match parse_param_rhs(&p.value, d) {
                    Ok(s) => s,
                    Err(e) => {
                        proof {
                            assert(spec_amp_props(Seq::empty(), props@, i + 1, am0, nsv).0
                                matches Err(m) && m == e@);
                            lemma_amp_props_err(
                                Seq::empty(),
                                props@,
                                i + 1,
                                props@.len() as int,
                                am0,
                                nsv,
                            );
                        }
                        return Err(e);
                    },
                };
                proof {
                    lemma_registrable_extended(
                        d_pre.arena@,
                        d.arena@,
                        d.names@,
                        Block::Amplifier(amp),
                    );
                }
                let is_source = bytes_prefix(p.key.as_str(), 115, 111, 117, Some((114, 99, 101, 0)));
                let is_src = bytes_prefix(p.key.as_str(), 115, 114, 99, None);
                let is_amplify = bytes_prefix(
                    p.key.as_str(),
                    97,
                    109,
                    112,
                    Some((108, 105, 102, 121)),
                );
                let is_amp = bytes_prefix(p.key.as_str(), 97, 109, 112, None);
                let branch_signal = is_source || is_src;
                let branch_gain = !branch_signal && (is_amplify || is_amp);
                if branch_signal || branch_gain {
                    let skip: usize = if branch_signal {
                        if is_source {
                            6
                        } else {
                            3
                        }
                    } else {
                        if is_amplify {
                            6
                        } else {
                            3
                        }
                    };
                    let nopt = key_digits(p.key.as_str(), skip);
                    match nopt {
                        Some(nn) => {
                            if d.arena.len() <= usize::MAX - 2 * (nn + 1) {
                                let ghost a1 = d.arena@;
                                proof {
                                    lemma_amp_update_wf(
                                        a1,
                                        d.names@,
                                        amp,
                                        nn as int,
                                        branch_signal,
                                        rhs,
                                        d_pre.arena@.len() as int,
                                        old(d).arena@.len() as int,
                                    );
                                }
                                amp.update_source(nn, branch_signal, rhs, &mut d.arena);
                                proof {
                                    lemma_pad_facts(amp_pre, a1, nn as int);
                                    assert(amp.sources@
                                        == crate::blocks::amplifier::spec_update_source(
                                        amp_pre,
                                        a1,
                                        nn as int,
                                        branch_signal,
                                        rhs,
                                    ).0);
                                    assert(d.arena@ == crate::blocks::amplifier::spec_update_source(
                                        amp_pre,
                                        a1,
                                        nn as int,
                                        branch_signal,
                                        rhs,
                                    ).1);
                                    assert(spec_sources(Block::Amplifier(amp))
                                        == crate::blocks::spec_pairs_flat(amp.sources@));
                                    assert(amp.sources@ == spec_update_model(
                                        amp_pre,
                                        arena_model(a1),
                                        nn as int,
                                        branch_signal,
                                        rhs,
                                    ).0);
                                    assert(arena_model(d.arena@) =~= spec_update_model(
                                        amp_pre,
                                        arena_model(a1),
                                        nn as int,
                                        branch_signal,
                                        rhs,
                                    ).1);
                                    lemma_extended_trans(old(d).arena@, d_pre.arena@, a1);
                                    lemma_extended_trans(old(d).arena@, a1, d.arena@);
                                    assert(crate::driver::registrable(
                                        d.arena@,
                                        d.names@,
                                        Block::Amplifier(amp),
                                    ));
                                    assert(d.wf());
                                }
                            } else {
                                proof {
                                    assert(spec_amp_props(Seq::empty(), props@, i + 1, am0, nsv).0
                                        matches Err(m) && m == ErrModel::UnknownProperty(
                                        p.key@,
                                        "amplifier"@,
                                    ));
                                    lemma_amp_props_err(
                                        Seq::empty(),
                                        props@,
                                        i + 1,
                                        props@.len() as int,
                                        am0,
                                        nsv,
                                    );
                                }
                                return Err(
                                    HarmoniconError::UnknownProperty(
                                        p.key.clone(),
                                        "amplifier".to_owned(),
                                    ),
                                );
                            }
                        },
                        None => {
                            proof {
                                assert(spec_amp_props(Seq::empty(), props@, i + 1, am0, nsv).0
                                    matches Err(m) && m == ErrModel::UnknownProperty(
                                    p.key@,
                                    "amplifier"@,
                                ));
                                lemma_amp_props_err(
                                    Seq::empty(),
                                    props@,
                                    i + 1,
                                    props@.len() as int,
                                    am0,
                                    nsv,
                                );
                            }
                            return Err(
                                HarmoniconError::UnknownProperty(
                                    p.key.clone(),
                                    "amplifier".to_owned(),
                                ),
                            );
                        },
                    }
                } else {
                    proof {
                        assert(spec_amp_props(Seq::empty(), props@, i + 1, am0, nsv).0 matches Err(
                            m,
                        ) && m == ErrModel::UnknownProperty(p.key@, "amplifier"@));
                        lemma_amp_props_err(
                            Seq::empty(),
                            props@,
                            i + 1,
                            props@.len() as int,
                            am0,
                            nsv,
                        );
                    }
                    return Err(
                        HarmoniconError::UnknownProperty(p.key.clone(), "amplifier".to_owned()),
                    );
                }
                proof {
                    assert(spec_amp_props(Seq::empty(), props@, i + 1, am0, nsv) == (
                        Ok::<Seq<(SignalSource, SignalSource)>, ErrModel>(amp.sources@),
                        arena_model(d.arena@),
                    ));
                }
                i = i + 1;
            }
            Ok(amp)
        },
    }
}

} // verus!
