//! The registry and stepping engine: the live graph.
//!
//! A [`HarmoniconDriver`] owns the block arena, a name registry over it,
//! and the designated output block. The engine advances every registered
//! block (and, through it, every block it owns) exactly once per sample
//! tick, then reads a stereo sample pair from the output block. A
//! freshly compiled replacement driver can be swapped in while playing;
//! the hot-reload synchronizer first carries the running state of
//! name-matched blocks over to the replacement.
use vstd::prelude::*;

verus! {

use crate::SCALE;
use crate::blocks::{
    anon_edge, arena_wf, same_shape, same_shape_node, spec_sources, unique_owner, Block, Node,
    SignalSource, str_eq,
};

/// The name registry plus arena plus output selection: the live graph,
/// and the half-emitted sample pair of the pull protocol.
#[derive(Debug)]
pub struct HarmoniconDriver {
    /// Every block of the graph, anonymous ones included; references are
    /// indices into this arena and always point backwards.
    pub arena: Vec<Node>,
    /// Registered names in registration order, each mapping to its
    /// block; names are unique, two names may share a block (aliases).
    pub names: Vec<(String, usize)>,
    /// The designated output block.
    pub output: usize,
    /// A produced right-channel sample waiting to be pulled.
    pub pending: Option<i64>,
}

/// The index of the first registry entry carrying `name`, or the
/// registry length when the name is free.
pub open spec fn spec_name_index(ns: Seq<(String, usize)>, name: Seq<char>) -> int
    decreases ns.len(),
{
    if ns.len() == 0 {
        0
    } else if ns[0].0@ == name {
        0
    } else {
        1 + spec_name_index(ns.subrange(1, ns.len() as int), name)
    }
}

/// The block registered under `name`, if any.
pub open spec fn spec_lookup(ns: Seq<(String, usize)>, name: Seq<char>) -> Option<usize> {
    let ix = spec_name_index(ns, name);
    if ix < ns.len() {
        Some(ns[ix].1)
    } else {
        None
    }
}

/// The registry after binding `name` to a block: an existing entry is
/// replaced in place, a new name is appended.
pub open spec fn spec_names_insert(ns: Seq<(String, usize)>, pair: (String, usize)) -> Seq<
    (String, usize),
> {
    let ix = spec_name_index(ns, pair.0@);
    if ix < ns.len() {
        ns.update(ix, pair)
    } else {
        ns.push(pair)
    }
}

/// The registry invariant against an arena: every binding maps into the
/// arena, names are unique, and no registered block is owned by another
/// block (registered blocks are stepped by the driver alone).
pub open spec fn names_wf(a: Seq<Node>, ns: Seq<(String, usize)>) -> bool {
    &&& forall|e: int| 0 <= e < ns.len() ==> (#[trigger] ns[e]).1 < a.len()
    &&& forall|e1: int, e2: int|
        0 <= e1 < e2 < ns.len() ==> (#[trigger] ns[e1]).0@ != (#[trigger] ns[e2]).0@
    &&& forall|e: int, p: int, k: int|
        0 <= e < ns.len() ==> !#[trigger] anon_edge(a, p, k, ns[e].1 as int)
}

/// What a block must satisfy to be registered on top of an arena:
/// its references point into the arena, an oscillator's phase is in
/// range, and each of its owned targets is owned by nobody else — not by
/// an existing block, not by another of its own slots — and is not a
/// registered block.
pub open spec fn registrable(a: Seq<Node>, ns: Seq<(String, usize)>, block: Block) -> bool {
    &&& forall|k: int|
        0 <= k < spec_sources(block).len() ==> (#[trigger] spec_sources(block)[k]).target()
            < a.len()
    &&& (block matches Block::Oscillator(o) ==> 0 <= o.phase < SCALE)
    &&& forall|k: int, p: int, kk: int|
        0 <= k < spec_sources(block).len() && (#[trigger] spec_sources(block)[k]).is_anonymous()
            ==> !#[trigger] anon_edge(a, p, kk, spec_sources(block)[k].target())
    &&& forall|k1: int, k2: int|
        0 <= k1 < k2 < spec_sources(block).len() && (#[trigger] spec_sources(
            block,
        )[k1]).is_anonymous() && (#[trigger] spec_sources(block)[k2]).is_anonymous()
            ==> spec_sources(block)[k1].target() != spec_sources(block)[k2].target()
    &&& forall|k: int, e: int|
        0 <= k < spec_sources(block).len() && (#[trigger] spec_sources(block)[k]).is_anonymous()
            && 0 <= e < ns.len() ==> spec_sources(block)[k].target() != (#[trigger] ns[e]).1
}

/// Pushing a registrable block keeps the arena well-formed and keeps
/// ownership unique.
pub proof fn lemma_register_arena_wf(a: Seq<Node>, ns: Seq<(String, usize)>, block: Block)
    requires
        arena_wf(a),
        unique_owner(a),
        registrable(a, ns, block),
    ensures
        arena_wf(a.push(Node { block, steps: 0u64 })),
        unique_owner(a.push(Node { block, steps: 0u64 })),
{
    let a1 = a.push(Node { block, steps: 0u64 });
    assert forall|i: int| 0 <= i < a1.len() implies #[trigger] crate::blocks::node_wf(a1, i) by {
        if i < a.len() {
            assert(crate::blocks::node_wf(a, i));
            assert(a1[i] == a[i]);
        } else {
            assert(a1[i].block == block);
        }
    }
    assert forall|p1: int, k1: int, p2: int, k2: int, c: int|
        #[trigger] anon_edge(a1, p1, k1, c) && #[trigger] anon_edge(a1, p2, k2, c) implies p1 == p2
        && k1 == k2 by {
        if p1 < a.len() && p2 < a.len() {
            assert(a1[p1] == a[p1] && a1[p2] == a[p2]);
            assert(anon_edge(a, p1, k1, c) && anon_edge(a, p2, k2, c));
        } else if p1 < a.len() {
            assert(a1[p2].block == block);
            assert(anon_edge(a, p1, k1, c));
            assert(spec_sources(block)[k2].is_anonymous());
        } else if p2 < a.len() {
            assert(a1[p1].block == block);
            assert(anon_edge(a, p2, k2, c));
            assert(spec_sources(block)[k1].is_anonymous());
        } else {
            assert(a1[p1].block == block && a1[p2].block == block);
            if k1 != k2 {
                if k1 < k2 {
                    assert(spec_sources(block)[k1].target() != spec_sources(block)[k2].target());
                } else {
                    assert(spec_sources(block)[k2].target() != spec_sources(block)[k1].target());
                }
            }
        }
    }
}

/// Inserting a binding preserves the registry invariant, provided the
/// bound block lies in the arena and is owned by nobody.
pub proof fn lemma_names_insert_wf(
    a: Seq<Node>,
    ns: Seq<(String, usize)>,
    pair: (String, usize),
)
    requires
        names_wf(a, ns),
        pair.1 < a.len(),
        forall|p: int, k: int| !#[trigger] anon_edge(a, p, k, pair.1 as int),
    ensures
        names_wf(a, spec_names_insert(ns, pair)),
{
    lemma_name_index_range(ns, pair.0@);
    let ix = spec_name_index(ns, pair.0@);
    let r = spec_names_insert(ns, pair);
    assert forall|e1: int, e2: int| 0 <= e1 < e2 < r.len() implies (#[trigger] r[e1]).0@ != (
    #[trigger] r[e2]).0@ by {
        if ix < ns.len() {
            assert(ns[ix].0@ == pair.0@);
            if e1 != ix && e2 != ix {
                assert(r[e1] == ns[e1] && r[e2] == ns[e2]);
            }
        } else {
            if e2 == ns.len() {
                assert(r[e1] == ns[e1]);
                assert(ns[e1].0@ != pair.0@);
            }
        }
    }
}

/// Inserts a binding into a registry vector: replaces the entry carrying
/// the same name, or appends a new entry.
pub fn names_insert(ns: &mut Vec<(String, usize)>, name: String, id: usize)
    ensures
        final(ns)@ == spec_names_insert(old(ns)@, (name, id)),
{
    proof {
        lemma_name_index_range(ns@, name@);
    }
    let n = ns.len();
    let mut e: usize = 0;
    while e < n
        invariant
            e <= n,
            n == ns@.len(),
            ns@ == old(ns)@,
            forall|j: int| 0 <= j < e ==> (#[trigger] ns@[j]).0@ != name@,
        decreases n - e,
    {
        if str_eq(ns[e].0.as_str(), name.as_str()) {
            proof {
                lemma_str_bytes_eq(ns@[e as int].0@, name@);
                lemma_name_index_skip(ns@, name@, e as int);
                let tail = ns@.subrange(e as int, n as int);
                assert(tail[0] == ns@[e as int]);
                assert(spec_name_index(ns@, name@) == e);
            }
            ns.set(e, (name, id));
            return ;
        }
        proof {
            lemma_str_bytes_neq(ns@[e as int].0@, name@);
        }
        e = e + 1;
    }
    proof {
        lemma_name_index_skip(ns@, name@, n as int);
        assert(ns@.subrange(n as int, n as int).len() == 0);
        assert(spec_name_index(ns@, name@) == n);
    }
    ns.push((name, id));
}

/// The name index never runs past the registry and lands on the name.
pub proof fn lemma_name_index_range(ns: Seq<(String, usize)>, name: Seq<char>)
    ensures
        0 <= spec_name_index(ns, name) <= ns.len(),
        spec_name_index(ns, name) < ns.len() ==> ns[spec_name_index(ns, name)].0@ == name,
        forall|e: int|
            0 <= e < spec_name_index(ns, name) ==> (#[trigger] ns[e]).0@ != name,
    decreases ns.len(),
{
    if ns.len() > 0 && ns[0].0@ != name {
        lemma_name_index_range(ns.subrange(1, ns.len() as int), name);
        assert forall|e: int| 0 <= e < spec_name_index(ns, name) implies (#[trigger] ns[e]).0@
            != name by {
            if e > 0 {
                assert(ns.subrange(1, ns.len() as int)[e - 1] == ns[e]);
            }
        }
    }
}

/// Scanning over non-matching entries does not change the name index.
pub proof fn lemma_name_index_skip(ns: Seq<(String, usize)>, name: Seq<char>, i: int)
    requires
        0 <= i <= ns.len(),
        forall|e: int| 0 <= e < i ==> (#[trigger] ns[e]).0@ != name,
    ensures
        spec_name_index(ns, name) == i + spec_name_index(
            ns.subrange(i, ns.len() as int),
            name,
        ),
    decreases i,
{
    if i == 0 {
        assert(ns.subrange(0, ns.len() as int) =~= ns);
    } else {
        lemma_name_index_skip(ns, name, i - 1);
        let tail1 = ns.subrange(i - 1, ns.len() as int);
        let tail2 = ns.subrange(i, ns.len() as int);
        assert(tail1[0] == ns[i - 1]);
        assert(tail1.subrange(1, tail1.len() as int) =~= tail2);
        assert(spec_name_index(tail1, name) == 1 + spec_name_index(tail2, name));
    }
}

impl HarmoniconDriver {
    /// The driver invariant: the arena is well-formed (references point
    /// backwards, oscillator phases are in range), every block has at
    /// most one owner, names are unique and map into the arena, no
    /// registered block is owned by another block, and the output lies
    /// in the arena.
    pub open spec fn wf(&self) -> bool {
        &&& arena_wf(self.arena@)
        &&& unique_owner(self.arena@)
        &&& self.output < self.arena@.len()
        &&& names_wf(self.arena@, self.names@)
    }

    /// An empty graph: no names, and a silent constant as the output.
    pub fn new() -> (r: HarmoniconDriver)
        ensures
            r.wf(),
            r.arena@.len() == 1,
            r.names@.len() == 0,
            r.pending is None,
            r.output == 0,
            r.arena@[0].block matches Block::Constant(c) && c.val == 0,
            r.arena@[0].steps == 0,
    {
        let mut arena: Vec<Node> = Vec::new();
        arena.push(
            Node {
                block: Block::Constant(crate::blocks::constant::ConstantBlock::zero()),
                steps: 0,
            },
        );
        let r = HarmoniconDriver { arena, names: Vec::new(), output: 0, pending: None };
        proof {
            assert(r.wf()) by {
                assert forall|i: int| 0 <= i < r.arena@.len() implies #[trigger]
                    crate::blocks::node_wf(r.arena@, i) by {}
            }
        }
        r
    }

    /// Selects the output block.
    pub fn set_output(&mut self, output: usize)
        requires
            old(self).wf(),
            output < old(self).arena@.len(),
        ensures
            final(self).wf(),
            final(self).arena == old(self).arena,
            final(self).names == old(self).names,
            final(self).pending == old(self).pending,
            final(self).output == output,
    {
        self.output = output;
    }

    /// Appends an anonymously owned block to the arena without naming
    /// it; the caller's reference will be its sole owner. Returns the
    /// new block's arena index.
    pub fn create_block(&mut self, block: Block) -> (r: usize)
        requires
            old(self).wf(),
            registrable(old(self).arena@, old(self).names@, block),
        ensures
            final(self).wf(),
            r == old(self).arena@.len(),
            final(self).arena@ == old(self).arena@.push(Node { block, steps: 0u64 }),
            final(self).names == old(self).names,
            final(self).output == old(self).output,
            final(self).pending == old(self).pending,
            forall|p: int, k: int| !#[trigger] anon_edge(final(self).arena@, p, k, r as int),
    {
        let ghost a0 = self.arena@;
        let ghost ns0 = self.names@;
        let ghost blk = block;
        let id = self.arena.len();
        self.arena.push(Node { block, steps: 0 });
        proof {
            lemma_register_arena_wf(a0, ns0, blk);
            assert forall|p: int, k: int| !#[trigger] anon_edge(
                self.arena@,
                p,
                k,
                id as int,
            ) by {
                if anon_edge(self.arena@, p, k, id as int) {
                    assert(crate::blocks::node_wf(self.arena@, p));
                }
            }
            assert(names_wf(self.arena@, ns0)) by {
                assert forall|e: int, p: int, k: int| 0 <= e < ns0.len() implies !#[trigger]
                    anon_edge(self.arena@, p, k, ns0[e].1 as int) by {
                    if anon_edge(self.arena@, p, k, ns0[e].1 as int) {
                        if p < a0.len() {
                            assert(anon_edge(a0, p, k, ns0[e].1 as int));
                        } else {
                            assert(self.arena@[p].block == blk);
                        }
                    }
                }
            }
        }
        id
    }

    /// Registers a block under a name, appending it to the arena; the
    /// name binding replaces an earlier binding of the same name.
    /// Returns the new block's arena index.
    pub fn register_block(&mut self, name: String, block: Block) -> (r: usize)
        requires
            old(self).wf(),
            registrable(old(self).arena@, old(self).names@, block),
        ensures
            final(self).wf(),
            r == old(self).arena@.len(),
            final(self).arena@ == old(self).arena@.push(Node { block, steps: 0u64 }),
            final(self).names@ == spec_names_insert(old(self).names@, (name, r)),
            final(self).output == old(self).output,
            final(self).pending == old(self).pending,
    {
        let ghost a0 = self.arena@;
        let ghost ns0 = self.names@;
        let ghost blk = block;
        let id = self.arena.len();
        self.arena.push(Node { block, steps: 0 });
        proof {
            lemma_register_arena_wf(a0, ns0, blk);
            assert(forall|p: int, k: int| !#[trigger] anon_edge(self.arena@, p, k, id as int))
                by {
                assert forall|p: int, k: int| !#[trigger] anon_edge(
                    self.arena@,
                    p,
                    k,
                    id as int,
                ) by {
                    if anon_edge(self.arena@, p, k, id as int) {
                        assert(crate::blocks::node_wf(self.arena@, p));
                    }
                }
            }
            assert(names_wf(self.arena@, ns0)) by {
                assert forall|e: int, p: int, k: int| 0 <= e < ns0.len() implies !#[trigger]
                    anon_edge(self.arena@, p, k, ns0[e].1 as int) by {
                    if anon_edge(self.arena@, p, k, ns0[e].1 as int) {
                        if p < a0.len() {
                            assert(anon_edge(a0, p, k, ns0[e].1 as int));
                        } else {
                            assert(self.arena@[p].block == blk);
                        }
                    }
                }
            }
            lemma_names_insert_wf(self.arena@, ns0, (name, id));
        }
        names_insert(&mut self.names, name, id);
        id
    }

    /// Adds `alias` as a second name for the block registered under
    /// `name`; returns its index, or `None` when `name` is unknown.
    pub fn alias_block(&mut self, name: &str, alias: String) -> (r: Option<usize>)
        requires
            old(self).wf(),
        ensures
            final(self).wf(),
            r == spec_lookup(old(self).names@, name@),
            final(self).arena == old(self).arena,
            final(self).output == old(self).output,
            final(self).pending == old(self).pending,
            match spec_lookup(old(self).names@, name@) {
                Some(id) => final(self).names@ == spec_names_insert(
                    old(self).names@,
                    (alias, id),
                ),
                None => final(self).names == old(self).names,
            },
    {
        let found = self.get_block(name);
        match found {
            Some(id) => {
                proof {
                    lemma_name_index_range(self.names@, name@);
                    let ix = spec_name_index(self.names@, name@);
                    assert(self.names@[ix].1 == id);
                    lemma_names_insert_wf(self.arena@, self.names@, (alias, id));
                }
                names_insert(&mut self.names, alias, id);
                Some(id)
            },
            None => None,
        }
    }

    /// Hot reload: carries runtime state from this (old) graph into the
    /// freshly compiled `new_driver` wherever a registered name is
    /// present in both and the two blocks carry the same variant tag,
    /// then swaps the new graph in. The half-emitted sample pair is
    /// kept so the pull protocol stays aligned.
    pub fn update(&mut self, new_driver: HarmoniconDriver)
        requires
            old(self).wf(),
            new_driver.wf(),
        ensures
            final(self).wf(),
            final(self).arena@ == spec_sync_all(
                new_driver.arena@,
                new_driver.names@,
                new_driver.names@.len() as int,
                old(self).arena@,
                old(self).names@,
            ),
            final(self).names@ == new_driver.names@,
            final(self).output == new_driver.output,
            final(self).pending == old(self).pending,
    {
        let mut nd = new_driver;
        let ghost na0 = nd.arena@;
        let ghost nn0 = nd.names@;
        let n = nd.names.len();
        let mut e: usize = 0;
        while e < n
            invariant
                e <= n,
                n == nn0.len(),
                nd.names@ == nn0,
                nd.output == new_driver.output,
                *self == *old(self),
                old(self).wf(),
                arena_wf(na0),
                unique_owner(na0),
                names_wf(na0, nn0),
                new_driver.output < na0.len(),
                arena_wf(nd.arena@),
                nd.arena@.len() == na0.len(),
                same_shape(na0, nd.arena@),
                nd.arena@ == spec_sync_all(na0, nn0, e as int, old(self).arena@, old(self).names@),
            decreases n - e,
        {
            let nid = nd.names[e].1;
            let found = self.get_block(nd.names[e].0.as_str());
            match found {
                Some(oid) => {
                    proof {
                        lemma_name_index_range(old(self).names@, nn0[e as int].0@);
                        assert(oid < self.arena@.len());
                    }
                    let tn = nd.arena[nid].block.block_type();
                    let to = self.arena[oid].block.block_type();
                    if tn == to {
                        crate::blocks::sync_from(&mut nd.arena, nid, &self.arena, oid);
                        proof {
                            crate::blocks::lemma_same_shape_trans(
                                na0,
                                spec_sync_all(
                                    na0,
                                    nn0,
                                    e as int,
                                    old(self).arena@,
                                    old(self).names@,
                                ),
                                nd.arena@,
                            );
                        }
                    }
                },
                None => {},
            }
            proof {
                assert(nd.arena@ == spec_sync_all(
                    na0,
                    nn0,
                    e + 1,
                    old(self).arena@,
                    old(self).names@,
                ));
            }
            e = e + 1;
        }
        self.arena = nd.arena;
        self.names = nd.names;
        self.output = nd.output;
        proof {
            crate::blocks::lemma_unique_shape(na0, self.arena@);
            assert(names_wf(self.arena@, self.names@)) by {
                assert forall|ee: int, p: int, k: int| 0 <= ee < self.names@.len() implies !
                #[trigger] anon_edge(self.arena@, p, k, self.names@[ee].1 as int) by {
                    if anon_edge(self.arena@, p, k, self.names@[ee].1 as int) {
                        crate::blocks::lemma_same_shape_node_sources(
                            na0[p],
                            self.arena@[p],
                        );
                        assert(anon_edge(na0, p, k, self.names@[ee].1 as int));
                    }
                }
            }
        }
    }

    /// Produces the next sample of the interleaved stereo stream: a left
    /// sample on one call, the matching right sample on the next. At the
    /// start of a sample pair the engine first swaps in a pending
    /// replacement graph, if one was handed over, then steps every
    /// registered block (each exactly once) and reads the output block.
    pub fn next_sample(&mut self, incoming: Option<HarmoniconDriver>) -> (r: i64)
        requires
            old(self).wf(),
            incoming matches Some(d) ==> d.wf() && old(self).pending is None,
        ensures
            final(self).wf(),
            old(self).pending matches Some(v) ==> r == v && final(self).pending is None
                && final(self).arena == old(self).arena && final(self).names == old(self).names
                && final(self).output == old(self).output,
            old(self).pending is None ==> {
                let after = spec_after_update(*old(self), incoming);
                let ticked = spec_tick(after.0, after.1, after.1.len() as int);
                &&& final(self).arena@ == ticked
                &&& final(self).names@ == after.1
                &&& final(self).output == after.2
                &&& r == crate::blocks::spec_get(
                    ticked,
                    after.2 as int,
                    crate::blocks::Channel::Left,
                )
                &&& final(self).pending == Some(
                    crate::blocks::spec_get(ticked, after.2 as int, crate::blocks::Channel::Right),
                )
            },
    {
        let pending = self.pending;
        if let Some(v) = pending {
            self.pending = None;
            return v;
        }
        if let Some(nd) = incoming {
            self.update(nd);
        }
        let ghost abase = self.arena@;
        let ghost nsb = self.names@;
        let ghost outb = self.output;
        let n = self.names.len();
        let mut e: usize = 0;
        while e < n
            invariant
                e <= n,
                n == self.names@.len(),
                self.names@ == nsb,
                self.output == outb,
                self.pending is None,
                arena_wf(abase),
                names_wf(abase, nsb),
                outb < abase.len(),
                arena_wf(self.arena@),
                unique_owner(abase),
                self.arena@.len() == abase.len(),
                same_shape(abase, self.arena@),
                self.arena@ == spec_tick(abase, nsb, e as int),
            decreases n - e,
        {
            let id = self.names[e].1;
            let mut dup = false;
            let mut j: usize = 0;
            while j < e
                invariant
                    j <= e,
                    e < n,
                    n == self.names@.len(),
                    self.names@ == nsb,
                    id == nsb[e as int].1,
                    dup == exists|jj: int| 0 <= jj < j && (#[trigger] nsb[jj]).1 == nsb[e as int].1,
                decreases e - j,
            {
                if self.names[j].1 == id {
                    dup = true;
                }
                j = j + 1;
            }
            if !dup {
                crate::blocks::step_node(&mut self.arena, id);
                proof {
                    crate::blocks::lemma_same_shape_trans(
                        abase,
                        spec_tick(abase, nsb, e as int),
                        self.arena@,
                    );
                }
            }
            proof {
                assert(self.arena@ == spec_tick(abase, nsb, e + 1));
            }
            e = e + 1;
        }
        let left = crate::blocks::get_channel(&self.arena, self.output, crate::blocks::Channel::Left);
        let right = crate::blocks::get_channel(
            &self.arena,
            self.output,
            crate::blocks::Channel::Right,
        );
        self.pending = Some(right);
        proof {
            crate::blocks::lemma_unique_shape(abase, self.arena@);
            assert(names_wf(self.arena@, self.names@)) by {
                assert forall|ee: int, p: int, k: int| 0 <= ee < self.names@.len() implies !
                #[trigger] anon_edge(self.arena@, p, k, self.names@[ee].1 as int) by {
                    if anon_edge(self.arena@, p, k, self.names@[ee].1 as int) {
                        crate::blocks::lemma_same_shape_node_sources(
                            abase[p],
                            self.arena@[p],
                        );
                        assert(anon_edge(abase, p, k, self.names@[ee].1 as int));
                    }
                }
            }
        }
        left
    }

    /// Whether a buffered right-channel sample is waiting; while one is,
    /// the engine accepts no replacement graph.
    pub fn has_pending(&self) -> (r: bool)
        ensures
            r == (self.pending is Some),
    {
        self.pending.is_some()
    }

    /// Looks a name up in the registry.
    pub fn get_block(&self, name: &str) -> (r: Option<usize>)
        ensures
            r == spec_lookup(self.names@, name@),
    {
        let n = self.names.len();
        let mut e: usize = 0;
        while e < n
            invariant
                e <= n,
                n == self.names@.len(),
                forall|j: int| 0 <= j < e ==> (#[trigger] self.names@[j]).0@ != name@,
            decreases n - e,
        {
            if str_eq(self.names[e].0.as_str(), name) {
                proof {
                    lemma_str_bytes_eq(self.names@[e as int].0@, name@);
                    lemma_name_index_skip(self.names@, name@, e as int);
                    let tail = self.names@.subrange(e as int, n as int);
                    assert(tail[0] == self.names@[e as int]);
                }
                return Some(self.names[e].1);
            }
            proof {
                lemma_str_bytes_neq(self.names@[e as int].0@, name@);
            }
            e = e + 1;
        }
        proof {
            lemma_name_index_skip(self.names@, name@, n as int);
            assert(self.names@.subrange(n as int, n as int).len() == 0);
        }
        None
    }
}

/// The graph a sample pair is produced from: the driver's own graph, or,
/// when a replacement arrived, the replacement with the old graph's
/// runtime state carried over (arena, registry, output selection).
pub open spec fn spec_after_update(d: HarmoniconDriver, incoming: Option<HarmoniconDriver>) -> (
    Seq<Node>,
    Seq<(String, usize)>,
    usize,
) {
    match incoming {
        None => (d.arena@, d.names@, d.output),
        Some(x) => (
            spec_sync_all(x.arena@, x.names@, x.names@.len() as int, d.arena@, d.names@),
            x.names@,
            x.output,
        ),
    }
}

/// The arena after the hot-reload synchronizer has processed the first
/// `k` bindings of the new registry, in registration order: for each new
/// name also present in the old registry whose two blocks carry the same
/// variant tag, the new block takes over the old block's state.
pub open spec fn spec_sync_all(
    na: Seq<Node>,
    nn: Seq<(String, usize)>,
    k: int,
    oa: Seq<Node>,
    on: Seq<(String, usize)>,
) -> Seq<Node>
    decreases k,
{
    if k <= 0 {
        na
    } else {
        let a1 = spec_sync_all(na, nn, k - 1, oa, on);
        let nid = nn[k - 1].1 as int;
        match spec_lookup(on, nn[k - 1].0@) {
            Some(oid) => {
                if nid < a1.len() && oid < oa.len() && a1[nid].block.spec_block_type()
                    == oa[oid as int].block.spec_block_type() {
                    crate::blocks::spec_sync(a1, nid, oa, oid as int)
                } else {
                    a1
                }
            },
            None => a1,
        }
    }
}

/// The synchronizer pass preserves the new arena's length, shape and
/// well-formedness.
pub proof fn lemma_sync_all_shape(
    na: Seq<Node>,
    nn: Seq<(String, usize)>,
    k: int,
    oa: Seq<Node>,
    on: Seq<(String, usize)>,
)
    requires
        arena_wf(na),
        arena_wf(oa),
    ensures
        spec_sync_all(na, nn, k, oa, on).len() == na.len(),
        same_shape(na, spec_sync_all(na, nn, k, oa, on)),
        arena_wf(spec_sync_all(na, nn, k, oa, on)),
    decreases k,
{
    if k <= 0 {
        crate::blocks::lemma_same_shape_refl(na);
    } else {
        lemma_sync_all_shape(na, nn, k - 1, oa, on);
        let a1 = spec_sync_all(na, nn, k - 1, oa, on);
        let nid = nn[k - 1].1 as int;
        match spec_lookup(on, nn[k - 1].0@) {
            Some(oid) => {
                if nid < a1.len() && oid < oa.len() && a1[nid].block.spec_block_type()
                    == oa[oid as int].block.spec_block_type() {
                    crate::blocks::lemma_sync_shape(a1, nid, oa, oid as int);
                    crate::blocks::lemma_same_shape_trans(
                        na,
                        a1,
                        spec_sync_all(na, nn, k, oa, on),
                    );
                }
            },
            None => {},
        }
    }
}

/// The arena after the first `k` registry entries have been stepped:
/// each distinct registered block is stepped once; a second name bound
/// to an already-stepped block is skipped.
pub open spec fn spec_tick(a: Seq<Node>, ns: Seq<(String, usize)>, k: int) -> Seq<Node>
    decreases k,
{
    if k <= 0 {
        a
    } else {
        let a1 = spec_tick(a, ns, k - 1);
        let id = ns[k - 1].1 as int;
        if (exists|j: int| 0 <= j < k - 1 && (#[trigger] ns[j]).1 == ns[k - 1].1) || !(id
            < a1.len()) {
            a1
        } else {
            crate::blocks::spec_step_node(a1, id)
        }
    }
}

/// The tick preserves the arena's length, shape and well-formedness.
pub proof fn lemma_tick_shape(a: Seq<Node>, ns: Seq<(String, usize)>, k: int)
    requires
        arena_wf(a),
    ensures
        spec_tick(a, ns, k).len() == a.len(),
        same_shape(a, spec_tick(a, ns, k)),
        arena_wf(spec_tick(a, ns, k)),
    decreases k,
{
    if k <= 0 {
        crate::blocks::lemma_same_shape_refl(a);
    } else {
        lemma_tick_shape(a, ns, k - 1);
        let a1 = spec_tick(a, ns, k - 1);
        let id = ns[k - 1].1 as int;
        if !((exists|j: int| 0 <= j < k - 1 && (#[trigger] ns[j]).1 == ns[k - 1].1) || !(id
            < a1.len())) {
            crate::blocks::lemma_step_shape(a1, id);
            crate::blocks::lemma_same_shape_trans(a, a1, spec_tick(a, ns, k));
        }
    }
}

/// The at-most-once stepping law: one tick advances every block at most
/// once — a registered block, and every block it transitively owns,
/// exactly once; every other block not at all. `reach(a, r, d)` collects
/// the blocks advanced through root `r`.
pub proof fn lemma_tick_at_most_once(a: Seq<Node>, ns: Seq<(String, usize)>, k: int)
    requires
        arena_wf(a),
        unique_owner(a),
        names_wf(a, ns),
        0 <= k <= ns.len(),
    ensures
        forall|d: int|
            0 <= d < a.len() ==> #[trigger] spec_tick(a, ns, k)[d].steps == if (exists|e: int|
                0 <= e < k && crate::blocks::reach(a, (#[trigger] ns[e]).1 as int, d)) {
                crate::blocks::bump_steps(a[d].steps)
            } else {
                a[d].steps
            },
    decreases k,
{
    if k > 0 {
        lemma_tick_at_most_once(a, ns, k - 1);
        lemma_tick_shape(a, ns, k - 1);
        let a1 = spec_tick(a, ns, k - 1);
        let id = ns[k - 1].1 as int;
        let dup = exists|j: int| 0 <= j < k - 1 && (#[trigger] ns[j]).1 == ns[k - 1].1;
        assert forall|d: int| 0 <= d < a.len() implies #[trigger] spec_tick(a, ns, k)[d].steps
            == if (exists|e: int|
            0 <= e < k && crate::blocks::reach(a, (#[trigger] ns[e]).1 as int, d)) {
            crate::blocks::bump_steps(a[d].steps)
        } else {
            a[d].steps
        } by {
            if dup || !(id < a1.len()) {
                assert(id < a.len());
                assert(spec_tick(a, ns, k) == a1);
                if exists|e: int|
                    0 <= e < k && crate::blocks::reach(a, (#[trigger] ns[e]).1 as int, d) {
                    let e = choose|e: int|
                        0 <= e < k && crate::blocks::reach(a, (#[trigger] ns[e]).1 as int, d);
                    if e == k - 1 {
                        let j = choose|j: int|
                            0 <= j < k - 1 && (#[trigger] ns[j]).1 == ns[k - 1].1;
                        assert(crate::blocks::reach(a, ns[j].1 as int, d));
                    }
                }
            } else {
                crate::blocks::lemma_unique_shape(a, a1);
                crate::blocks::lemma_step_counts(a1, id);
                crate::blocks::lemma_reach_shape(a, a1, id, d);
                if crate::blocks::reach(a, id, d) && (exists|e: int|
                    0 <= e < k - 1 && crate::blocks::reach(a, (#[trigger] ns[e]).1 as int, d)) {
                    let e = choose|e: int|
                        0 <= e < k - 1 && crate::blocks::reach(a, (#[trigger] ns[e]).1 as int, d);
                    assert(ns[e].1 != ns[k - 1].1);
                    crate::blocks::lemma_roots_disjoint(a, ns[e].1 as int, id, d);
                }
                if crate::blocks::reach(a, id, d) {
                    assert(a1[d].steps == a[d].steps);
                    assert(spec_tick(a, ns, k)[d].steps == crate::blocks::bump_steps(
                        a1[d].steps,
                    ));
                } else {
                    if exists|e: int|
                        0 <= e < k && crate::blocks::reach(a, (#[trigger] ns[e]).1 as int, d) {
                        let e = choose|e: int|
                            0 <= e < k && crate::blocks::reach(
                                a,
                                (#[trigger] ns[e]).1 as int,
                                d,
                            );
                        assert(e < k - 1);
                    }
                }
            }
        }
    }
}

/// The state transfer writes only at or below its root: blocks above
/// `i` are untouched, and block `i` itself carries exactly the
/// own-state transfer (its children cannot overwrite it, they lie
/// strictly below).
pub proof fn lemma_sync_frame(a: Seq<Node>, i: int, oa: Seq<Node>, oi: int)
    ensures
        forall|d: int| i < d < a.len() ==> #[trigger] crate::blocks::spec_sync(a, i, oa, oi)[d]
            == a[d],
        0 <= i < a.len() ==> crate::blocks::spec_sync(a, i, oa, oi)[i]
            == crate::blocks::spec_sync_own(a, i, oa, oi)[i],
        crate::blocks::spec_sync(a, i, oa, oi).len() == a.len(),
    decreases i, crate::blocks::spec_children(a[i].block).len() + 1, 0int,
{
    if 0 <= i < a.len() {
        let a1 = crate::blocks::spec_sync_own(a, i, oa, oi);
        let nc = crate::blocks::spec_children(a[i].block);
        let oc = if 0 <= oi < oa.len() {
            crate::blocks::spec_children(oa[oi].block)
        } else {
            Seq::<int>::empty()
        };
        let m: int = if nc.len() <= oc.len() {
            nc.len() as int
        } else {
            oc.len() as int
        };
        lemma_sync_children_frame(a1, i, nc, oc, oa, m);
    }
}

/// The pairwise child sync writes only strictly below `i`.
pub proof fn lemma_sync_children_frame(
    a: Seq<Node>,
    i: int,
    nc: Seq<int>,
    oc: Seq<int>,
    oa: Seq<Node>,
    k: int,
)
    ensures
        forall|d: int|
            i <= d < a.len() ==> #[trigger] crate::blocks::spec_sync_children(
                a,
                i,
                nc,
                oc,
                oa,
                k,
            )[d] == a[d],
        crate::blocks::spec_sync_children(a, i, nc, oc, oa, k).len() == a.len(),
    decreases i, k, 1int,
{
    if k > 0 {
        lemma_sync_children_frame(a, i, nc, oc, oa, k - 1);
        let a2 = crate::blocks::spec_sync_children(a, i, nc, oc, oa, k - 1);
        let c = nc[k - 1];
        let o = oc[k - 1];
        if 0 <= c < i && c < a2.len() && 0 <= o < oa.len() && a2[c].block.spec_block_type()
            == oa[o].block.spec_block_type() {
            lemma_sync_below_frame(a2, c, oa, o, i);
        }
    }
}

/// Syncing a block below `bound` leaves everything at or above `bound`
/// unchanged.
pub proof fn lemma_sync_below_frame(a: Seq<Node>, i: int, oa: Seq<Node>, oi: int, bound: int)
    requires
        i < bound,
    ensures
        forall|d: int|
            bound <= d < a.len() ==> #[trigger] crate::blocks::spec_sync(a, i, oa, oi)[d] == a[d],
        crate::blocks::spec_sync(a, i, oa, oi).len() == a.len(),
    decreases i, crate::blocks::spec_children(a[i].block).len() + 2, 0int,
{
    lemma_sync_frame(a, i, oa, oi);
    assert forall|d: int| bound <= d < a.len() implies #[trigger] crate::blocks::spec_sync(
        a,
        i,
        oa,
        oi,
    )[d] == a[d] by {
        if d > i {
        }
    }
}

/// The hot-reload phase-continuity law: when a name maps to an
/// oscillator in both the old and the new graph, and no other new
/// binding shares that name's block or resolves in the old registry,
/// the synchronizer carries the old oscillator's phase over exactly —
/// the new oscillator continues where the old one stood, whatever else
/// changed about it.
pub proof fn lemma_reload_phase_continuity(
    na: Seq<Node>,
    nn: Seq<(String, usize)>,
    oa: Seq<Node>,
    on: Seq<(String, usize)>,
    e: int,
)
    requires
        0 <= e < nn.len(),
        nn[e].1 < na.len(),
        spec_lookup(on, nn[e].0@) matches Some(oid) && oid < oa.len() && (oa[oid as int].block
            matches Block::Oscillator(_)),
        na[nn[e].1 as int].block matches Block::Oscillator(_),
        forall|e2: int|
            0 <= e2 < nn.len() && e2 != e ==> spec_lookup(on, (#[trigger] nn[e2]).0@) is None,
    ensures
        ({
            let oid = spec_lookup(on, nn[e].0@)->Some_0;
            spec_sync_all(na, nn, nn.len() as int, oa, on)[nn[e].1 as int].block matches
                Block::Oscillator(o) && o.phase == oa[oid as int].block.spec_sync_value()
        }),
{
    let oid = spec_lookup(on, nn[e].0@)->Some_0 as int;
    let nid = nn[e].1 as int;
    lemma_sync_all_until(na, nn, e, oa, on);
    let ae = spec_sync_all(na, nn, e, oa, on);
    assert(ae == na);
    lemma_sync_frame(na, nid, oa, oid);
    let ae1 = spec_sync_all(na, nn, e + 1, oa, on);
    assert(ae1 == crate::blocks::spec_sync(na, nid, oa, oid));
    assert(ae1[nid] == crate::blocks::spec_sync_own(na, nid, oa, oid)[nid]);
    lemma_sync_all_after(na, nn, e + 1, nn.len() as int, oa, on, e);
    assert(spec_sync_all(na, nn, nn.len() as int, oa, on)[nid] == ae1[nid]);
}

/// The hot-reload isolation law: when a name's block changed its
/// variant (say, an oscillator became a constant), and no other new
/// binding resolves in the old registry, the synchronizer leaves the
/// new block exactly as compiled — no state is carried across
/// mismatched types.
pub proof fn lemma_reload_type_isolation(
    na: Seq<Node>,
    nn: Seq<(String, usize)>,
    oa: Seq<Node>,
    on: Seq<(String, usize)>,
    e: int,
)
    requires
        0 <= e < nn.len(),
        nn[e].1 < na.len(),
        spec_lookup(on, nn[e].0@) matches Some(oid) && oid < oa.len(),
        ({
            let oid = spec_lookup(on, nn[e].0@)->Some_0;
            na[nn[e].1 as int].block.spec_block_type() != oa[oid as int].block.spec_block_type()
        }),
        forall|e2: int|
            0 <= e2 < nn.len() && e2 != e ==> spec_lookup(on, (#[trigger] nn[e2]).0@) is None,
    ensures
        spec_sync_all(na, nn, nn.len() as int, oa, on)[nn[e].1 as int] == na[nn[e].1 as int],
{
    let nid = nn[e].1 as int;
    lemma_sync_all_until(na, nn, e, oa, on);
    assert(spec_sync_all(na, nn, e + 1, oa, on) == na);
    lemma_sync_all_after(na, nn, e + 1, nn.len() as int, oa, on, e);
}

/// Until the first matching binding, the synchronizer changes nothing.
proof fn lemma_sync_all_until(
    na: Seq<Node>,
    nn: Seq<(String, usize)>,
    k: int,
    oa: Seq<Node>,
    on: Seq<(String, usize)>,
)
    requires
        forall|e2: int|
            0 <= e2 < k ==> spec_lookup(on, (#[trigger] nn[e2]).0@) is None,
    ensures
        spec_sync_all(na, nn, k, oa, on) == na,
    decreases k,
{
    if k > 0 {
        lemma_sync_all_until(na, nn, k - 1, oa, on);
    }
}

/// After the matching binding, the remaining bindings (which do not
/// resolve in the old registry) change nothing either.
proof fn lemma_sync_all_after(
    na: Seq<Node>,
    nn: Seq<(String, usize)>,
    k1: int,
    k2: int,
    oa: Seq<Node>,
    on: Seq<(String, usize)>,
    e: int,
)
    requires
        0 <= e < k1 <= k2 <= nn.len(),
        forall|e2: int|
            0 <= e2 < nn.len() && e2 != e ==> spec_lookup(on, (#[trigger] nn[e2]).0@) is None,
    ensures
        spec_sync_all(na, nn, k2, oa, on) == spec_sync_all(na, nn, k1, oa, on),
    decreases k2,
{
    if k2 > k1 {
        lemma_sync_all_after(na, nn, k1, k2 - 1, oa, on, e);
        if k2 - 1 < nn.len() {
            assert(spec_lookup(on, nn[k2 - 1].0@) is None);
        }
    }
}

/// UTF-8 encoding is injective: equal encoded bytes mean equal
/// character sequences.
pub proof fn lemma_str_bytes_eq(a: Seq<char>, b: Seq<char>)
    requires
        vstd::utf8::encode_utf8(a) == vstd::utf8::encode_utf8(b),
    ensures
        a == b,
{
    vstd::utf8::encode_utf8_decode_utf8(a);
    vstd::utf8::encode_utf8_decode_utf8(b);
}

/// Distinct character sequences encode to distinct bytes.
pub proof fn lemma_str_bytes_neq(a: Seq<char>, b: Seq<char>)
    requires
        vstd::utf8::encode_utf8(a) != vstd::utf8::encode_utf8(b),
    ensures
        a != b,
{
}

} // verus!
