//! A skip list index over an append-only log: offsets are appended in
//! ascending order together with a command payload, and `find` looks an
//! offset up by descending through the level chains.
//!
//! Nodes live in an arena (`nodes`) and are addressed by their index in it,
//! which is also their append order; forward links are arena indices.

use vstd::prelude::*;

verus! {

/// Relies on rand::random: a draw from the process-wide uniform source.
/// Nothing can be promised of the value drawn.
pub assume_specification<T>[ rand::random::<T> ]() -> (r: T)
    where
        rand::distributions::Standard: rand::distributions::Distribution<T>,
;

/// The offsets of `entries` are strictly increasing: what the append-only
/// workload this index is built for guarantees.
pub open spec fn strictly_sorted(entries: Seq<(u64, Seq<char>)>) -> bool {
    forall|i: int, j: int| 0 <= i < j < entries.len() ==> entries[i].0 < entries[j].0
}

/// A linear scan over the entries: the command of the first entry carrying
/// `offset`, if any.
pub open spec fn spec_find(entries: Seq<(u64, Seq<char>)>, offset: u64) -> Option<Seq<char>>
    decreases entries.len(),
{
    if entries.len() == 0 {
        None
    } else if entries[0].0 == offset {
        Some(entries[0].1)
    } else {
        spec_find(entries.drop_first(), offset)
    }
}

/// The linear scan misses when no entry carries the offset.
pub proof fn lemma_spec_find_none(entries: Seq<(u64, Seq<char>)>, offset: u64)
    requires
        forall|i: int| 0 <= i < entries.len() ==> (#[trigger] entries[i]).0 != offset,
    ensures
        spec_find(entries, offset) is None,
    decreases entries.len(),
{
    if entries.len() > 0 {
        assert forall|i: int| 0 <= i < entries.drop_first().len() implies (#[trigger] entries.drop_first()[i]).0
            != offset by {
            assert(entries.drop_first()[i] == entries[i + 1]);
        }
        lemma_spec_find_none(entries.drop_first(), offset);
    }
}

/// The linear scan returns entry `i`'s command when `i` is the first entry
/// carrying the offset.
pub proof fn lemma_spec_find_hit(entries: Seq<(u64, Seq<char>)>, offset: u64, i: int)
    requires
        0 <= i < entries.len(),
        entries[i].0 == offset,
        forall|j: int| 0 <= j < i ==> (#[trigger] entries[j]).0 != offset,
    ensures
        spec_find(entries, offset) == Some(entries[i].1),
    decreases i,
{
    if i > 0 {
        assert(entries[0].0 != offset);
        assert forall|j: int| 0 <= j < i - 1 implies (#[trigger] entries.drop_first()[j]).0
            != offset by {
            assert(entries.drop_first()[j] == entries[j + 1]);
        }
        assert(entries.drop_first()[i - 1] == entries[i]);
        lemma_spec_find_hit(entries.drop_first(), offset, i - 1);
    }
}

/// Over strictly increasing offsets, the linear scan finds a command exactly
/// for the offsets that were appended, and it is that entry's command.
pub proof fn lemma_find_characterization(entries: Seq<(u64, Seq<char>)>, offset: u64)
    requires
        strictly_sorted(entries),
    ensures
        (spec_find(entries, offset) is Some) <==> (exists|i: int|
            0 <= i < entries.len() && (#[trigger] entries[i]).0 == offset),
        forall|i: int|
            0 <= i < entries.len() && (#[trigger] entries[i]).0 == offset ==> spec_find(
                entries,
                offset,
            ) == Some(entries[i].1),
{
    if exists|i: int| 0 <= i < entries.len() && (#[trigger] entries[i]).0 == offset {
        let i = choose|i: int| 0 <= i < entries.len() && (#[trigger] entries[i]).0 == offset;
        assert forall|j: int| 0 <= j < i implies (#[trigger] entries[j]).0 != offset by {
            assert(entries[j].0 < entries[i].0);
        }
        lemma_spec_find_hit(entries, offset, i);
        assert forall|k: int|
            0 <= k < entries.len() && (#[trigger] entries[k]).0 == offset implies spec_find(
            entries,
            offset,
        ) == Some(entries[k].1) by {
            if k < i {
                assert(entries[k].0 < entries[i].0);
            } else if i < k {
                assert(entries[i].0 < entries[k].0);
            }
        }
    } else {
        lemma_spec_find_none(entries, offset);
    }
}

/// Appending an offset above every present one keeps the offsets strictly
/// increasing.
pub proof fn lemma_push_keeps_sorted(entries: Seq<(u64, Seq<char>)>, offset: u64, command: Seq<char>)
    requires
        strictly_sorted(entries),
        forall|i: int| 0 <= i < entries.len() ==> (#[trigger] entries[i]).0 < offset,
    ensures
        strictly_sorted(entries.push((offset, command))),
{
    let pushed = entries.push((offset, command));
    assert forall|i: int, j: int| 0 <= i < j < pushed.len() implies pushed[i].0 < pushed[j].0 by {
        if j < entries.len() {
            assert(pushed[i] == entries[i] && pushed[j] == entries[j]);
        } else {
            assert(pushed[i] == entries[i] && pushed[j] == (offset, command));
        }
    }
}

/// Offset/command pairs as plain mathematical values.
pub open spec fn pairs_view(s: Seq<(u64, String)>) -> Seq<(u64, Seq<char>)> {
    s.map_values(|p: (u64, String)| (p.0, p.1@))
}

/// `m` embeds `s` into `t`: it lists, in strictly increasing order, a
/// position of `t` holding each element of `s` in turn.
pub open spec fn embeds<A>(m: Seq<int>, s: Seq<A>, t: Seq<A>) -> bool {
    &&& m.len() == s.len()
    &&& forall|k: int| 0 <= k < m.len() ==> 0 <= #[trigger] m[k] < t.len()
    &&& forall|k1: int, k2: int| 0 <= k1 < k2 < m.len() ==> m[k1] < m[k2]
    &&& forall|k: int| 0 <= k < m.len() ==> s[k] == t[#[trigger] m[k]]
}

/// `s` is an ordered subsequence of `t`.
pub open spec fn is_subsequence_of<A>(s: Seq<A>, t: Seq<A>) -> bool {
    exists|m: Seq<int>| embeds(m, s, t)
}

/// One appended entry plus its per-level forward links.
///
/// `forward[l]` is the arena index of the next node taking part in level
/// `l`'s chain, if any. The vector has one slot per level from 0 up to the
/// node's assigned level.
pub struct Node {
    pub offset: u64,
    pub command: String,
    pub forward: Vec<Option<usize>>,
}

impl Node {
    fn new(links: Vec<Option<usize>>, offset: u64, command: String) -> (n: Node)
        ensures
            n.offset == offset,
            n.command == command,
            n.forward == links,
    {
        Node { offset, command, forward: links }
    }
}

/// The skip list: an arena of nodes, the head (always the first appended
/// node), one tail per level, the fixed level capacity, and the entry count.
pub struct BestTransactionLog {
    nodes: Vec<Node>,
    head: Option<usize>,
    tails: Vec<Option<usize>>,
    max_level: usize,
    pub length: u64,
}

impl BestTransactionLog {
    /// How many nodes have been appended.
    pub closed spec fn node_count(self) -> int {
        self.nodes@.len() as int
    }

    /// Whether node `i` takes part in level `l`'s chain.
    pub closed spec fn on_level(self, i: int, l: int) -> bool {
        0 <= l < self.nodes@[i].forward@.len()
    }

    /// The entry carried by node `i`, as plain mathematical values.
    pub closed spec fn entry_at(self, i: int) -> (u64, Seq<char>) {
        (self.nodes@[i].offset, self.nodes@[i].command@)
    }

    /// All appended entries, in append order.
    pub closed spec fn entries(self) -> Seq<(u64, Seq<char>)> {
        Seq::new(self.nodes@.len(), |i: int| self.entry_at(i))
    }

    /// The entry count, as contracts speak of it.
    pub closed spec fn spec_length(self) -> u64 {
        self.length
    }

    /// The level capacity fixed at construction.
    pub closed spec fn spec_max_level(self) -> int {
        self.max_level as int
    }

    /// Offsets were appended in strictly increasing order.
    pub open spec fn sorted(self) -> bool {
        strictly_sorted(self.entries())
    }

    /// Node `i`'s forward link at level `l` points to the next node of level
    /// `l`'s chain, or is `None` when `i` is the last such node.
    pub closed spec fn link_ok(self, i: int, l: int) -> bool {
        match self.nodes@[i].forward@[l] {
            Some(j) => i < j < self.node_count() && self.on_level(j as int, l)
                && (forall|k: int| i < k < j ==> !self.on_level(k, l)),
            None => forall|k: int| i < k < self.node_count() ==> !self.on_level(k, l),
        }
    }

    /// `tails[l]` names the last node of level `l`'s chain, or `None` when
    /// the chain is empty.
    pub closed spec fn tail_ok(self, l: int) -> bool {
        match self.tails@[l] {
            Some(t) => t < self.node_count() && self.on_level(t as int, l)
                && (forall|k: int| t < k < self.node_count() ==> !self.on_level(k, l)),
            None => forall|k: int| 0 <= k < self.node_count() ==> !self.on_level(k, l),
        }
    }

    /// Structural well-formedness: every constructor establishes it and
    /// every method preserves it.
    pub closed spec fn wf(self) -> bool {
        &&& self.tails@.len() == self.max_level + 1
        &&& self.length == self.node_count()
        &&& self.head == (if self.node_count() == 0 {
            Option::<usize>::None
        } else {
            Option::<usize>::Some(0usize)
        })
        &&& forall|i: int|
            0 <= i < self.node_count() ==> 1 <= (#[trigger] self.nodes@[i].forward@.len())
                <= self.max_level + 1
        &&& self.node_count() > 0 ==> self.nodes@[0].forward@.len() == self.max_level + 1
        &&& forall|i: int, l: int|
            0 <= i < self.node_count() && #[trigger] self.on_level(i, l) ==> self.link_ok(i, l)
        &&& forall|l: int| 0 <= l <= self.max_level ==> #[trigger] self.tail_ok(l)
    }

    /// Builds an empty index whose level capacity is fixed at `max_level`.
    pub fn new_empty(max_level: usize) -> (log: BestTransactionLog)
        requires
            max_level < usize::MAX,
        ensures
            log.wf(),
            log.spec_max_level() == max_level,
            log.spec_length() == 0,
            log.entries() == Seq::<(u64, Seq<char>)>::empty(),
    {
        let mut tails: Vec<Option<usize>> = Vec::new();
        let mut i: usize = 0;
        while i < max_level + 1
            invariant
                max_level < usize::MAX,
                i <= max_level + 1,
                tails@.len() == i,
                forall|k: int| 0 <= k < i ==> tails@[k] is None,
            decreases max_level + 1 - i,
        {
            tails.push(None);
            i += 1;
        }
        let log = BestTransactionLog {
            nodes: Vec::new(),
            head: None,
            tails,
            max_level,
            length: 0,
        };
        proof {
            assert(log.entries() =~= Seq::<(u64, Seq<char>)>::empty());
            assert forall|l: int| 0 <= l <= log.max_level implies #[trigger] log.tail_ok(l) by {
                assert(log.tails@[l] is None);
            }
        }
        log
    }

    /// Draws a level by repeated unbiased coin flips: start at 0 and climb
    /// while a flip succeeds and the level is still below the capacity.
    fn get_level(&self) -> (level: usize)
        ensures
            level <= self.spec_max_level(),
    {
        let mut n: usize = 0;
        let mut flip = rand::random::<bool>();
        while flip && n < self.max_level
            invariant
                n <= self.max_level,
            decreases self.max_level - n,
        {
            n += 1;
            flip = rand::random::<bool>();
        }
        n
    }

    /// The indices below `n` of the nodes taking part in level `l`'s chain,
    /// in increasing order.
    pub closed spec fn level_indices_up_to(self, l: int, n: int) -> Seq<int>
        decreases n,
    {
        if n <= 0 {
            Seq::empty()
        } else if self.on_level(n - 1, l) {
            self.level_indices_up_to(l, n - 1).push(n - 1)
        } else {
            self.level_indices_up_to(l, n - 1)
        }
    }

    /// The entries of level `l`'s chain, in chain order.
    pub closed spec fn level_seq(self, l: int) -> Seq<(u64, Seq<char>)> {
        self.level_indices_up_to(l, self.node_count()).map_values(|i: int| self.entry_at(i))
    }

    /// The level indices are in range, strictly increasing, and all on the
    /// level.
    proof fn lemma_level_indices_props(self, l: int, n: int)
        requires
            0 <= n,
        ensures
            forall|k: int|
                0 <= k < self.level_indices_up_to(l, n).len() ==> 0 <= (
                #[trigger] self.level_indices_up_to(l, n)[k]) < n,
            forall|k1: int, k2: int|
                0 <= k1 < k2 < self.level_indices_up_to(l, n).len()
                    ==> self.level_indices_up_to(l, n)[k1] < self.level_indices_up_to(l, n)[k2],
            forall|k: int|
                0 <= k < self.level_indices_up_to(l, n).len() ==> self.on_level(
                    #[trigger] self.level_indices_up_to(l, n)[k],
                    l,
                ),
        decreases n,
    {
        if n > 0 {
            self.lemma_level_indices_props(l, n - 1);
            let prev = self.level_indices_up_to(l, n - 1);
            let s = self.level_indices_up_to(l, n);
            if self.on_level(n - 1, l) {
                assert(s == prev.push(n - 1));
                assert forall|k: int| 0 <= k < s.len() implies 0 <= (#[trigger] s[k]) < n
                    && self.on_level(s[k], l) by {
                    if k < prev.len() {
                        assert(s[k] == prev[k]);
                    } else {
                        assert(s[k] == n - 1);
                    }
                }
                assert forall|k1: int, k2: int| 0 <= k1 < k2 < s.len() implies s[k1] < s[k2] by {
                    if k2 < prev.len() {
                        assert(s[k1] == prev[k1] && s[k2] == prev[k2]);
                    } else {
                        assert(s[k2] == n - 1);
                        assert(s[k1] == prev[k1] < n - 1);
                    }
                }
            } else {
                assert(s == prev);
            }
        }
    }

    /// Levels without members between `a` and `b` do not change the index
    /// list.
    proof fn lemma_level_indices_stable(self, l: int, a: int, b: int)
        requires
            0 <= a <= b,
            forall|k: int| a <= k < b ==> !self.on_level(k, l),
        ensures
            self.level_indices_up_to(l, b) == self.level_indices_up_to(l, a),
        decreases b - a,
    {
        if a < b {
            self.lemma_level_indices_stable(l, a, b - 1);
        }
    }

    /// Node `i`'s level-0 link goes to `i + 1`, or nowhere from the last node.
    pub closed spec fn link0(self, i: int) -> bool {
        match self.nodes@[i].forward@[0] {
            Some(j) => j == i + 1 && i + 1 < self.node_count(),
            None => i + 1 == self.node_count(),
        }
    }

    /// Level 0's chain runs through every node in append order: each node is
    /// on level 0 and its level-0 link goes to the node appended next.
    proof fn lemma_level0(self)
        requires
            self.wf(),
        ensures
            forall|i: int| 0 <= i < self.node_count() ==> self.on_level(i, 0),
            forall|i: int| 0 <= i < self.node_count() ==> #[trigger] self.link0(i),
    {
        assert forall|i: int| 0 <= i < self.node_count() implies self.on_level(i, 0) by {
            assert(self.nodes@[i].forward@.len() >= 1);
        }
        assert forall|i: int| 0 <= i < self.node_count() implies #[trigger] self.link0(i) by {
            assert(self.on_level(i, 0));
            assert(self.link_ok(i, 0));
            match self.nodes@[i].forward@[0] {
                Some(j) => {
                    if i + 1 < j {
                        assert(self.on_level(i + 1, 0));
                        assert(false);
                    }
                },
                None => {
                    if i + 1 < self.node_count() {
                        assert(self.on_level(i + 1, 0));
                        assert(false);
                    }
                },
            }
        }
    }

    /// After `append` has linked the new node `m` into every chain from level
    /// 0 through `level`, the structure is well formed again.
    proof fn lemma_append_wf(self, pre: Self, m: int, level: int, offset: u64, cmd: Seq<char>)
        requires
            pre.wf(),
            0 <= m <= usize::MAX - 1,
            0 <= level <= pre.spec_max_level(),
            pre.node_count() == 0 ==> level == pre.spec_max_level(),
            m == pre.node_count(),
            self.max_level == pre.max_level,
            self.length == pre.length + 1,
            self.head == Some(0usize),
            self.tails@.len() == pre.tails@.len(),
            self.nodes@.len() == m + 1,
            self.nodes@[m].offset == offset,
            self.nodes@[m].command@ == cmd,
            self.nodes@[m].forward@.len() == level + 1,
            forall|l: int| 0 <= l <= level ==> self.nodes@[m].forward@[l] is None,
            forall|j: int|
                0 <= j < m ==> (#[trigger] self.nodes@[j]).offset == pre.nodes@[j].offset
                    && self.nodes@[j].command == pre.nodes@[j].command
                    && self.nodes@[j].forward@.len() == pre.nodes@[j].forward@.len(),
            forall|j: int, l: int|
                0 <= j < m && pre.on_level(j, l) ==> (#[trigger] self.nodes@[j].forward@[l])
                    == (if l <= level && pre.tails@[l] == Some(j as usize) {
                        Some(m as usize)
                    } else {
                        pre.nodes@[j].forward@[l]
                    }),
            forall|l: int| 0 <= l <= level ==> (#[trigger] self.tails@[l]) == Some(m as usize),
            forall|l: int|
                level < l < self.tails@.len() ==> (#[trigger] self.tails@[l]) == pre.tails@[l],
        ensures
            self.wf(),
            forall|j: int| 0 <= j < m ==> #[trigger] self.entry_at(j) == pre.entry_at(j),
            self.entry_at(m) == (offset, cmd),
    {
        assert(self.node_count() == m + 1);
        assert forall|j: int, l: int| 0 <= j < m implies (self.on_level(j, l) <==> pre.on_level(
            j,
            l,
        )) by {
            assert(self.nodes@[j].forward@.len() == pre.nodes@[j].forward@.len());
        }
        // Every node's forward link is still the next node of its level chain.
        assert forall|j: int, l: int|
            0 <= j < self.node_count() && #[trigger] self.on_level(j, l) implies self.link_ok(
            j,
            l,
        ) by {
            if j == m {
                // The new node is the last of every chain it takes part in.
                assert(l <= level);
                assert(self.nodes@[m].forward@[l] is None);
            } else {
                assert(pre.on_level(j, l));
                assert(pre.link_ok(j, l));
                if l <= level && pre.tails@[l] == Some(j as usize) {
                    // The old tail of level l now points at the new node.
                    assert(pre.tail_ok(l));
                    assert(self.nodes@[j].forward@[l] == Some(m as usize));
                    assert(self.on_level(m, l));
                    assert forall|k: int| j < k < m implies !self.on_level(k, l) by {
                        assert(!pre.on_level(k, l));
                    }
                } else {
                    assert(self.nodes@[j].forward@[l] == pre.nodes@[j].forward@[l]);
                    match pre.nodes@[j].forward@[l] {
                        Some(nxt) => {
                            assert(pre.on_level(nxt as int, l));
                            assert(self.on_level(nxt as int, l));
                            assert forall|k: int| j < k < nxt implies !self.on_level(k, l) by {
                                assert(!pre.on_level(k, l));
                            }
                        },
                        None => {
                            // j was the last of level l's chain in pre. If the
                            // new node joined that chain, level l's tail was j
                            // and the link would have been rewritten.
                            if l <= level {
                                assert(pre.tail_ok(l));
                                match pre.tails@[l] {
                                    Some(t) => {
                                        if t < j {
                                            assert(pre.on_level(j, l));
                                            assert(false);
                                        } else if t > j {
                                            assert(pre.on_level(t as int, l));
                                            assert(false);
                                        }
                                        assert(pre.tails@[l] == Some(j as usize));
                                        assert(false);
                                    },
                                    None => {
                                        assert(!pre.on_level(j, l));
                                        assert(false);
                                    },
                                }
                            } else {
                                assert(!self.on_level(m, l));
                            }
                            assert forall|k: int| j < k < self.node_count() implies !self.on_level(
                                k,
                                l,
                            ) by {
                                if k < m {
                                    assert(!pre.on_level(k, l));
                                }
                            }
                        },
                    }
                }
            }
        }
        // Every per-level tail is the last node of its chain.
        assert forall|l: int| 0 <= l <= self.max_level implies #[trigger] self.tail_ok(l) by {
            if l <= level {
                assert(self.tails@[l] == Some(m as usize));
                assert(self.on_level(m, l));
            } else {
                assert(pre.tail_ok(l));
                assert(self.tails@[l] == pre.tails@[l]);
                assert(!self.on_level(m, l));
                match pre.tails@[l] {
                    Some(t) => {
                        assert(pre.on_level(t as int, l));
                        assert forall|k: int| t < k < self.node_count() implies !self.on_level(
                            k,
                            l,
                        ) by {
                            if k < m {
                                assert(!pre.on_level(k, l));
                            }
                        }
                    },
                    None => {
                        assert forall|k: int| 0 <= k < self.node_count() implies !self.on_level(
                            k,
                            l,
                        ) by {
                            if k < m {
                                assert(!pre.on_level(k, l));
                            }
                        }
                    },
                }
            }
        }
        if m == 0 {
            assert(self.nodes@[0].forward@.len() == self.max_level + 1);
        }
        assert forall|j: int| 0 <= j < m implies #[trigger] self.entry_at(j) == pre.entry_at(
            j,
        ) by {
            assert(self.nodes@[j].command == pre.nodes@[j].command);
        }
    }

    /// Appends a new entry as the new tail of every level chain from 0
    /// through the node's assigned level. The very first node is assigned the
    /// top level, so the head takes part in every chain from the start.
    pub fn append(&mut self, offset: u64, command: String)
        requires
            old(self).wf(),
        ensures
            final(self).wf(),
            final(self).entries() == old(self).entries().push((offset, command@)),
            final(self).spec_max_level() == old(self).spec_max_level(),
            final(self).spec_length() == old(self).spec_length() + 1,
    {
        let ghost pre = *old(self);
        let ghost cmd: Seq<char> = command@;
        let level: usize = if self.head.is_none() {
            self.max_level
        } else {
            self.get_level()
        };
        let cap: usize = self.tails.len();
        proof {
            assert(cap == pre.spec_max_level() + 1);
            assert(level < usize::MAX);
            assert(pre.node_count() == 0 ==> level == pre.spec_max_level());
        }
        let m: usize = self.nodes.len();
        let mut links: Vec<Option<usize>> = Vec::new();
        let mut li: usize = 0;
        while li < level + 1
            invariant
                level < usize::MAX,
                li <= level + 1,
                links@.len() == li,
                forall|k: int| 0 <= k < li ==> links@[k] is None,
            decreases level + 1 - li,
        {
            links.push(None);
            li += 1;
        }
        self.nodes.push(Node::new(links, offset, command));
        let mut i: usize = 0;
        while i <= level
            invariant
                pre.wf(),
                level < usize::MAX,
                level <= pre.spec_max_level(),
                pre.node_count() == 0 ==> level == pre.spec_max_level(),
                i <= level + 1,
                m == pre.node_count(),
                self.max_level == pre.max_level,
                self.length == pre.length,
                self.head == pre.head,
                self.tails@.len() == pre.tails@.len(),
                self.nodes@.len() == m + 1,
                self.nodes@[m as int].offset == offset,
                self.nodes@[m as int].command@ == cmd,
                self.nodes@[m as int].forward@.len() == level + 1,
                forall|l: int| 0 <= l <= level ==> self.nodes@[m as int].forward@[l] is None,
                forall|j: int|
                    0 <= j < m ==> (#[trigger] self.nodes@[j]).offset == pre.nodes@[j].offset
                        && self.nodes@[j].command == pre.nodes@[j].command
                        && self.nodes@[j].forward@.len() == pre.nodes@[j].forward@.len(),
                forall|j: int, l: int|
                    0 <= j < m && pre.on_level(j, l) ==> (#[trigger] self.nodes@[j].forward@[l])
                        == (if l < i && pre.tails@[l] == Some(j as usize) {
                            Some(m as usize)
                        } else {
                            pre.nodes@[j].forward@[l]
                        }),
                forall|l: int| 0 <= l < i ==> (#[trigger] self.tails@[l]) == Some(m as usize),
                forall|l: int| i <= l < self.tails@.len() ==> (#[trigger] self.tails@[l]) == pre.tails@[l],
            decreases level + 1 - i,
        {
            let t_opt: Option<usize> = self.tails[i];
            match t_opt {
                Some(t) => {
                    proof {
                        assert(pre.tail_ok(i as int));
                        assert(pre.on_level(t as int, i as int));
                    }
                    self.nodes[t].forward[i] = Some(m);
                }
                None => {},
            }
            self.tails[i] = Some(m);
            i += 1;
        }
        if self.head.is_none() {
            self.head = Some(m);
        }
        let count_now: usize = self.nodes.len();
        proof {
            assert(self.length == m < count_now <= usize::MAX);
        }
        self.length = self.length + 1;
        proof {
            self.lemma_append_wf(pre, m as int, level as int, offset, cmd);
            assert(self.entries() =~= pre.entries().push((offset, cmd)));
        }
    }

    /// Looks up the command that was appended under `offset`: a descent from
    /// the highest level chain with an outgoing link from the head, walking
    /// forward while the next offset is at most the target and dropping one
    /// level when no further step is valid.
    ///
    /// Under the append-only workload's guarantee of strictly increasing
    /// offsets, the result is exactly what a linear scan of the entries gives:
    /// the command appended under `offset`, or nothing when that offset was
    /// never appended.
    pub fn find(&self, offset: u64) -> (result: Option<String>)
        requires
            self.wf(),
        ensures
            result matches Some(c) ==> exists|i: int|
                0 <= i < self.entries().len() && #[trigger] self.entries()[i] == (offset, c@),
            self.sorted() ==> match result {
                Some(c) => spec_find(self.entries(), offset) == Some(c@),
                None => spec_find(self.entries(), offset) is None,
            },
            self.spec_length() == 0 ==> result is None,
    {
        proof {
            self.lemma_level0();
        }
        match self.head {
            None => None,
            Some(h) => {
                proof {
                    assert(h == 0);
                }
                // The highest level with an outgoing link from the head; any
                // start level would do, this one skips empty chains.
                let mut level: usize = self.max_level;
                while level > 0 && self.nodes[h].forward[level].is_none()
                    invariant
                        self.wf(),
                        h == 0,
                        self.node_count() > 0,
                        level <= self.spec_max_level(),
                    decreases level,
                {
                    level -= 1;
                }
                let mut cur: usize = h;
                loop
                    invariant
                        self.wf(),
                        self.node_count() > 0,
                        cur < self.node_count(),
                        level <= self.spec_max_level(),
                        self.on_level(cur as int, level as int),
                        self.nodes@[cur as int].offset <= offset || cur == 0,
                    ensures
                        cur < self.node_count(),
                        self.nodes@[cur as int].offset <= offset || cur == 0,
                        match self.nodes@[cur as int].forward@[0] {
                            Some(nxt) => self.nodes@[nxt as int].offset > offset,
                            None => true,
                        },
                    decreases level,
                {
                    // Walk forward along this level's chain.
                    loop
                        invariant
                            self.wf(),
                            self.node_count() > 0,
                            cur < self.node_count(),
                            level <= self.spec_max_level(),
                            self.on_level(cur as int, level as int),
                            self.nodes@[cur as int].offset <= offset || cur == 0,
                        ensures
                            cur < self.node_count(),
                            self.on_level(cur as int, level as int),
                            self.nodes@[cur as int].offset <= offset || cur == 0,
                            match self.nodes@[cur as int].forward@[level as int] {
                                Some(nxt) => self.nodes@[nxt as int].offset > offset,
                                None => true,
                            },
                        decreases self.node_count() - cur,
                    {
                        proof {
                            assert(self.link_ok(cur as int, level as int));
                        }
                        let f: Option<usize> = self.nodes[cur].forward[level];
                        match f {
                            Some(nxt) => {
                                if self.nodes[nxt].offset <= offset {
                                    cur = nxt;
                                } else {
                                    break ;
                                }
                            },
                            None => {
                                break ;
                            },
                        }
                    }
                    if level == 0 {
                        break ;
                    }
                    level -= 1;
                }
                if self.nodes[cur].offset == offset {
                    let command = self.nodes[cur].command.clone();
                    proof {
                        assert(self.entries()[cur as int] == (offset, command@));
                        if self.sorted() {
                            assert forall|j: int| 0 <= j < cur implies (#[trigger] self.entries()[j]).0
                                != offset by {
                                assert(self.entries()[j].0 < self.entries()[cur as int].0);
                            }
                            lemma_spec_find_hit(self.entries(), offset, cur as int);
                        }
                    }
                    Some(command)
                } else {
                    proof {
                        if self.sorted() {
                            assert forall|i: int|
                                0 <= i < self.entries().len() implies (#[trigger] self.entries()[i]).0
                                != offset by {
                                if i < cur {
                                    assert(self.entries()[i].0 < self.entries()[cur as int].0);
                                } else if i > cur {
                                    assert(self.link0(cur as int));
                                    assert(i >= cur + 1);
                                    if i > cur + 1 {
                                        assert(self.entries()[cur + 1].0 < self.entries()[i].0);
                                    }
                                }
                            }
                            lemma_spec_find_none(self.entries(), offset);
                        }
                    }
                    None
                }
            },
        }
    }

    /// A read-only, restartable forward traversal of level `level`'s chain,
    /// from the index's entry point to the end of the chain. Leaves the index
    /// untouched.
    pub fn iter_level(&self, level: usize) -> (it: ListIterator)
        requires
            self.wf(),
            level <= self.spec_max_level(),
        ensures
            it.wf(),
            it.remaining() == self.level_seq(level as int),
    {
        let ghost l = level as int;
        let mut items: Vec<(u64, String)> = Vec::new();
        match self.head {
            None => {
                proof {
                    assert(self.level_indices_up_to(l, 0) =~= Seq::<int>::empty());
                    assert(pairs_view(items@) =~~= self.level_seq(l));
                }
            },
            Some(h) => {
                let mut cur: usize = h;
                proof {
                    assert(h == 0);
                    assert(self.on_level(0, l));
                    assert(self.level_indices_up_to(l, 0) =~= Seq::<int>::empty());
                    assert(pairs_view(items@) =~~= self.level_indices_up_to(l, 0).map_values(
                        |i: int| self.entry_at(i),
                    ));
                }
                loop
                    invariant_except_break
                        pairs_view(items@) == self.level_indices_up_to(l, cur as int).map_values(
                            |i: int| self.entry_at(i),
                        ),
                    invariant
                        self.wf(),
                        self.node_count() > 0,
                        cur < self.node_count(),
                        l == level as int,
                        0 <= l <= self.spec_max_level(),
                        self.on_level(cur as int, l),
                    ensures
                        pairs_view(items@) == self.level_indices_up_to(
                            l,
                            self.node_count(),
                        ).map_values(|i: int| self.entry_at(i)),
                    decreases self.node_count() - cur,
                {
                    let ghost items_pre = items@;
                    items.push((self.nodes[cur].offset, self.nodes[cur].command.clone()));
                    proof {
                        let prev = self.level_indices_up_to(l, cur as int);
                        let here = self.level_indices_up_to(l, cur + 1);
                        assert(here == prev.push(cur as int));
                        let mapped = here.map_values(|i: int| self.entry_at(i));
                        assert(pairs_view(items_pre).len() == items_pre.len());
                        assert(prev.map_values(|i: int| self.entry_at(i)).len() == prev.len());
                        assert(items_pre.len() == prev.len());
                        assert(here.len() == prev.len() + 1);
                        assert(pairs_view(items@).len() == items@.len() == mapped.len());
                        assert forall|k: int| 0 <= k < items@.len() implies pairs_view(items@)[k]
                            == mapped[k] by {
                            assert(items@[k] == items_pre.push((
                                self.nodes@[cur as int].offset,
                                self.nodes@[cur as int].command,
                            ))[k]);
                            if k < items_pre.len() {
                                assert(pairs_view(items_pre)[k] == prev.map_values(
                                    |i: int| self.entry_at(i),
                                )[k]);
                                assert(here[k] == prev[k]);
                            } else {
                                assert(here[k] == cur as int);
                            }
                        }
                        assert(pairs_view(items@) =~~= mapped);
                        assert(self.link_ok(cur as int, l));
                    }
                    let f: Option<usize> = self.nodes[cur].forward[level];
                    match f {
                        Some(nxt) => {
                            proof {
                                self.lemma_level_indices_stable(l, cur + 1, nxt as int);
                            }
                            cur = nxt;
                        },
                        None => {
                            proof {
                                self.lemma_level_indices_stable(l, cur + 1, self.node_count());
                            }
                            break ;
                        },
                    }
                }
            },
        }
        let it = ListIterator { items, current: 0 };
        proof {
            assert(it.remaining() =~~= self.level_seq(l));
        }
        it
    }

    /// Level 0's chain yields exactly the appended entries, in append order,
    /// and its count equals the index's length.
    pub proof fn lemma_level_zero_iteration(self)
        requires
            self.wf(),
        ensures
            self.level_seq(0) == self.entries(),
            self.level_seq(0).len() == self.spec_length(),
    {
        self.lemma_level0();
        self.lemma_level0_indices(self.node_count());
        assert(self.level_seq(0) =~~= self.entries());
    }

    /// At level 0 the index list below `n` is just 0, 1, ..., n - 1.
    proof fn lemma_level0_indices(self, n: int)
        requires
            self.wf(),
            0 <= n <= self.node_count(),
        ensures
            self.level_indices_up_to(0, n) =~= Seq::new(n as nat, |i: int| i),
        decreases n,
    {
        self.lemma_level0();
        if n > 0 {
            self.lemma_level0_indices(n - 1);
        }
    }

    /// Every level's chain is an ordered subsequence of level 0's chain.
    pub proof fn lemma_level_subsequence(self, l: int)
        requires
            self.wf(),
            0 <= l <= self.spec_max_level(),
        ensures
            is_subsequence_of(self.level_seq(l), self.level_seq(0)),
    {
        self.lemma_level_zero_iteration();
        self.lemma_level_indices_props(l, self.node_count());
        let m = self.level_indices_up_to(l, self.node_count());
        assert forall|k: int| 0 <= k < m.len() implies self.level_seq(l)[k] == self.level_seq(
            0,
        )[#[trigger] m[k]] by {
            assert(self.level_seq(l)[k] == self.entry_at(m[k]));
            assert(self.level_seq(0)[m[k]] == self.entries()[m[k]]);
        }
        assert(embeds(m, self.level_seq(l), self.level_seq(0)));
    }

    /// With a level capacity of zero the index is one plain chain, so the
    /// lookup that `find`'s contract names is the linear scan of that chain.
    pub proof fn lemma_single_chain_scan(self, offset: u64)
        requires
            self.wf(),
            self.spec_max_level() == 0,
        ensures
            spec_find(self.entries(), offset) == spec_find(self.level_seq(0), offset),
    {
        self.lemma_level_zero_iteration();
    }
}

/// A cursor over one level's chain, detached from the index: the pairs it
/// yields are fixed when it is made, and it can be restarted by making a new
/// one.
pub struct ListIterator {
    items: Vec<(u64, String)>,
    current: usize,
}

impl ListIterator {
    /// Every pair the cursor was made with.
    pub closed spec fn all_items(self) -> Seq<(u64, Seq<char>)> {
        pairs_view(self.items@)
    }

    /// How many pairs have been yielded.
    pub closed spec fn position(self) -> int {
        self.current as int
    }

    /// The cursor has not run past the end.
    pub open spec fn wf(self) -> bool {
        0 <= self.position() <= self.all_items().len()
    }

    /// The pairs still to be yielded, in order.
    pub open spec fn remaining(self) -> Seq<(u64, Seq<char>)> {
        self.all_items().skip(self.position())
    }

    /// Yields the next offset/command pair of the chain, or nothing when the
    /// chain is exhausted.
    pub fn next(&mut self) -> (result: Option<(u64, String)>)
        requires
            old(self).wf(),
        ensures
            final(self).wf(),
            final(self).all_items() == old(self).all_items(),
            old(self).remaining().len() > 0 ==> (match result {
                Some(p) => (p.0, p.1@) == old(self).remaining()[0] && final(self).remaining()
                    == old(self).remaining().drop_first(),
                None => false,
            }),
            old(self).remaining().len() == 0 ==> result is None && final(self).remaining()
                == old(self).remaining(),
    {
        if self.current < self.items.len() {
            let offset = self.items[self.current].0;
            let command = self.items[self.current].1.clone();
            self.current = self.current + 1;
            proof {
                assert((offset, command@) == old(self).remaining()[0]);
                assert(self.remaining() =~~= old(self).remaining().drop_first());
            }
            Some((offset, command))
        } else {
            None
        }
    }
}

} // verus!
