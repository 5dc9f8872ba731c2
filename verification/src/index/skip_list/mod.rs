use vstd::prelude::*;

use crate::constants::{SKIP_LIST_DEFAULT_LEVEL, SKIP_LIST_DEFAULT_RNG_SEED};
use crate::index::{
    bytes_lt, compare_bytes, insert_entry, lemma_bytes_lt_order, lemma_lower_bound,
    lemma_total_size_insert, lemma_total_size_len, lemma_total_size_update, lookup, lower_bound,
    sorted_keys, total_size, value_size, ByteOrder, EntriesView, Key, MemTable, Value, ValueView,
    VALUE_KIND_SIZE,
};

verus! {

/// A forward pointer: the index of the next node at some level, if any.
pub type Link = Option<usize>;

/// Height of each node: the number of levels it is linked at.
spec fn heights(nodes: Seq<Node>) -> Seq<int> {
    Seq::new(nodes.len(), |i: int| nodes[i].forward@.len() as int)
}

/// The first rank at or after `start` whose node is linked at level `l`,
/// or the number of ranks when there is none.
spec fn next_rank(order: Seq<usize>, hts: Seq<int>, start: int, l: int) -> int
    decreases order.len() - start,
{
    if start < 0 || start >= order.len() {
        order.len() as int
    } else if hts[order[start] as int] > l {
        start
    } else {
        next_rank(order, hts, start + 1, l)
    }
}

/// The node that a forward pointer at level `l` must reach when it leaves
/// from just before rank `start`.
spec fn link_of(order: Seq<usize>, hts: Seq<int>, start: int, l: int) -> Link {
    let r = next_rank(order, hts, start, l);
    if r < order.len() {
        Some(order[r])
    } else {
        None
    }
}

/// The forward pointers of the head (for every level below `max_level`)
/// and of every ranked node reach the next node linked at that level.
spec fn links_ok(nodes: Seq<Node>, order: Seq<usize>, max_level: int) -> bool {
    let hts = heights(nodes);
    &&& forall|l: int|
        0 <= l < max_level ==> #[trigger] nodes[0].forward@[l] == link_of(order, hts, 0, l)
    &&& forall|r: int, l: int|
        0 <= r < order.len() && 0 <= l < nodes[order[r] as int].forward@.len()
            ==> #[trigger] nodes[order[r] as int].forward@[l] == link_of(order, hts, r + 1, l)
}

proof fn lemma_next_rank(order: Seq<usize>, hts: Seq<int>, start: int, l: int)
    requires
        0 <= start <= order.len(),
    ensures
        start <= next_rank(order, hts, start, l) <= order.len(),
        next_rank(order, hts, start, l) < order.len() ==> hts[order[next_rank(
            order,
            hts,
            start,
            l,
        )] as int] > l,
        forall|r: int|
            start <= r < next_rank(order, hts, start, l) ==> hts[#[trigger] order[r] as int] <= l,
    decreases order.len() - start,
{
    if start < order.len() && hts[order[start] as int] <= l {
        lemma_next_rank(order, hts, start + 1, l);
    }
}

proof fn lemma_next_rank_unique(order: Seq<usize>, hts: Seq<int>, start: int, l: int, x: int)
    requires
        0 <= start <= x <= order.len(),
        x < order.len() ==> hts[order[x] as int] > l,
        forall|r: int| start <= r < x ==> hts[#[trigger] order[r] as int] <= l,
    ensures
        next_rank(order, hts, start, l) == x,
{
    lemma_next_rank(order, hts, start, l);
    let nr = next_rank(order, hts, start, l);
    if nr < x {
        assert(hts[order[nr] as int] <= l);
    }
    if x < nr {
        assert(hts[order[x] as int] <= l);
    }
}

/// Ranks after the insertion point: the search runs as before, one rank on.
proof fn lemma_next_rank_after(
    order: Seq<usize>,
    hts: Seq<int>,
    p: int,
    n: usize,
    h: int,
    s: int,
    l: int,
)
    requires
        0 <= p <= s <= order.len(),
        n == hts.len(),
        forall|r: int| 0 <= r < order.len() ==> 0 <= #[trigger] order[r] < hts.len(),
    ensures
        next_rank(order.insert(p, n), hts.push(h), s + 1, l) == next_rank(order, hts, s, l) + 1,
        link_of(order.insert(p, n), hts.push(h), s + 1, l) == link_of(order, hts, s, l),
{
    let o2 = order.insert(p, n);
    let h2 = hts.push(h);
    lemma_next_rank(order, hts, s, l);
    let x = next_rank(order, hts, s, l);
    assert forall|r: int| s + 1 <= r < x + 1 implies h2[#[trigger] o2[r] as int] <= l by {
        assert(o2[r] == order[r - 1]);
        assert(hts[order[r - 1] as int] <= l);
    }
    if x < order.len() {
        assert(o2[x + 1] == order[x]);
    }
    lemma_next_rank_unique(o2, h2, s + 1, l, x + 1);
}

/// Ranks up to the insertion point: the search stops where it stopped,
/// unless it reaches the new node first.
proof fn lemma_next_rank_before(
    order: Seq<usize>,
    hts: Seq<int>,
    p: int,
    n: usize,
    h: int,
    s: int,
    l: int,
)
    requires
        0 <= s <= p <= order.len(),
        n == hts.len(),
        forall|r: int| 0 <= r < order.len() ==> 0 <= #[trigger] order[r] < hts.len(),
    ensures
        ({
            let x = next_rank(order, hts, s, l);
            let y = next_rank(order.insert(p, n), hts.push(h), s, l);
            &&& x < p ==> y == x
            &&& x >= p && h > l ==> y == p
            &&& x >= p && h <= l ==> y == x + 1
        }),
        ({
            let x = next_rank(order, hts, s, l);
            let lk = link_of(order.insert(p, n), hts.push(h), s, l);
            &&& x < p ==> lk == link_of(order, hts, s, l)
            &&& x >= p && h > l ==> lk == Some(n)
            &&& x >= p && h <= l ==> lk == link_of(order, hts, s, l)
        }),
{
    let o2 = order.insert(p, n);
    let h2 = hts.push(h);
    lemma_next_rank(order, hts, s, l);
    let x = next_rank(order, hts, s, l);
    if x < p {
        assert forall|r: int| s <= r < x implies h2[#[trigger] o2[r] as int] <= l by {
            assert(o2[r] == order[r]);
            assert(hts[order[r] as int] <= l);
        }
        assert(o2[x] == order[x]);
        lemma_next_rank_unique(o2, h2, s, l, x);
    } else if h > l {
        assert forall|r: int| s <= r < p implies h2[#[trigger] o2[r] as int] <= l by {
            assert(o2[r] == order[r]);
            assert(hts[order[r] as int] <= l);
        }
        assert(o2[p] == n);
        lemma_next_rank_unique(o2, h2, s, l, p);
    } else {
        assert forall|r: int| s <= r < x + 1 implies h2[#[trigger] o2[r] as int] <= l by {
            if r < p {
                assert(o2[r] == order[r]);
                assert(hts[order[r] as int] <= l);
            } else if r == p {
                assert(o2[r] == n);
            } else {
                assert(o2[r] == order[r - 1]);
                assert(hts[order[r - 1] as int] <= l);
            }
        }
        if x < order.len() {
            assert(o2[x + 1] == order[x]);
        }
        lemma_next_rank_unique(o2, h2, s, l, x + 1);
    }
}

/// Inserting a node at rank `p` and splicing it in after the nodes in
/// `upd` (the last node before `p` linked at each level, or the head)
/// keeps every forward pointer on the next node linked at its level.
proof fn lemma_insert_links(
    old_nodes: Seq<Node>,
    new_nodes: Seq<Node>,
    order: Seq<usize>,
    ranks: Seq<int>,
    upd: Seq<usize>,
    h: int,
    max_level: int,
)
    requires
        links_ok(old_nodes, order, max_level),
        1 <= old_nodes.len() <= usize::MAX,
        old_nodes[0].forward@.len() == max_level,
        forall|r: int| 0 <= r < order.len() ==> 1 <= #[trigger] order[r] < old_nodes.len(),
        forall|r1: int, r2: int|
            0 <= r1 < order.len() && 0 <= r2 < order.len() && r1 != r2 ==> #[trigger] order[r1]
                != #[trigger] order[r2],
        1 <= h <= max_level,
        ranks.len() == max_level,
        upd.len() == max_level,
        0 <= ranks[0] + 1 <= order.len(),
        forall|l: int|
            0 <= l < max_level ==> {
                &&& -1 <= #[trigger] ranks[l] <= ranks[0]
                &&& upd[l] == (if ranks[l] < 0 {
                    0usize
                } else {
                    order[ranks[l]]
                })
                &&& ranks[l] >= 0 ==> old_nodes[order[ranks[l]] as int].forward@.len() > l
            },
        forall|l: int, r: int|
            0 <= l < max_level && #[trigger] ranks[l] < r <= ranks[0] ==> old_nodes[#[trigger] order[r] as int].forward@.len() <= l,
        new_nodes.len() == old_nodes.len() + 1,
        new_nodes[old_nodes.len() as int].forward@.len() == h,
        forall|l: int|
            0 <= l < h ==> #[trigger] new_nodes[old_nodes.len() as int].forward@[l]
                == old_nodes[upd[l] as int].forward@[l],
        forall|i: int|
            0 <= i < old_nodes.len() ==> #[trigger] new_nodes[i].forward@.len()
                == old_nodes[i].forward@.len(),
        forall|i: int, l: int|
            0 <= i < old_nodes.len() && 0 <= l < old_nodes[i].forward@.len()
                ==> #[trigger] new_nodes[i].forward@[l] == if l < h && upd[l] == i {
                Some(old_nodes.len() as usize)
            } else {
                old_nodes[i].forward@[l]
            },
    ensures
        links_ok(new_nodes, order.insert(ranks[0] + 1, old_nodes.len() as usize), max_level),
{
    let n = old_nodes.len() as usize;
    let p = ranks[0] + 1;
    let o2 = order.insert(p, n);
    let hts = heights(old_nodes);
    let hts2 = heights(new_nodes);
    assert(hts2 =~= hts.push(h));
    assert forall|r: int| 0 <= r < order.len() implies 0 <= #[trigger] order[r] < hts.len() by {}
    // head
    assert forall|l: int| 0 <= l < max_level implies #[trigger] new_nodes[0].forward@[l]
        == link_of(o2, hts2, 0, l) by {
        lemma_next_rank(order, hts, 0, l);
        lemma_next_rank_before(order, hts, p, n, h, 0, l);
        let x = next_rank(order, hts, 0, l);
        assert(old_nodes[0].forward@[l] == link_of(order, hts, 0, l));
        if l < h && upd[l] == 0 {
            if ranks[l] >= 0 {
                assert(order[ranks[l]] >= 1);
            }
            if x < p {
                assert(hts[order[x] as int] > l);
                assert(old_nodes[order[x] as int].forward@.len() <= l);
            }
        } else if l < h {
            let q = ranks[l];
            assert(q >= 0);
            assert(hts[order[q] as int] > l);
            if x > q {
                assert(hts[order[q] as int] <= l);
            }
        }
    }
    // ranked nodes
    assert forall|r2: int, l: int|
        0 <= r2 < o2.len() && 0 <= l < new_nodes[o2[r2] as int].forward@.len()
            implies #[trigger] new_nodes[o2[r2] as int].forward@[l] == link_of(o2, hts2, r2 + 1, l) by {
        if r2 == p {
            assert(o2[r2] == n);
            let q = ranks[l];
            let s0 = q + 1;
            if q >= 0 {
                assert(q <= ranks[0]);
                assert(old_nodes[order[q] as int].forward@.len() > l);
                assert(old_nodes[order[q] as int].forward@[l] == link_of(order, hts, q + 1, l));
            } else {
                assert(old_nodes[0].forward@[l] == link_of(order, hts, 0, l));
            }
            lemma_next_rank(order, hts, s0, l);
            let x = next_rank(order, hts, s0, l);
            if x < p {
                assert(hts[order[x] as int] > l);
                assert(old_nodes[order[x] as int].forward@.len() <= l);
            }
            assert forall|r: int| p <= r < x implies hts[#[trigger] order[r] as int] <= l by {}
            lemma_next_rank_unique(order, hts, p, l, x);
            lemma_next_rank_after(order, hts, p, n, h, p, l);
        } else if r2 < p {
            assert(o2[r2] == order[r2]);
            let i = order[r2];
            assert(old_nodes[i as int].forward@[l] == link_of(order, hts, r2 + 1, l));
            lemma_next_rank(order, hts, r2 + 1, l);
            lemma_next_rank_before(order, hts, p, n, h, r2 + 1, l);
            let x = next_rank(order, hts, r2 + 1, l);
            if l < h && upd[l] == i {
                let q = ranks[l];
                if q < 0 {
                    assert(i >= 1);
                } else if q != r2 {
                    assert(order[q] != order[r2]);
                }
                assert(q == r2);
                if x < p {
                    assert(hts[order[x] as int] > l);
                    assert(old_nodes[order[x] as int].forward@.len() <= l);
                }
            } else if l < h {
                let q = ranks[l];
                if q < r2 {
                    assert(old_nodes[order[r2] as int].forward@.len() <= l);
                }
                assert(q > r2);
                assert(hts[order[q] as int] > l);
                if x > q {
                    assert(hts[order[q] as int] <= l);
                }
            }
        } else {
            assert(o2[r2] == order[r2 - 1]);
            let i = order[r2 - 1];
            assert(old_nodes[i as int].forward@[l] == link_of(order, hts, r2, l));
            if l < h && upd[l] == i {
                let q = ranks[l];
                if q < 0 {
                    assert(i >= 1);
                } else {
                    assert(order[q] != order[r2 - 1]);
                }
            }
            lemma_next_rank_after(order, hts, p, n, h, r2, l);
        }
    }
}

/// A node of the skip list: an entry and its forward pointers, one per
/// level it is linked at.
pub struct Node {
    key: Key,
    value: Value,
    forward: Vec<Link>,
}

impl Node {
    /// The size of the node's entry: key bytes plus value size.
    fn entry_size(&self) -> (r: usize)
        requires
            self.key@.len() + value_size(self.value@) <= usize::MAX,
        ensures
            r == self.key@.len() + value_size(self.value@),
    {
        self.key.approximate_size() + self.value.approximate_size()
    }
}

/// A skip list memtable. Nodes live in a vector and link to each other by
/// index; node 0 is the head, linked at every level.
pub struct SkipList {
    nodes: Vec<Node>,
    level: usize,
    max_level: usize,
    approximate_size: usize,
    rng_state: u64,
    order: Ghost<Seq<usize>>,
}

/// One step of the xorshift generator that chooses node heights.
pub open spec fn xorshift(x: u64) -> u64 {
    let a = x ^ (x << 13u64);
    let b = a ^ (a >> 7u64);
    b ^ (b << 17u64)
}

/// The height a new node draws from generator state `rng`, counting up
/// from `level` and capped at `max`: one more level for each successive
/// generator state whose low bit is set, stopping at the first that is
/// clear; with the generator state the draw leaves.
pub open spec fn draw_level(rng: u64, level: nat, max: nat) -> (nat, u64)
    decreases max - level,
{
    if level < max {
        let x = xorshift(rng);
        if x & 1 == 1 {
            draw_level(x, level + 1, max)
        } else {
            (level, x)
        }
    } else {
        (level, rng)
    }
}

impl View for SkipList {
    type V = EntriesView;

    /// The entries in key order.
    closed spec fn view(&self) -> EntriesView {
        Seq::new(
            self.order@.len(),
            |r: int|
                (
                    self.nodes@[self.order@[r] as int].key@,
                    self.nodes@[self.order@[r] as int].value@,
                ),
        )
    }
}

impl SkipList {
    /// The skip list's invariant: the nodes in `order` have increasing
    /// keys, every forward pointer reaches the next node linked at its
    /// level, and the size counter is the size of the entries.
    pub closed spec fn wf(&self) -> bool {
        let nodes = self.nodes@;
        let order = self.order@;
        &&& nodes.len() >= 1
        &&& self.max_level == SKIP_LIST_DEFAULT_LEVEL
        &&& 1 <= self.level <= self.max_level
        &&& nodes[0].forward@.len() == self.max_level
        &&& forall|i: int| 1 <= i < nodes.len() ==> 1 <= #[trigger] nodes[i].forward@.len() <= self.level
        &&& order.len() + 1 == nodes.len()
        &&& forall|r: int| 0 <= r < order.len() ==> 1 <= #[trigger] order[r] < nodes.len()
        &&& sorted_keys(self@)
        &&& links_ok(nodes, order, self.max_level as int)
        &&& self.approximate_size == total_size(self@)
    }

    /// A well-formed skip list holds its entries in key order.
    pub proof fn lemma_sorted(&self)
        requires
            self.wf(),
        ensures
            sorted_keys(self@),
    {
    }

    /// The generator state that chooses node heights.
    pub closed spec fn rng(&self) -> u64 {
        self.rng_state
    }

    /// An empty skip list.
    pub fn new() -> (s: Self)
        ensures
            s.wf(),
            s@ == Seq::<(Seq<u8>, ValueView)>::empty(),
            s.rng() == SKIP_LIST_DEFAULT_RNG_SEED,
    {
        let max_level = SKIP_LIST_DEFAULT_LEVEL;
        let mut forward: Vec<Link> = Vec::new();
        let mut i: usize = 0;
        while i < max_level
            invariant
                i <= max_level,
                forward@.len() == i,
                forall|j: int| 0 <= j < i ==> forward@[j] is None,
            decreases max_level - i,
        {
            forward.push(None);
            i = i + 1;
        }
        let mut nodes: Vec<Node> = Vec::new();
        nodes.push(Node { key: Key::new(Vec::new()), value: Value::Tombstone, forward });
        let s = SkipList {
            nodes,
            level: 1,
            max_level,
            approximate_size: 0,
            rng_state: SKIP_LIST_DEFAULT_RNG_SEED,
            order: Ghost(Seq::empty()),
        };
        assert(s@ =~= Seq::<(Seq<u8>, ValueView)>::empty());
        proof {
            assert forall|l: int| 0 <= l < s.max_level implies #[trigger] s.nodes@[0].forward@[l]
                == link_of(s.order@, heights(s.nodes@), 0, l) by {}
        }
        s
    }

    /// The pointer of node `node_index` at `level`, or `None` when the node
    /// is not linked that high.
    fn next_at(&self, node_index: usize, level: usize) -> (r: Link)
        requires
            node_index < self.nodes@.len(),
        ensures
            level < self.nodes@[node_index as int].forward@.len() ==> r == self.nodes@[node_index as int].forward@[level as int],
            level >= self.nodes@[node_index as int].forward@.len() ==> r is None,
    {
        let node = &self.nodes[node_index];
        if level < node.forward.len() {
            node.forward[level]
        } else {
            None
        }
    }

    spec fn node_of(&self, rank: int) -> usize {
        if rank < 0 {
            0
        } else {
            self.order@[rank]
        }
    }

    spec fn height_of(&self, rank: int) -> int {
        self.nodes@[self.node_of(rank) as int].forward@.len() as int
    }

    /// Level 0 links every node: from rank `r`, the next node at level 0 is
    /// the node at rank `r`.
    proof fn lemma_level0(&self, r: int)
        requires
            self.wf(),
            0 <= r <= self.order@.len(),
        ensures
            next_rank(self.order@, heights(self.nodes@), r, 0) == r,
            link_of(self.order@, heights(self.nodes@), r, 0) == if r < self.order@.len() {
                Some(self.order@[r])
            } else {
                None::<usize>
            },
    {
        let order = self.order@;
        let hts = heights(self.nodes@);
        if r < order.len() {
            assert(hts[order[r] as int] >= 1);
        }
        lemma_next_rank_unique(order, hts, r, 0, r);
    }

    /// Finds the last node whose key comes before `key` (the head when there
    /// is none), and its rank.
    fn find_previous(&self, key: &Key) -> (r: (usize, Ghost<int>))
        requires
            self.wf(),
        ensures
            -1 <= r.1@ < self@.len(),
            r.0 == self.node_of(r.1@),
            r.1@ == -1 || bytes_lt(self@[r.1@].0, key@),
            forall|q: int| r.1@ < q < self@.len() ==> !bytes_lt(#[trigger] self@[q].0, key@),
    {
        let mut current: usize = 0;
        let ghost mut rank: int = -1;
        let mut level = self.level;
        while level > 0
            invariant
                self.wf(),
                level <= self.level,
                self@.len() == self.order@.len(),
                -1 <= rank < self.order@.len(),
                current == self.node_of(rank),
                rank == -1 || (bytes_lt(self@[rank].0, key@) && self.height_of(rank) > level - 1),
                forall|q: int|
                    rank < q < self.order@.len() && #[trigger] self.height_of(q) > level ==> !bytes_lt(
                        self@[q].0,
                        key@,
                    ),
            decreases level,
        {
            let lv = level - 1;
            let (next, Ghost(next_rank_found)) = self.walk_level(key, current, Ghost(rank), lv);
            current = next;
            proof {
                rank = next_rank_found;
            }
            level = lv;
        }
        proof {
            assert forall|q: int| rank < q < self@.len() implies !bytes_lt(
                #[trigger] self@[q].0,
                key@,
            ) by {
                assert(self.nodes@[self.order@[q] as int].forward@.len() >= 1);
                assert(self.height_of(q) > 0);
            }
        }
        (current, Ghost(rank))
    }

    /// For every level, the last node linked at that level whose key comes
    /// before `key` (the head when there is none), and its rank.
    fn find_update_path(&self, key: &Key) -> (r: (Vec<usize>, Ghost<Seq<int>>))
        requires
            self.wf(),
        ensures
            r.0@.len() == self.max_level,
            r.1@.len() == self.max_level,
            forall|l: int|
                0 <= l < self.max_level ==> {
                    &&& -1 <= #[trigger] r.1@[l] < self@.len()
                    &&& r.0@[l] == self.node_of(r.1@[l])
                    &&& r.1@[l] == -1 || (bytes_lt(self@[r.1@[l]].0, key@) && self.height_of(
                        r.1@[l],
                    ) > l)
                    &&& forall|q: int|
                        r.1@[l] < q < self@.len() && #[trigger] self.height_of(q) > l
                            ==> !bytes_lt(self@[q].0, key@)
                },
    {
        let mut update: Vec<usize> = Vec::new();
        let mut i: usize = 0;
        while i < self.max_level
            invariant
                i <= self.max_level,
                update@.len() == i,
                forall|j: int| 0 <= j < i ==> update@[j] == 0,
            decreases self.max_level - i,
        {
            update.push(0);
            i = i + 1;
        }
        let ghost mut ranks: Seq<int> = Seq::new(self.max_level as nat, |l: int| -1int);
        let mut current: usize = 0;
        let ghost mut rank: int = -1;
        let mut level = self.level;
        while level > 0
            invariant
                self.wf(),
                level <= self.level,
                self@.len() == self.order@.len(),
                update@.len() == self.max_level,
                ranks.len() == self.max_level,
                -1 <= rank < self.order@.len(),
                current == self.node_of(rank),
                rank == -1 || (bytes_lt(self@[rank].0, key@) && self.height_of(rank) > level - 1),
                forall|q: int|
                    rank < q < self.order@.len() && #[trigger] self.height_of(q) > level ==> !bytes_lt(
                        self@[q].0,
                        key@,
                    ),
                forall|l: int|
                    level <= l < self.max_level ==> {
                        &&& -1 <= #[trigger] ranks[l] < self@.len()
                        &&& update@[l] == self.node_of(ranks[l])
                        &&& ranks[l] == -1 || (bytes_lt(self@[ranks[l]].0, key@) && self.height_of(
                            ranks[l],
                        ) > l)
                        &&& forall|q: int|
                            ranks[l] < q < self@.len() && #[trigger] self.height_of(q) > l
                                ==> !bytes_lt(self@[q].0, key@)
                    },
            decreases level,
        {
            let lv = level - 1;
            let (next, Ghost(next_rank_found)) = self.walk_level(key, current, Ghost(rank), lv);
            current = next;
            update.set(lv, current);
            proof {
                rank = next_rank_found;
                ranks = ranks.update(lv as int, rank);
            }
            level = lv;
        }
        (update, Ghost(ranks))
    }

    /// Advances the generator and returns the low bit of its new state.
    fn next_random_bit(&mut self) -> (r: bool)
        ensures
            final(self).rng_state == xorshift(old(self).rng_state),
            r == (xorshift(old(self).rng_state) & 1 == 1),
            final(self).nodes == old(self).nodes,
            final(self).level == old(self).level,
            final(self).max_level == old(self).max_level,
            final(self).approximate_size == old(self).approximate_size,
            final(self).order == old(self).order,
    {
        let mut x = self.rng_state;
        x = x ^ (x << 13u64);
        x = x ^ (x >> 7u64);
        x = x ^ (x << 17u64);
        self.rng_state = x;
        x & 1 == 1
    }

    /// Draws the height of a new node: one more level for every set bit in
    /// a row, up to `max_level`.
    fn random_level(&mut self) -> (r: usize)
        requires
            old(self).max_level >= 1,
        ensures
            1 <= r <= old(self).max_level,
            (r as nat, final(self).rng_state) == draw_level(old(self).rng_state, 1, old(self).max_level as nat),
            final(self).nodes == old(self).nodes,
            final(self).level == old(self).level,
            final(self).max_level == old(self).max_level,
            final(self).approximate_size == old(self).approximate_size,
            final(self).order == old(self).order,
    {
        let mut level: usize = 1;
        loop
            invariant_except_break
                draw_level(old(self).rng_state, 1, old(self).max_level as nat) == draw_level(
                    self.rng_state,
                    level as nat,
                    self.max_level as nat,
                ),
            invariant
                1 <= level <= self.max_level,
                self.nodes == old(self).nodes,
                self.level == old(self).level,
                self.max_level == old(self).max_level,
                self.approximate_size == old(self).approximate_size,
                self.order == old(self).order,
            ensures
                (level as nat, self.rng_state) == draw_level(old(self).rng_state, 1, old(self).max_level as nat),
            decreases self.max_level - level,
        {
            if level >= self.max_level {
                break;
            }
            let bit = self.next_random_bit();
            if !bit {
                break;
            }
            level = level + 1;
        }
        level
    }

    /// Binds `key` to `value`, replacing the value of an equal key.
    #[verifier::rlimit(60)]
    fn put_entry(&mut self, key: Key, value: Value)
        requires
            old(self).wf(),
            total_size(old(self)@) + key@.len() + value_size(value@) <= usize::MAX,
        ensures
            final(self).wf(),
            final(self)@ == insert_entry(old(self)@, key@, value@),
    {
        let ghost old_view = self@;
        let ghost order = self.order@;
        let ghost old_nodes = self.nodes@;
        let ghost hts = heights(self.nodes@);
        let (update, Ghost(ranks)) = self.find_update_path(&key);
        let ghost p = ranks[0] + 1;
        proof {
            lemma_bytes_lt_order();
            assert forall|r: int| 0 <= r < p implies bytes_lt(#[trigger] old_view[r].0, key@) by {
                if r < p - 1 {
                    assert(bytes_lt(old_view[r].0, old_view[p - 1].0));
                }
            }
            assert forall|r: int| p <= r < old_view.len() implies !bytes_lt(
                #[trigger] old_view[r].0,
                key@,
            ) by {
                assert(self.nodes@[order[r] as int].forward@.len() >= 1);
                assert(self.height_of(r) > 0);
            }
            lemma_lower_bound(old_view, key@, p);
            self.lemma_level0(p);
            assert(self.nodes@[0].forward@[0] == link_of(order, hts, 0, 0));
            if ranks[0] >= 0 {
                assert(self.nodes@[order[ranks[0]] as int].forward@[0] == link_of(
                    order,
                    hts,
                    ranks[0] + 1,
                    0,
                ));
            }
        }
        let first = self.next_at(update[0], 0);
        if let Some(existing) = first {
            if compare_bytes(self.nodes[existing].key.as_bytes(), key.as_bytes()) == ByteOrder::Equal {
                proof {
                    lemma_total_size_update(old_view, p, (key@, value@));
                }
                let old_size = self.nodes[existing].entry_size();
                self.nodes[existing].value = value;
                let new_size = self.nodes[existing].entry_size();
                self.approximate_size = (self.approximate_size + new_size) - old_size;
                proof {
                    assert(self@ =~= old_view.update(p, (key@, value@)));
                    assert(heights(self.nodes@) =~= hts);
                    assert forall|i: int| 0 <= i < self.nodes@.len() implies #[trigger] self.nodes@[i].forward@
                        == old_nodes[i].forward@ by {}
                    assert(sorted_keys(self@));
                }
                return;
            }
        }
        proof {
            if p < old_view.len() {
                assert(old_view[p].0 != key@);
                assert forall|r: int| p <= r < old_view.len() implies bytes_lt(key@, #[trigger] old_view[r].0) by {}
            }
            lemma_total_size_insert(old_view, p, (key@, value@));
            lemma_total_size_len(old_view);
            // the search ranks are no later than the insertion point, and no
            // node between them and the insertion point reaches their level
            assert forall|l: int| 0 <= l < self.max_level implies #[trigger] ranks[l] <= ranks[0] by {
                if ranks[l] > ranks[0] {
                    assert(self.nodes@[order[ranks[l]] as int].forward@.len() >= 1);
                    assert(self.height_of(ranks[l]) > 0);
                }
            }
            assert forall|l: int, r: int|
                0 <= l < self.max_level && #[trigger] ranks[l] < r <= ranks[0] implies old_nodes[#[trigger] order[r] as int].forward@.len() <= l by {
                if old_nodes[order[r] as int].forward@.len() > l {
                    assert(self.height_of(r) > l);
                    assert(bytes_lt(old_view[r].0, key@));
                }
            }
            assert forall|r1: int, r2: int|
                0 <= r1 < order.len() && 0 <= r2 < order.len() && r1 != r2 implies #[trigger] order[r1]
                    != #[trigger] order[r2] by {
                if r1 < r2 {
                    assert(bytes_lt(old_view[r1].0, old_view[r2].0));
                } else {
                    assert(bytes_lt(old_view[r2].0, old_view[r1].0));
                }
            }
        }
        proof {
            assert forall|j: int| 0 <= j < self.max_level implies #[trigger] update@[j] < old_nodes.len()
                && old_nodes[update@[j] as int].forward@.len() > j by {
                let q = ranks[j];
                if q >= 0 {
                    assert(self.height_of(q) > j);
                }
            }
        }
        let node_level = self.random_level();
        if node_level > self.level {
            self.level = node_level;
        }
        let node_index = self.nodes.len();
        let ghost new_level = self.level;
        let mut forward: Vec<Link> = Vec::new();
        let mut l: usize = 0;
        while l < node_level
            invariant
                l <= node_level <= self.max_level,
                self.max_level == SKIP_LIST_DEFAULT_LEVEL,
                self.approximate_size == total_size(old_view),
                self.level == new_level,
                node_level <= new_level <= self.max_level,
                forall|i: int| 1 <= i < old_nodes.len() ==> #[trigger] old_nodes[i].forward@.len() <= new_level,
                old_nodes[0].forward@.len() == self.max_level,
                node_index == old_nodes.len(),
                update@.len() == self.max_level,
                ranks.len() == self.max_level,
                self.order@ == order,
                forall|j: int| 0 <= j < self.max_level ==> #[trigger] update@[j] < old_nodes.len(),
                forall|j: int|
                    0 <= j < self.max_level ==> old_nodes[#[trigger] update@[j] as int].forward@.len() > j,
                self.nodes@.len() == old_nodes.len(),
                forward@.len() == l,
                forall|j: int| 0 <= j < l ==> #[trigger] forward@[j] == old_nodes[update@[j] as int].forward@[j],
                forall|i: int|
                    0 <= i < old_nodes.len() ==> {
                        &&& (#[trigger] self.nodes@[i]).key == old_nodes[i].key
                        &&& self.nodes@[i].value == old_nodes[i].value
                        &&& self.nodes@[i].forward@.len() == old_nodes[i].forward@.len()
                    },
                forall|i: int, j: int|
                    0 <= i < old_nodes.len() && 0 <= j < old_nodes[i].forward@.len()
                        ==> #[trigger] self.nodes@[i].forward@[j] == if j < l && update@[j] == i {
                        Some(node_index)
                    } else {
                        old_nodes[i].forward@[j]
                    },
            decreases node_level - l,
        {
            let previous = update[l];
            let link = self.nodes[previous].forward[l];
            forward.push(link);
            self.nodes[previous].forward[l] = Some(node_index);
            l = l + 1;
        }
        let entry_size = key.approximate_size() + value.approximate_size();
        self.approximate_size = self.approximate_size + entry_size;
        self.nodes.push(Node { key, value, forward });
        let ghost new_order = order.insert(p, node_index);
        self.order = Ghost(new_order);
        proof {
            lemma_insert_links(
                old_nodes,
                self.nodes@,
                order,
                ranks,
                update@,
                node_level as int,
                self.max_level as int,
            );
            assert(self@ =~= old_view.insert(p, (key@, value@)));
            assert(sorted_keys(self@));
            assert(self.nodes@.len() >= 1);
            assert(1 <= self.level <= self.max_level);
            assert(self.nodes@[0].forward@.len() == self.max_level);
            assert(forall|i: int| 1 <= i < self.nodes@.len() ==> 1 <= #[trigger] self.nodes@[i].forward@.len() <= self.level);
            assert(self.order@.len() + 1 == self.nodes@.len());
            assert(forall|r: int| 0 <= r < self.order@.len() ==> 1 <= #[trigger] self.order@[r] < self.nodes@.len());
            assert(links_ok(self.nodes@, self.order@, self.max_level as int));
            assert(self.approximate_size == total_size(self@));
        }
    }

    /// What the skip list holds for `key`.
    fn get_entry(&self, key: &Key) -> (r: Option<&Value>)
        requires
            self.wf(),
        ensures
            match lookup(self@, key@) {
                Some(v) => r matches Some(x) && x@ == v,
                None => r is None,
            },
    {
        let (previous, Ghost(p)) = self.find_previous(key);
        proof {
            lemma_bytes_lt_order();
            let s = self@;
            assert forall|r: int| 0 <= r < p + 1 implies bytes_lt(#[trigger] s[r].0, key@) by {
                if r < p {
                    assert(bytes_lt(s[r].0, s[p].0));
                }
            }
            lemma_lower_bound(s, key@, p + 1);
            self.lemma_level0(p + 1);
            let order = self.order@;
            let hts = heights(self.nodes@);
            assert(self.nodes@[0].forward@[0] == link_of(order, hts, 0, 0));
            if p >= 0 {
                assert(self.nodes@[order[p] as int].forward@[0] == link_of(order, hts, p + 1, 0));
            }
        }
        let candidate = self.next_at(previous, 0);
        match candidate {
            None => None,
            Some(c) => {
                if compare_bytes(self.nodes[c].key.as_bytes(), key.as_bytes()) == ByteOrder::Equal {
                    Some(&self.nodes[c].value)
                } else {
                    None
                }
            },
        }
    }

    /// The entries in key order, copied out along level 0.
    fn collect_entries(&self) -> (r: Vec<(Key, Value)>)
        requires
            self.wf(),
        ensures
            r@.len() == self@.len(),
            forall|i: int|
                0 <= i < r@.len() ==> (#[trigger] r@[i]).0@ == self@[i].0 && r@[i].1@ == self@[i].1,
    {
        let ghost order = self.order@;
        let ghost hts = heights(self.nodes@);
        let mut out: Vec<(Key, Value)> = Vec::new();
        proof {
            self.lemma_level0(0);
            assert(self.nodes@[0].forward@[0] == link_of(order, hts, 0, 0));
        }
        let mut next = self.nodes[0].forward[0];
        let ghost mut rank: int = 0;
        while next.is_some()
            invariant
                self.wf(),
                order == self.order@,
                hts == heights(self.nodes@),
                0 <= rank <= order.len(),
                next == link_of(order, hts, rank, 0),
                next == if rank < order.len() {
                    Some(order[rank])
                } else {
                    None::<usize>
                },
                out@.len() == rank,
                forall|i: int|
                    0 <= i < rank ==> (#[trigger] out@[i]).0@ == self@[i].0 && out@[i].1@ == self@[i].1,
            decreases order.len() - rank,
        {
            let index = match next {
                Some(i) => i,
                None => 0,
            };
            let node = &self.nodes[index];
            out.push((node.key.duplicate(), node.value.duplicate()));
            proof {
                assert(self.nodes@[order[rank] as int].forward@.len() >= 1);
                assert(self.nodes@[order[rank] as int].forward@[0] == link_of(order, hts, rank + 1, 0));
                self.lemma_level0(rank + 1);
            }
            next = node.forward[0];
            proof {
                rank = rank + 1;
            }
        }
        out
    }

    /// Walks one level: from the node at rank `p`, moves right while the
    /// next node's key comes before `key`.
    fn walk_level(&self, key: &Key, start: usize, p: Ghost<int>, lv: usize) -> (r: (usize, Ghost<int>))
        requires
            self.wf(),
            lv < self.max_level,
            -1 <= p@ < self.order@.len(),
            start == self.node_of(p@),
            p@ == -1 || (bytes_lt(self@[p@].0, key@) && self.height_of(p@) > lv),
            forall|r: int|
                p@ < r < self.order@.len() && #[trigger] self.height_of(r) > lv + 1 ==> !bytes_lt(
                    self@[r].0,
                    key@,
                ),
        ensures
            p@ <= r.1@ < self.order@.len(),
            r.0 == self.node_of(r.1@),
            r.1@ == -1 || (bytes_lt(self@[r.1@].0, key@) && self.height_of(r.1@) > lv),
            forall|q: int|
                r.1@ < q < self.order@.len() && #[trigger] self.height_of(q) > lv ==> !bytes_lt(
                    self@[q].0,
                    key@,
                ),
    {
        let ghost order = self.order@;
        let ghost hts = heights(self.nodes@);
        let mut current = start;
        let ghost mut rank: int = p@;
        let mut moving = true;
        proof {
            lemma_bytes_lt_order();
        }
        while moving
            invariant
                self.wf(),
                lv < self.max_level,
                order == self.order@,
                hts == heights(self.nodes@),
                -1 <= p@ <= rank < order.len(),
                self@.len() == order.len(),
                current == self.node_of(rank),
                rank == -1 || (bytes_lt(self@[rank].0, key@) && self.height_of(rank) > lv),
                forall|r: int|
                    rank < r < order.len() && #[trigger] self.height_of(r) > lv + 1 ==> !bytes_lt(
                        self@[r].0,
                        key@,
                    ),
                !moving ==> forall|q: int|
                    rank < q < order.len() && #[trigger] self.height_of(q) > lv ==> !bytes_lt(
                        self@[q].0,
                        key@,
                    ),
            decreases order.len() - rank, if moving { 1int } else { 0int },
        {
            proof {
                lemma_bytes_lt_order();
                lemma_next_rank(order, hts, rank + 1, lv as int);
                if rank >= 0 {
                    assert(self.nodes@[order[rank] as int].forward@[lv as int] == link_of(
                        order,
                        hts,
                        rank + 1,
                        lv as int,
                    ));
                } else {
                    assert(self.nodes@[0].forward@[lv as int] == link_of(order, hts, 0, lv as int));
                }
            }
            let ghost nr = next_rank(order, hts, rank + 1, lv as int);
            let next = self.next_at(current, lv);
            match next {
                Some(n) => {
                    assert(n == order[nr]);
                    assert(self.height_of(nr) == hts[order[nr] as int]);
                    if compare_bytes(self.nodes[n].key.as_bytes(), key.as_bytes()) == ByteOrder::Less {
                        proof {
                            assert forall|r: int|
                                nr < r < order.len() && #[trigger] self.height_of(r) > lv
                                    + 1 implies !bytes_lt(self@[r].0, key@) by {}
                        }
                        current = n;
                        proof {
                            rank = nr;
                        }
                    } else {
                        proof {
                            assert forall|q: int|
                                rank < q < order.len() && #[trigger] self.height_of(q)
                                    > lv implies !bytes_lt(self@[q].0, key@) by {
                                assert(self.height_of(q) == hts[order[q] as int]);
                                assert(self@[nr].0 == self.nodes@[n as int].key@);
                                if q < nr {
                                    assert(hts[order[q] as int] <= lv);
                                } else if q > nr {
                                    assert(bytes_lt(self@[nr].0, self@[q].0));
                                    if bytes_lt(self@[q].0, key@) {
                                        assert(bytes_lt(self@[nr].0, key@));
                                    }
                                }
                            }
                        }
                        moving = false;
                    }
                },
                None => {
                    proof {
                        assert forall|q: int|
                            rank < q < order.len() && #[trigger] self.height_of(q)
                                > lv implies !bytes_lt(self@[q].0, key@) by {
                            assert(hts[order[q] as int] <= lv);
                        }
                    }
                    moving = false;
                },
            }
        }
        (current, Ghost(rank))
    }
}

impl Default for SkipList {
    /// An empty skip list.
    fn default() -> (s: Self)
        ensures
            s.wf(),
            s@ == Seq::<(Seq<u8>, ValueView)>::empty(),
            s.rng() == SKIP_LIST_DEFAULT_RNG_SEED,
    {
        SkipList::new()
    }
}

impl MemTable for SkipList {
    open spec fn inv(&self) -> bool {
        self.wf()
    }

    open spec fn entries(&self) -> EntriesView {
        self@
    }

    fn put(&mut self, key: Key, value: Value) {
        self.put_entry(key, value);
    }

    fn get(&self, key: &Key) -> (r: Option<&Value>) {
        self.get_entry(key)
    }

    fn delete(&mut self, key: Key) {
        self.put_entry(key, Value::Tombstone);
    }

    fn iter(&self) -> (r: Vec<(Key, Value)>) {
        self.collect_entries()
    }

    fn approximate_size(&self) -> (r: usize) {
        self.approximate_size
    }

    fn is_empty(&self) -> (r: bool) {
        self.nodes.len() == 1
    }
}

} // verus!
