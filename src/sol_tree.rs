//! A compressed decision history. Each search state records its recent
//! decisions as bits of a word (a crumb); full words are committed to an
//! append-only tree that states share, and the history of any state can be
//! replayed into a decision vector.

use vstd::prelude::*;
use crate::problem::none_selected;

verus! {

/// Bit `k` (0 is the least significant) of `x`.
pub open spec fn bit_at(x: u64, k: int) -> bool {
    (x >> (k as u64)) & 1u64 == 1u64
}

/// The `level` lowest bits of `recent`, oldest first: the most recent decision
/// is the least significant bit and stands last.
pub open spec fn crumb_bits(recent: u64, level: nat) -> Seq<bool> {
    Seq::new(level, |i: int| bit_at(recent, level - 1 - i))
}

/// A tree is well formed when it holds its sentinel at index 0 and every
/// committed crumb links to an older one.
pub open spec fn tree_wf(tree: Seq<SolCrumb>) -> bool {
    &&& tree.len() >= 1
    &&& forall|i: int| 0 < i < tree.len() ==> #[trigger] tree[i].previous < i
}

/// The decisions committed along the chain that ends at tree index `idx`,
/// oldest first; index 0 (the sentinel) holds none.
pub open spec fn chain_bits(tree: Seq<SolCrumb>, idx: int) -> Seq<bool>
    decreases idx,
{
    if 0 < idx < tree.len() && tree[idx].previous < idx {
        chain_bits(tree, tree[idx].previous as int) + crumb_bits(tree[idx].recent, 64)
    } else {
        Seq::empty()
    }
}

/// The whole decision history of `crumb`, which holds `level` decisions of
/// its own, oldest first.
pub open spec fn history(tree: Seq<SolCrumb>, crumb: SolCrumb, level: nat) -> Seq<bool> {
    chain_bits(tree, crumb.previous as int) + crumb_bits(crumb.recent, level)
}

/// Toggles the entries of `d` that a history names. The decisions of `hist`
/// belong, in order, to the last `hist.len()` entries of `order`, and a `true`
/// decision toggles `d` at that entry.
pub open spec fn apply_flips(d: Seq<bool>, order: Seq<usize>, hist: Seq<bool>) -> Seq<bool>
    decreases hist.len(),
{
    if hist.len() == 0 || order.len() == 0 {
        d
    } else {
        let i = order.last() as int;
        apply_flips(d.update(i, d[i] != hist.last()), order.drop_last(), hist.drop_last())
    }
}

/// Recent decisions of a search state, and the tree index of its older ones.
#[derive(Clone, Copy, Debug)]
pub struct SolCrumb {
    pub recent: u64,
    pub previous: usize,
}

impl SolCrumb {
    pub fn new(previous: usize) -> (r: SolCrumb)
        ensures
            r.recent == 0,
            r.previous == previous,
    {
        SolCrumb { recent: 0, previous }
    }

    /// Records one more decision as the least significant bit.
    pub fn add_decision(&mut self, decision: bool)
        ensures
            final(self).previous == old(self).previous,
            final(self).recent == ((old(self).recent << 1u64) | (if decision {
                1u64
            } else {
                0u64
            })),
            forall|level: nat|
                level < 64 ==> crumb_bits(final(self).recent, level + 1) == #[trigger] crumb_bits(
                    old(self).recent,
                    level,
                ).push(decision),
    {
        let b: u64 = if decision {
            1
        } else {
            0
        };
        let ghost x = self.recent;
        self.recent = (self.recent << 1u64) | b;
        proof {
            assert forall|level: nat| level < 64 implies crumb_bits(self.recent, level + 1)
                == #[trigger] crumb_bits(x, level).push(decision) by {
                lemma_shift_in_bits(x, b, decision, level);
            }
        }
    }
}

proof fn lemma_shift_in_bits(x: u64, b: u64, decision: bool, level: nat)
    requires
        level < 64,
        b == (if decision {
            1u64
        } else {
            0u64
        }),
    ensures
        crumb_bits((x << 1u64) | b, level + 1) == crumb_bits(x, level).push(decision),
{
    let y = (x << 1u64) | b;
    assert forall|i: int| 0 <= i < level + 1 implies #[trigger] crumb_bits(y, level + 1)[i]
        == crumb_bits(x, level).push(decision)[i] by {
        let k = (level - i) as u64;
        if k == 0 {
            assert(((((x << 1u64) | b) >> 0u64) & 1u64) == b) by (bit_vector)
                requires
                    b <= 1u64,
            ;
        } else {
            assert(((((x << 1u64) | b) >> k) & 1u64) == ((x >> ((k - 1u64) as u64)) & 1u64))
                by (bit_vector)
                requires
                    b <= 1u64,
                    1u64 <= k < 64u64,
            ;
        }
    }
    assert(crumb_bits(y, level + 1) =~= crumb_bits(x, level).push(decision));
}

/// The shared store of committed crumbs.
pub struct SolTree {
    crumbs: Vec<SolCrumb>,
}

impl View for SolTree {
    type V = Seq<SolCrumb>;

    closed spec fn view(&self) -> Seq<SolCrumb> {
        self.crumbs@
    }
}

impl SolTree {
    pub open spec fn wf(&self) -> bool {
        tree_wf(self@)
    }

    /// A tree that holds only the sentinel at index 0.
    pub fn new() -> (r: SolTree)
        ensures
            r.wf(),
            r@ == seq![SolCrumb { recent: 0, previous: 0 }],
    {
        let crumbs = vec![SolCrumb::new(0)];
        SolTree { crumbs }
    }

    /// Number of crumbs in the tree, the sentinel included.
    pub fn len(&self) -> (r: usize)
        ensures
            r == self@.len(),
    {
        self.crumbs.len()
    }

    fn get(&self, index: usize) -> (r: &SolCrumb)
        requires
            index < self@.len(),
        ensures
            *r == self@[index as int],
    {
        &self.crumbs[index]
    }

    fn add_crumb(&mut self, crumb: SolCrumb) -> (r: usize)
        ensures
            final(self)@ == old(self)@.push(crumb),
            r == old(self)@.len(),
    {
        let result = self.crumbs.len();
        self.crumbs.push(crumb);
        result
    }

    /// Commits `crumb` to the tree and leaves it empty, linked to the copy.
    /// Its history is unchanged, and so is that of every crumb that links
    /// into the tree as it was.
    pub fn fresh_crumb(&mut self, crumb: &mut SolCrumb)
        requires
            old(self).wf(),
            old(crumb).previous < old(self)@.len(),
        ensures
            final(self).wf(),
            final(self)@ == old(self)@.push(*old(crumb)),
            final(crumb).recent == 0,
            final(crumb).previous == old(self)@.len(),
            history(final(self)@, *final(crumb), 0) == history(old(self)@, *old(crumb), 64),
            forall|idx: int|
                0 <= idx < old(self)@.len() ==> #[trigger] chain_bits(final(self)@, idx)
                    == chain_bits(old(self)@, idx),
    {
        let ghost t0 = self@;
        let ghost c0 = *crumb;
        let previous = self.add_crumb(*crumb);
        crumb.previous = previous;
        crumb.recent = 0;
        proof {
            lemma_chain_bits_append(t0, c0);
            assert(crumb_bits(0, 0) =~= Seq::<bool>::empty());
            assert(history(self@, *crumb, 0) =~= history(t0, c0, 64));
        }
    }

    /// Replays the history of `root_crumb`, which holds `level` decisions of
    /// its own, into `decision_vector`: each decision belongs to an entry of
    /// `item_order`, the most recent one to the last entry, and a `true`
    /// decision toggles the vector at the item that the entry names.
    pub fn backtrack(
        &self,
        root_crumb: SolCrumb,
        level: usize,
        item_order: &[usize],
        decision_vector: &mut Vec<bool>,
    )
        requires
            self.wf(),
            root_crumb.previous < self@.len(),
            level <= 64,
            history(self@, root_crumb, level as nat).len() <= item_order@.len(),
            forall|k: int|
                0 <= k < item_order@.len() ==> #[trigger] item_order@[k] < old(
                    decision_vector,
                )@.len(),
        ensures
            final(decision_vector)@ == apply_flips(
                old(decision_vector)@,
                item_order@,
                history(self@, root_crumb, level as nat),
            ),
    {
        let ghost tree = self@;
        let ghost d0 = decision_vector@;
        let ghost h = history(tree, root_crumb, level as nat);
        let ghost n = item_order@.len();
        let mut bt_state = BacktrackState::new(item_order);
        proof {
            lemma_chain_bits_len(tree, root_crumb.previous as int);
            assert(item_order@.take(n as int) =~= item_order@);
            assert(h.skip(chain_bits(tree, root_crumb.previous as int).len() as int) =~= crumb_bits(
                root_crumb.recent,
                level as nat,
            ));
        }
        backtrack_crumb(root_crumb.recent, level, item_order, &mut bt_state, decision_vector);
        proof {
            lemma_apply_flips_len(d0, item_order@, crumb_bits(root_crumb.recent, level as nat));
        }
        let mut previous_crumb = root_crumb.previous;
        while previous_crumb != 0
            invariant
                tree == self@,
                tree_wf(tree),
                previous_crumb < tree.len(),
                h == history(tree, root_crumb, level as nat),
                h.len() <= n,
                chain_bits(tree, previous_crumb as int).len() <= h.len(),
                n == item_order@.len(),
                bt_state.item_start as int == n - h.len() + chain_bits(
                    tree,
                    previous_crumb as int,
                ).len(),
                h.take(chain_bits(tree, previous_crumb as int).len() as int) == chain_bits(
                    tree,
                    previous_crumb as int,
                ),
                decision_vector@ == apply_flips(
                    d0,
                    item_order@,
                    h.skip(chain_bits(tree, previous_crumb as int).len() as int),
                ),
                decision_vector@.len() == d0.len(),
                forall|k: int| 0 <= k < n ==> #[trigger] item_order@[k] < d0.len(),
            decreases previous_crumb,
        {
            let crumb = self.get(previous_crumb);
            let ghost c = chain_bits(tree, previous_crumb as int);
            let ghost c1 = chain_bits(tree, crumb.previous as int);
            let ghost bits = crumb_bits(crumb.recent, 64);
            proof {
                lemma_chain_bits_len(tree, crumb.previous as int);
                assert(c == c1 + bits);
                assert(h.take(c1.len() as int) =~= h.take(c.len() as int).take(c1.len() as int));
                assert(c.take(c1.len() as int) =~= c1);
                assert forall|j: int| 0 <= j < h.len() - c1.len() implies #[trigger] h.skip(
                    c1.len() as int,
                )[j] == (bits + h.skip(c.len() as int))[j] by {
                    if j < 64 {
                        assert(h.take(c.len() as int)[c1.len() + j] == c[c1.len() + j]);
                    }
                }
                assert(h.skip(c1.len() as int) =~= bits + h.skip(c.len() as int));
                lemma_apply_flips_concat(d0, item_order@, bits, h.skip(c.len() as int));
                assert(item_order@.take(n - h.skip(c.len() as int).len()) =~= item_order@.take(
                    bt_state.item_start as int,
                ));
            }
            backtrack_crumb(crumb.recent, 64, item_order, &mut bt_state, decision_vector);
            previous_crumb = crumb.previous;
        }
        proof {
            assert(h.skip(0) =~= h);
        }
    }
}

/// Where backtracking stands: the entries of `item_order` before
/// `item_start` are still to be replayed.
pub struct BacktrackState {
    pub item_start: usize,
}

impl BacktrackState {
    pub fn new(item_order: &[usize]) -> (r: BacktrackState)
        ensures
            r.item_start == item_order@.len(),
    {
        BacktrackState { item_start: item_order.len() }
    }
}

/// Replays the `level` decisions held in `recent` (the most recent one is the
/// least significant bit) onto the entries of `item_order` just before
/// `bt_state.item_start`, and moves `item_start` past them.
pub fn backtrack_crumb(
    recent: u64,
    level: usize,
    item_order: &[usize],
    bt_state: &mut BacktrackState,
    decision_vector: &mut Vec<bool>,
)
    requires
        level <= 64,
        level <= old(bt_state).item_start <= item_order@.len(),
        forall|k: int|
            0 <= k < item_order@.len() ==> #[trigger] item_order@[k] < old(decision_vector)@.len(),
    ensures
        final(bt_state).item_start == old(bt_state).item_start - level,
        final(decision_vector)@.len() == old(decision_vector)@.len(),
        final(decision_vector)@ == apply_flips(
            old(decision_vector)@,
            item_order@.take(old(bt_state).item_start as int),
            crumb_bits(recent, level as nat),
        ),
{
    let ghost d0 = decision_vector@;
    let ghost start = bt_state.item_start as int;
    let ghost bits = crumb_bits(recent, level as nat);
    let mut binary_decisions = recent;
    let mut i: usize = 0;
    proof {
        assert(recent >> 0u64 == recent) by (bit_vector);
        assert(bits.take(level as int) =~= bits);
        assert(item_order@.take(start - 0) =~= item_order@.take(start));
    }
    while i < level
        invariant
            level <= 64,
            0 <= i <= level,
            level <= start <= item_order@.len(),
            bt_state.item_start == start - i,
            i < 64 ==> binary_decisions == recent >> (i as u64),
            bits == crumb_bits(recent, level as nat),
            decision_vector@.len() == d0.len(),
            forall|k: int| 0 <= k < item_order@.len() ==> #[trigger] item_order@[k] < d0.len(),
            apply_flips(d0, item_order@.take(start), bits) == apply_flips(
                decision_vector@,
                item_order@.take(start - i),
                bits.take(level - i),
            ),
        decreases level - i,
    {
        let decision = (binary_decisions & 1u64) != 0;
        let ghost before = binary_decisions;
        binary_decisions = binary_decisions >> 1u64;
        let index = item_order[bt_state.item_start - 1];
        let ghost dv = decision_vector@;
        let flipped = decision_vector[index] != decision;
        decision_vector.set(index, flipped);
        bt_state.item_start = bt_state.item_start - 1;
        proof {
            let ii = i as u64;
            assert(((recent >> ii) >> 1u64) == recent >> ((ii + 1u64) as u64)) by (bit_vector)
                requires
                    ii < 64u64,
            ;
            assert((before & 1u64) != 0u64 <==> (before & 1u64) == 1u64) by (bit_vector);
            assert(decision == bit_at(recent, i as int));
            let o = item_order@.take(start - i);
            let hb = bits.take(level - i);
            assert(hb.last() == decision);
            assert(o.last() == index);
            assert(o.drop_last() =~= item_order@.take(start - i - 1));
            assert(hb.drop_last() =~= bits.take(level - i - 1));
        }
        i = i + 1;
    }
    proof {
        assert(bits.take(0) =~= Seq::<bool>::empty());
    }
}

/// Committing a new crumb keeps every chain of the tree, and the new chain
/// extends the crumb's own.
proof fn lemma_chain_bits_append(tree: Seq<SolCrumb>, c: SolCrumb)
    requires
        tree_wf(tree),
        c.previous < tree.len(),
    ensures
        tree_wf(tree.push(c)),
        forall|idx: int|
            0 <= idx < tree.len() ==> #[trigger] chain_bits(tree.push(c), idx) == chain_bits(
                tree,
                idx,
            ),
        chain_bits(tree.push(c), tree.len() as int) == chain_bits(tree, c.previous as int)
            + crumb_bits(c.recent, 64),
{
    let t2 = tree.push(c);
    assert forall|i: int| 0 < i < t2.len() implies #[trigger] t2[i].previous < i by {
        if i < tree.len() {
            assert(t2[i] == tree[i]);
        }
    }
    assert forall|idx: int| 0 <= idx < tree.len() implies #[trigger] chain_bits(t2, idx)
        == chain_bits(tree, idx) by {
        lemma_chain_bits_prefix(tree, c, idx);
    }
    lemma_chain_bits_prefix(tree, c, c.previous as int);
}

proof fn lemma_chain_bits_prefix(tree: Seq<SolCrumb>, c: SolCrumb, idx: int)
    requires
        tree_wf(tree),
        0 <= idx < tree.len(),
    ensures
        chain_bits(tree.push(c), idx) == chain_bits(tree, idx),
    decreases idx,
{
    if idx > 0 {
        assert(tree.push(c)[idx] == tree[idx]);
        lemma_chain_bits_prefix(tree, c, tree[idx].previous as int);
    }
}

/// A chain of a well-formed tree holds 64 decisions for each committed crumb,
/// so it is empty exactly at the sentinel.
proof fn lemma_chain_bits_len(tree: Seq<SolCrumb>, idx: int)
    requires
        tree_wf(tree),
        0 <= idx < tree.len(),
    ensures
        chain_bits(tree, idx).len() % 64 == 0,
        idx == 0 <==> chain_bits(tree, idx).len() == 0,
        idx != 0 ==> chain_bits(tree, idx) == chain_bits(tree, tree[idx].previous as int)
            + crumb_bits(tree[idx].recent, 64),
    decreases idx,
{
    if idx > 0 {
        assert(tree[idx].previous < idx);
        lemma_chain_bits_len(tree, tree[idx].previous as int);
    }
}

/// Replaying a history keeps the length of the vector.
pub proof fn lemma_apply_flips_len(d: Seq<bool>, order: Seq<usize>, hist: Seq<bool>)
    requires
        forall|k: int| 0 <= k < order.len() ==> #[trigger] order[k] < d.len(),
    ensures
        apply_flips(d, order, hist).len() == d.len(),
    decreases hist.len(),
{
    if hist.len() > 0 && order.len() > 0 {
        let i = order.last() as int;
        let d1 = d.update(i, d[i] != hist.last());
        assert forall|k: int| 0 <= k < order.drop_last().len() implies #[trigger] order.drop_last()[k] < d1.len() by {
            assert(order.drop_last()[k] == order[k]);
        }
        lemma_apply_flips_len(d1, order.drop_last(), hist.drop_last());
    }
}

/// Replaying a history leaves alone an entry that `order` does not name, so a
/// change made there before replaying can as well be made after.
pub proof fn lemma_apply_flips_untouched(d: Seq<bool>, order: Seq<usize>, hist: Seq<bool>, o: int, x: bool)
    requires
        0 <= o < d.len(),
        forall|k: int| 0 <= k < order.len() ==> #[trigger] order[k] < d.len() && order[k] != o,
    ensures
        apply_flips(d, order, hist)[o] == d[o],
        apply_flips(d.update(o, x), order, hist) == apply_flips(d, order, hist).update(o, x),
    decreases hist.len(),
{
    if hist.len() > 0 && order.len() > 0 {
        let i = order.last() as int;
        let d1 = d.update(i, d[i] != hist.last());
        let d2 = d.update(o, x).update(i, d.update(o, x)[i] != hist.last());
        assert(d2 =~= d1.update(o, x));
        assert forall|k: int| 0 <= k < order.drop_last().len() implies #[trigger] order.drop_last()[k] < d1.len() && order.drop_last()[k] != o by {
            assert(order.drop_last()[k] == order[k]);
        }
        lemma_apply_flips_untouched(d1, order.drop_last(), hist.drop_last(), o, x);
    }
}

/// Replaying a history into an all-false vector recovers it: the entry of
/// each item that `item_order` names holds the decision recorded for that
/// item, and every other entry stays false.
pub proof fn lemma_crumb_round_trip(hist: Seq<bool>, item_order: Seq<usize>, n: nat)
    requires
        hist.len() == item_order.len(),
        item_order.no_duplicates(),
        forall|k: int| 0 <= k < item_order.len() ==> #[trigger] item_order[k] < n,
    ensures
        apply_flips(none_selected(n), item_order, hist).len() == n,
        forall|k: int|
            0 <= k < hist.len() ==> apply_flips(none_selected(n), item_order, hist)[#[trigger] item_order[k] as int]
                == hist[k],
        forall|i: int|
            0 <= i < n && !item_order.contains(i as usize) ==> !#[trigger] apply_flips(
                none_selected(n),
                item_order,
                hist,
            )[i],
    decreases hist.len(),
{
    let d = none_selected(n);
    lemma_apply_flips_len(d, item_order, hist);
    if hist.len() > 0 {
        let o = item_order.last();
        let io = item_order.drop_last();
        let h = hist.drop_last();
        assert forall|k: int| 0 <= k < io.len() implies #[trigger] io[k] < d.len() && io[k] != o by {
            assert(io[k] == item_order[k]);
            assert(item_order[k] != item_order[item_order.len() - 1]);
        }
        assert(io.no_duplicates()) by {
            assert forall|a: int, b: int| 0 <= a < io.len() && 0 <= b < io.len() && a != b implies io[a] != io[b] by {
                assert(io[a] == item_order[a] && io[b] == item_order[b]);
            }
        }
        lemma_apply_flips_untouched(d, io, h, o as int, hist.last());
        lemma_crumb_round_trip(h, io, n);
        let r = apply_flips(d, item_order, hist);
        let r0 = apply_flips(d, io, h);
        assert(r == r0.update(o as int, hist.last()));
        assert forall|k: int| 0 <= k < hist.len() implies r[#[trigger] item_order[k] as int] == hist[k] by {
            if k < h.len() {
                assert(item_order[k] == io[k]);
                assert(r0[io[k] as int] == h[k]);
            }
        }
        assert forall|i: int| 0 <= i < n && !item_order.contains(i as usize) implies !#[trigger] r[i] by {
            if io.contains(i as usize) {
                let k = choose|k: int| 0 <= k < io.len() && #[trigger] io[k] == i as usize;
                assert(item_order[k] == i as usize);
            }
            assert(item_order[item_order.len() - 1] == o);
        }
    }
}

/// Replaying two histories one after the other, the later one first.
pub proof fn lemma_apply_flips_concat(d: Seq<bool>, order: Seq<usize>, h1: Seq<bool>, h2: Seq<bool>)
    requires
        h1.len() + h2.len() <= order.len(),
    ensures
        apply_flips(d, order, h1 + h2) == apply_flips(
            apply_flips(d, order, h2),
            order.take(order.len() - h2.len()),
            h1,
        ),
    decreases h2.len(),
{
    if h2.len() == 0 {
        assert(h1 + h2 =~= h1);
        assert(order.take(order.len() as int) =~= order);
    } else {
        let i = order.last() as int;
        let d1 = d.update(i, d[i] != h2.last());
        assert((h1 + h2).last() == h2.last());
        assert((h1 + h2).drop_last() =~= h1 + h2.drop_last());
        lemma_apply_flips_concat(d1, order.drop_last(), h1, h2.drop_last());
        assert(order.drop_last().take(order.drop_last().len() - h2.drop_last().len()) =~= order.take(
            order.len() - h2.len(),
        ));
    }
}

} // verus!
