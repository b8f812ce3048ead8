//! A tree of ranked votes, in which the votes that begin alike share a branch.

use crate::candidate::{
    copy_candidate, distinct, find_candidate, firsts, lawful, position, same_candidate,
};
use crate::plurality::{count_once, count_sum, counted_once};
use vstd::prelude::*;

verus! {

/// The way in which a vote is handed on from one preference to the next.
#[derive(Debug, Clone, Copy, PartialEq, Eq, Structural)]
pub enum Transfer {
    /// Each preference keeps its candidate's weight times what is left of the vote.
    Meek,
    /// Each preference keeps its candidate's weight, or what is left of the vote where
    /// that is less.
    Warren,
}

/// A tree of votes. A node stands for a beginning of votes; it counts the votes that begin
/// so, and has a branch for each candidate with which they go on.
pub struct VoteTree<T: Eq + Clone> {
    /// The weight of the votes that pass through this node.
    pub count: u64,
    /// The branches: the candidates with which the votes go on, each with its tree.
    pub children: Vec<(T, VoteTree<T>)>,
}

/// The counts of the first `upto` branches, summed.
pub open spec fn child_sum<T: Eq + Clone>(children: Seq<(T, VoteTree<T>)>, upto: nat) -> nat
    decreases upto,
{
    if upto == 0 || upto > children.len() {
        0
    } else {
        child_sum(children, (upto - 1) as nat) + children[upto - 1].1.count as nat
    }
}

/// Whether the first `upto` branches are consistent trees.
pub open spec fn branches_wf<T: Eq + Clone>(children: Seq<(T, VoteTree<T>)>, upto: nat) -> bool
    decreases children, upto,
{
    if upto == 0 || upto > children.len() {
        true
    } else {
        branches_wf(children, (upto - 1) as nat) && children[upto - 1].1.wf()
    }
}

/// What handing out the votes of the first `upto` branches adds to the scores, and how
/// much it hands out; see `VoteTree::distributed`.
pub open spec fn distributed_upto<T: Eq + Clone>(
    children: Seq<(T, VoteTree<T>)>,
    upto: nat,
    scores: Seq<(T, u64)>,
    eliminated: Seq<T>,
) -> (Seq<(T, u64)>, nat)
    decreases children, upto,
{
    if upto == 0 || upto > children.len() {
        (scores, 0)
    } else {
        let (before, assigned) = distributed_upto(children, (upto - 1) as nat, scores, eliminated);
        let (name, branch) = children[upto - 1];
        if !eliminated.contains(name) {
            (counted_once(before, name, branch.count), assigned + branch.count as nat)
        } else {
            let (after, deeper) = branch.distributed(before, eliminated);
            (after, assigned + deeper)
        }
    }
}

/// The weight of a candidate in a list of candidates with weights: that of its first
/// entry, or zero where it has none.
pub open spec fn weight_of<T>(weights: Seq<(T, u64)>, candidate: T) -> u64 {
    let at = position(firsts(weights), candidate);
    if 0 <= at < weights.len() {
        weights[at].1
    } else {
        0
    }
}

/// What a preference keeps of a vote of which `vote` parts of `base` are left, for a
/// candidate of the given weight: by Meek the weight times what is left, in parts of
/// `base`; by Warren the weight, or what is left where that is less.
pub open spec fn kept(transfer: Transfer, vote: u64, weight: u64, base: u64) -> nat {
    match transfer {
        Transfer::Meek => (vote * weight / (base as int)) as nat,
        Transfer::Warren => if vote < weight {
            vote as nat
        } else {
            weight as nat
        },
    }
}

/// What transferring the votes of the first `upto` branches adds to the scores, and how
/// much it assigns; see `VoteTree::transferred`.
pub open spec fn transferred_upto<T: Eq + Clone>(
    children: Seq<(T, VoteTree<T>)>,
    upto: nat,
    scores: Seq<(T, u64)>,
    weights: Seq<(T, u64)>,
    vote: u64,
    base: u64,
    transfer: Transfer,
) -> (Seq<(T, u64)>, nat)
    decreases children, upto,
{
    if upto == 0 || upto > children.len() {
        (scores, 0)
    } else {
        let (before, assigned) = transferred_upto(
            children,
            (upto - 1) as nat,
            scores,
            weights,
            vote,
            base,
            transfer,
        );
        let (name, branch) = children[upto - 1];
        let given = kept(transfer, vote, weight_of(weights, name), base);
        let (scored, direct) = if given > 0 {
            (
                counted_once(before, name, (branch.count * given) as u64),
                (branch.count * given) as nat,
            )
        } else {
            (before, 0nat)
        };
        if given < vote {
            let (after, deeper) = branch.transferred(
                scored,
                weights,
                (vote - given) as u64,
                base,
                transfer,
            );
            (after, (assigned + direct + deeper) as nat)
        } else {
            (scored, (assigned + direct) as nat)
        }
    }
}

/// A preference keeps no more of a vote than is left of it, where no weight exceeds the
/// base.
pub proof fn lemma_kept(transfer: Transfer, vote: u64, weight: u64, base: u64)
    requires
        0 < base,
        weight <= base,
    ensures
        kept(transfer, vote, weight, base) <= vote,
{
    if transfer is Meek {
        let product = vote * weight;
        let whole = vote * base;
        assert(product <= whole) by (nonlinear_arith)
            requires
                product == vote * weight,
                whole == vote * base,
                weight <= base,
                0 <= vote,
        ;
        assert(product / (base as int) <= vote) by (nonlinear_arith)
            requires
                product <= vote * base,
                0 < base,
                0 <= product,
        ;
        assert(0 <= product / (base as int)) by (nonlinear_arith)
            requires
                0 <= product,
                0 < base,
        ;
    }
}

/// Whether no weight of the list exceeds the base.
pub open spec fn weights_within<T>(weights: Seq<(T, u64)>, base: u64) -> bool {
    forall|i: int| 0 <= i < weights.len() ==> (#[trigger] weights[i]).1 <= base
}

/// The points after the first `upto` branches have been counted at the given depth, and
/// the weight counted; see `VoteTree::rank_counted`.
pub open spec fn rank_counted_upto<T: Eq + Clone>(
    children: Seq<(T, VoteTree<T>)>,
    upto: nat,
    points: Seq<((T, usize), u64)>,
    skipped: Seq<T>,
    depth: nat,
) -> (Seq<((T, usize), u64)>, nat)
    decreases children, upto,
{
    if upto == 0 || upto > children.len() {
        (points, 0)
    } else {
        let (before, weight) = rank_counted_upto(
            children,
            (upto - 1) as nat,
            points,
            skipped,
            depth,
        );
        let (name, branch) = children[upto - 1];
        if !skipped.contains(name) {
            let counted = counted_once(before, (name, depth as usize), branch.count);
            let (after, deeper) = branch.rank_counted(counted, skipped, depth + 1);
            (after, weight + branch.count as nat + deeper)
        } else {
            let (after, deeper) = branch.rank_counted(before, skipped, depth);
            (after, weight + deeper)
        }
    }
}

/// The length of the longest path of the first `upto` branches and their trees.
pub open spec fn height_upto<T: Eq + Clone>(children: Seq<(T, VoteTree<T>)>, upto: nat) -> nat
    decreases children, upto,
{
    if upto == 0 || upto > children.len() {
        0
    } else {
        let before = height_upto(children, (upto - 1) as nat);
        let here = 1 + children[upto - 1].1.height();
        if before > here {
            before
        } else {
            here
        }
    }
}

/// No branch is on a longer path than the longest.
pub proof fn lemma_height_upto<T: Eq + Clone>(children: Seq<(T, VoteTree<T>)>, upto: nat, at: int)
    requires
        0 <= at < upto <= children.len(),
    ensures
        1 + children[at].1.height() <= height_upto(children, upto),
    decreases upto,
{
    if at < upto - 1 {
        lemma_height_upto(children, (upto - 1) as nat, at);
    }
}

/// The candidates gathered from the first `upto` branches and their trees; see
/// `VoteTree::gathered`.
pub open spec fn gathered_upto<T: Eq + Clone>(
    children: Seq<(T, VoteTree<T>)>,
    upto: nat,
    names: Seq<T>,
) -> Seq<T>
    decreases children, upto,
{
    if upto == 0 || upto > children.len() {
        names
    } else {
        let before = gathered_upto(children, (upto - 1) as nat, names);
        let (name, branch) = children[upto - 1];
        if before.contains(name) {
            branch.gathered(before)
        } else {
            branch.gathered(before.push(name))
        }
    }
}

/// The sum of the counts of the first branches grows with their number.
pub proof fn lemma_child_sum_grows<T: Eq + Clone>(
    children: Seq<(T, VoteTree<T>)>,
    fewer: nat,
    upto: nat,
)
    requires
        fewer <= upto <= children.len(),
    ensures
        child_sum(children, fewer) <= child_sum(children, upto),
    decreases upto,
{
    if fewer < upto {
        lemma_child_sum_grows(children, fewer, (upto - 1) as nat);
    }
}

/// Lists whose first `upto` branches have the same counts have the same sum of counts.
pub proof fn lemma_child_sum_same<T: Eq + Clone>(
    one: Seq<(T, VoteTree<T>)>,
    other: Seq<(T, VoteTree<T>)>,
    upto: nat,
)
    requires
        upto <= one.len(),
        upto <= other.len(),
        forall|i: int| 0 <= i < upto ==> one[i].1.count == other[i].1.count,
    ensures
        child_sum(one, upto) == child_sum(other, upto),
    decreases upto,
{
    if upto > 0 {
        lemma_child_sum_same(one, other, (upto - 1) as nat);
    }
}

/// Each of the first branches of a consistent list is a consistent tree.
pub proof fn lemma_branch_wf<T: Eq + Clone>(children: Seq<(T, VoteTree<T>)>, upto: nat, at: int)
    requires
        branches_wf(children, upto),
        0 <= at < upto <= children.len(),
    ensures
        children[at].1.wf(),
    decreases upto,
{
    if at < upto - 1 {
        lemma_branch_wf(children, (upto - 1) as nat, at);
    }
}

/// Where each of the first branches is a consistent tree, the list is consistent.
pub proof fn lemma_branches_wf<T: Eq + Clone>(children: Seq<(T, VoteTree<T>)>, upto: nat)
    requires
        upto <= children.len(),
        forall|i: int| 0 <= i < upto ==> (#[trigger] children[i]).1.wf(),
    ensures
        branches_wf(children, upto),
    decreases upto,
{
    if upto > 0 {
        lemma_branches_wf(children, (upto - 1) as nat);
    }
}

/// No branch counts more than all branches together.
pub proof fn lemma_child_sum_holds<T: Eq + Clone>(
    children: Seq<(T, VoteTree<T>)>,
    upto: nat,
    at: int,
)
    requires
        0 <= at < upto <= children.len(),
    ensures
        children[at].1.count <= child_sum(children, upto),
    decreases upto,
{
    if at < upto - 1 {
        lemma_child_sum_holds(children, (upto - 1) as nat, at);
    }
}

/// The sum of the counts after one branch has been replaced.
pub proof fn lemma_child_sum_update<T: Eq + Clone>(
    children: Seq<(T, VoteTree<T>)>,
    upto: nat,
    at: int,
    item: (T, VoteTree<T>),
)
    requires
        0 <= at < upto <= children.len(),
    ensures
        child_sum(children.update(at, item), upto) == child_sum(children, upto)
            - children[at].1.count + item.1.count,
    decreases upto,
{
    let after = children.update(at, item);
    if at < upto - 1 {
        lemma_child_sum_update(children, (upto - 1) as nat, at, item);
    } else {
        lemma_child_sum_same(children, after, (upto - 1) as nat);
    }
}

/// The sum of the counts after a branch has been added.
pub proof fn lemma_child_sum_push<T: Eq + Clone>(
    children: Seq<(T, VoteTree<T>)>,
    item: (T, VoteTree<T>),
)
    ensures
        child_sum(children.push(item), children.len() + 1) == child_sum(children, children.len())
            + item.1.count,
{
    lemma_child_sum_same(children, children.push(item), children.len());
}

/// A tree that came from an empty tree by adding a vote is a single path.
pub proof fn lemma_chain<T: Eq + Clone>(
    fresh: VoteTree<T>,
    tree: VoteTree<T>,
    rest: Seq<T>,
    count: u64,
)
    requires
        fresh.count == 0,
        fresh.branches().len() == 0,
        fresh.is_added(tree, rest, count),
    ensures
        tree.is_chain(rest, count),
    decreases rest.len(),
{
    if rest.len() > 0 {
        crate::candidate::lemma_position(firsts(fresh.branches()), rest[0]);
        assert(tree.branches().len() == 1);
        assert(tree.branches().last() == tree.branches()[0]);
    } else {
        assert(tree.branches().len() == 0);
    }
}

/// The weight counted for the first branches grows with their number.
pub proof fn lemma_rank_counted_grows<T: Eq + Clone>(
    children: Seq<(T, VoteTree<T>)>,
    fewer: nat,
    upto: nat,
    points: Seq<((T, usize), u64)>,
    skipped: Seq<T>,
    depth: nat,
)
    requires
        fewer <= upto <= children.len(),
    ensures
        rank_counted_upto(children, fewer, points, skipped, depth).1 <= rank_counted_upto(
            children,
            upto,
            points,
            skipped,
            depth,
        ).1,
    decreases upto,
{
    if fewer < upto {
        lemma_rank_counted_grows(children, fewer, (upto - 1) as nat, points, skipped, depth);
    }
}

/// Adds `amount` to the points of a candidate at a place, or adds the candidate at that
/// place behind the others.
pub fn count_rank<T: Eq + Clone>(
    points: &mut Vec<((T, usize), u64)>,
    name: T,
    depth: usize,
    amount: u64,
)
    requires
        lawful::<T>(),
        distinct(firsts(old(points)@)),
        count_sum(old(points)@) + amount <= u64::MAX,
    ensures
        final(points)@ == counted_once(old(points)@, (name, depth), amount),
        distinct(firsts(final(points)@)),
        count_sum(final(points)@) == count_sum(old(points)@) + amount,
{
    let ghost keys = firsts(points@);
    proof {
        crate::plurality::lemma_counted_once_sum(points@, (name, depth), amount);
        crate::candidate::lemma_position(keys, (name, depth));
    }
    let mut at: usize = 0;
    while at < points.len() && !(same_candidate(&points[at].0.0, &name) && points[at].0.1 == depth)
        invariant
            lawful::<T>(),
            points@ == old(points)@,
            keys == firsts(points@),
            0 <= at <= points@.len(),
            forall|k: int| 0 <= k < at ==> keys[k] != (name, depth),
        decreases points@.len() - at,
    {
        assert(keys[at as int] == points@[at as int].0);
        at += 1;
    }
    proof {
        if at < points@.len() {
            assert(keys[at as int] == points@[at as int].0);
            crate::plurality::lemma_count_within_sum(points@, at as int);
        }
        assert(at == position(keys, (name, depth)));
    }
    if at < points.len() {
        let count = points[at].1;
        points.set(at, ((name, depth), count + amount));
    } else {
        points.push(((name, depth), amount));
    }
}

/// The place of the first entry for a candidate in a list of candidates with weights.
pub fn find_entry<T: Eq + Clone>(weights: &[(T, u64)], candidate: &T) -> (found: Option<usize>)
    requires
        lawful::<T>(),
    ensures
        found.is_some() ==> found.unwrap() == position(firsts(weights@), *candidate)
            && found.unwrap() < weights@.len() && weights@[found.unwrap() as int].1 == weight_of(
            weights@,
            *candidate,
        ),
        found.is_none() ==> weight_of(weights@, *candidate) == 0,
{
    let ghost names = firsts(weights@);
    let mut i: usize = 0;
    while i < weights.len()
        invariant
            lawful::<T>(),
            names == firsts(weights@),
            0 <= i <= weights@.len(),
            forall|k: int| 0 <= k < i ==> names[k] != *candidate,
        decreases weights@.len() - i,
    {
        if same_candidate(&weights[i].0, candidate) {
            proof {
                assert(names[i as int] == *candidate);
                crate::candidate::lemma_position(names, *candidate);
            }
            return Some(i);
        }
        i += 1;
    }
    proof {
        crate::candidate::lemma_position(names, *candidate);
    }
    None
}

impl<T: Eq + Clone> VoteTree<T> {
    /// The branches of this node: the candidates with which the votes go on, each with its
    /// tree.
    pub open spec fn branches(self) -> Seq<(T, VoteTree<T>)> {
        self.children@
    }

    /// Whether the tree is consistent: no node has two branches for one candidate, and the
    /// votes that go on from a node are no more than those that pass through it.
    pub open spec fn wf(self) -> bool
        decreases self,
    {
        &&& distinct(firsts(self.branches()))
        &&& child_sum(self.branches(), self.branches().len()) <= self.count
        &&& branches_wf(self.branches(), self.branches().len())
    }

    /// The count of the node that the path of candidates leads to, or zero where the tree
    /// has no such node.
    pub open spec fn count_at(self, path: Seq<T>) -> nat
        decreases path.len(),
    {
        if path.len() == 0 {
            self.count as nat
        } else {
            let at = position(firsts(self.branches()), path[0]);
            if 0 <= at < self.branches().len() {
                self.branches()[at].1.count_at(path.skip(1))
            } else {
                0
            }
        }
    }

    /// Whether the tree is a single path for the candidates of `rest` with the same count
    /// at each node.
    pub open spec fn is_chain(self, rest: Seq<T>, count: u64) -> bool
        decreases rest.len(),
    {
        &&& self.count == count
        &&& if rest.len() == 0 {
            self.branches().len() == 0
        } else {
            &&& self.branches().len() == 1
            &&& self.branches()[0].0 == rest[0]
            &&& self.branches()[0].1.is_chain(rest.skip(1), count)
        }
    }

    /// Whether `after` is this tree with a vote of the given weight added: the count of
    /// each node on the path of the vote has grown by the weight, the nodes that the path
    /// lacked have been added, each as the last branch of its node, and nothing else has
    /// changed.
    pub open spec fn is_added(self, after: VoteTree<T>, vote: Seq<T>, count: u64) -> bool
        decreases vote.len(),
    {
        &&& after.count == self.count + count
        &&& if vote.len() == 0 {
            after.branches() == self.branches()
        } else {
            let at = position(firsts(self.branches()), vote[0]);
            if 0 <= at < self.branches().len() {
                &&& after.branches().len() == self.branches().len()
                &&& after.branches()[at].0 == vote[0]
                &&& self.branches()[at].1.is_added(after.branches()[at].1, vote.skip(1), count)
                &&& forall|i: int|
                    0 <= i < self.branches().len() && i != at ==> after.branches()[i]
                        == self.branches()[i]
            } else {
                &&& after.branches().len() == self.branches().len() + 1
                &&& after.branches().last().0 == vote[0]
                &&& after.branches().last().1.is_chain(vote.skip(1), count)
                &&& after.branches().drop_last() == self.branches()
            }
        }
    }

    /// The scores after the votes of this tree have been handed out, and the weight handed
    /// out. Each vote goes to its first candidate that is not eliminated: a branch for such
    /// a candidate adds its count to the candidate's score, and a branch for an eliminated
    /// candidate hands out the votes of its tree. Votes without such a candidate stay.
    pub open spec fn distributed(self, scores: Seq<(T, u64)>, eliminated: Seq<T>) -> (
        Seq<(T, u64)>,
        nat,
    )
        decreases self,
    {
        distributed_upto(self.branches(), self.branches().len(), scores, eliminated)
    }

    /// Hands out the votes of this tree: adds to `scores`, for each candidate that is not
    /// eliminated, the weight of the votes whose first such candidate it is, and returns the
    /// weight handed out; see `distributed`.
    pub fn distribute_votes(&self, scores: &mut Vec<(T, u64)>, eliminated: &[T]) -> (assigned:
        u64)
        requires
            lawful::<T>(),
            self.wf(),
            distinct(firsts(old(scores)@)),
            count_sum(old(scores)@) + self.count <= u64::MAX,
        ensures
            (final(scores)@, assigned as nat) == self.distributed(old(scores)@, eliminated@),
            distinct(firsts(final(scores)@)),
            count_sum(final(scores)@) == count_sum(old(scores)@) + assigned,
            assigned <= self.count,
        decreases self,
    {
        let ghost start = scores@;
        let ghost children = self.children@;
        let mut assigned: u64 = 0;
        let mut i: usize = 0;
        while i < self.children.len()
            invariant
                lawful::<T>(),
                self.wf(),
                children == self.children@,
                0 <= i <= children.len(),
                count_sum(start) + self.count <= u64::MAX,
                (scores@, assigned as nat) == distributed_upto(children, i as nat, start, eliminated@),
                distinct(firsts(scores@)),
                count_sum(scores@) == count_sum(start) + assigned,
                assigned <= child_sum(children, i as nat),
            decreases children.len() - i,
        {
            proof {
                lemma_child_sum_grows(children, (i + 1) as nat, children.len());
                lemma_branch_wf(children, children.len(), i as int);
            }
            let name = &self.children[i].0;
            let branch = &self.children[i].1;
            if find_candidate(eliminated, name).is_none() {
                count_once(scores, copy_candidate(name), branch.count);
                assigned = assigned + branch.count;
            } else {
                let deeper = branch.distribute_votes(scores, eliminated);
                assigned = assigned + deeper;
            }
            i += 1;
        }
        assigned
    }

    /// The scores after the votes of this tree have been transferred, and the weight
    /// assigned, both in parts of `base`. Of each vote `vote` parts are left when it comes
    /// to this node. A branch gives its candidate what the candidate keeps of these, see
    /// `kept`, for each of its votes, and what is then left goes on into its tree.
    pub open spec fn transferred(
        self,
        scores: Seq<(T, u64)>,
        weights: Seq<(T, u64)>,
        vote: u64,
        base: u64,
        transfer: Transfer,
    ) -> (Seq<(T, u64)>, nat)
        decreases self,
    {
        transferred_upto(
            self.branches(),
            self.branches().len(),
            scores,
            weights,
            vote,
            base,
            transfer,
        )
    }

    /// Transfers the votes of this tree by the weights of the candidates: adds to `scores`
    /// what each candidate keeps, and returns the weight assigned; see `transferred`. A
    /// candidate without a weight has the weight zero. No weight exceeds `base`, of which
    /// `vote` parts are left of each vote.
    pub fn transfer_votes(
        &self,
        scores: &mut Vec<(T, u64)>,
        weights: &[(T, u64)],
        vote: u64,
        base: u64,
        transfer: Transfer,
    ) -> (assigned: u64)
        requires
            lawful::<T>(),
            self.wf(),
            0 < base,
            base * base <= u64::MAX,
            vote <= base,
            weights_within(weights@, base),
            distinct(firsts(old(scores)@)),
            count_sum(old(scores)@) + self.count * vote <= u64::MAX,
        ensures
            (final(scores)@, assigned as nat) == self.transferred(
                old(scores)@,
                weights@,
                vote,
                base,
                transfer,
            ),
            distinct(firsts(final(scores)@)),
            count_sum(final(scores)@) == count_sum(old(scores)@) + assigned,
            assigned <= self.count * vote,
        decreases self,
    {
        let ghost start = scores@;
        let ghost children = self.children@;
        let mut assigned: u64 = 0;
        let mut i: usize = 0;
        proof {
            assert(0 * vote == 0) by (nonlinear_arith);
        }
        while i < self.children.len()
            invariant
                lawful::<T>(),
                self.wf(),
                0 < base,
                base * base <= u64::MAX,
                vote <= base,
                weights_within(weights@, base),
                children == self.children@,
                0 <= i <= children.len(),
                count_sum(start) + self.count * vote <= u64::MAX,
                (scores@, assigned as nat) == transferred_upto(
                    children,
                    i as nat,
                    start,
                    weights@,
                    vote,
                    base,
                    transfer,
                ),
                distinct(firsts(scores@)),
                count_sum(scores@) == count_sum(start) + assigned,
                assigned <= child_sum(children, i as nat) * vote,
            decreases children.len() - i,
        {
            let name = &self.children[i].0;
            let branch = &self.children[i].1;
            let weight = match find_entry(weights, name) {
                Some(at) => weights[at].1,
                None => 0,
            };
            proof {
                lemma_child_sum_grows(children, (i + 1) as nat, children.len());
                lemma_branch_wf(children, children.len(), i as int);
                lemma_kept(transfer, vote, weight, base);
                let done = child_sum(children, i as nat) as int;
                let here = branch.count as int;
                let all = self.count as int;
                let v = vote as int;
                assert(done * v + here * v == (done + here) * v) by (nonlinear_arith);
                assert((done + here) * v <= all * v) by (nonlinear_arith)
                    requires
                        done + here <= all,
                        0 <= v,
                ;
                assert(vote * weight <= base * base) by (nonlinear_arith)
                    requires
                        vote <= base,
                        weight <= base,
                ;
            }
            let given = match transfer {
                Transfer::Meek => vote * weight / base,
                Transfer::Warren => if vote < weight {
                    vote
                } else {
                    weight
                },
            };
            assert(given == kept(transfer, vote, weight, base));
            proof {
                let here = branch.count as int;
                let g = given as int;
                let v = vote as int;
                assert(here * g + here * (v - g) == here * v) by (nonlinear_arith);
                assert(0 <= here * g) by (nonlinear_arith)
                    requires
                        0 <= here,
                        0 <= g,
                ;
                assert(0 <= here * (v - g)) by (nonlinear_arith)
                    requires
                        0 <= here,
                        0 <= v - g,
                ;
            }
            if given > 0 {
                count_once(scores, copy_candidate(name), branch.count * given);
                assigned = assigned + branch.count * given;
            }
            if given < vote {
                let remaining = vote - given;
                let deeper = branch.transfer_votes(scores, weights, remaining, base, transfer);
                assigned = assigned + deeper;
            }
            i += 1;
        }
        proof {
            let sum = child_sum(children, children.len()) as int;
            let all = self.count as int;
            let v = vote as int;
            assert(sum * v <= all * v) by (nonlinear_arith)
                requires
                    sum <= all,
                    0 <= v,
            ;
        }
        assigned
    }

    /// Transfers the votes of this tree, each counted as `base` parts, and returns the
    /// parts that no candidate keeps, and the scores of the candidates; see `transferred`.
    pub fn transfer_votes_fp(&self, weights: &[(T, u64)], base: u64, transfer: Transfer) -> (result:
        (u64, Vec<(T, u64)>))
        requires
            lawful::<T>(),
            self.wf(),
            0 < base,
            base * base <= u64::MAX,
            weights_within(weights@, base),
            self.count * base <= u64::MAX,
        ensures
            (result.1@, (self.count * base - result.0) as nat) == self.transferred(
                Seq::empty(),
                weights@,
                base,
                base,
                transfer,
            ),
            result.0 <= self.count * base,
            count_sum(result.1@) + result.0 == self.count * base,
            distinct(firsts(result.1@)),
    {
        let mut scores: Vec<(T, u64)> = Vec::new();
        let total = self.count * base;
        let assigned = self.transfer_votes(&mut scores, weights, base, base, transfer);
        (total - assigned, scores)
    }

    /// The length of the longest path of candidates in the tree.
    pub open spec fn height(self) -> nat
        decreases self,
    {
        height_upto(self.branches(), self.branches().len())
    }

    /// The points after the votes of this tree have been counted by the places of the
    /// candidates, and the weight counted. A branch for a candidate that is not skipped
    /// adds its count to the points of the candidate at the depth of the branch, and its
    /// tree is counted one place deeper. A branch for a skipped candidate adds nothing, and
    /// its tree is counted at the same depth.
    pub open spec fn rank_counted(
        self,
        points: Seq<((T, usize), u64)>,
        skipped: Seq<T>,
        depth: nat,
    ) -> (Seq<((T, usize), u64)>, nat)
        decreases self,
    {
        rank_counted_upto(self.branches(), self.branches().len(), points, skipped, depth)
    }

    /// Counts the votes of this tree by the places of the candidates: adds to `points`,
    /// for a candidate and a place, the weight of the votes that have the candidate at that
    /// place among their candidates that are not skipped; see `rank_counted`. The first
    /// place has the number `depth`.
    pub fn count_ranks(&self, points: &mut Vec<((T, usize), u64)>, skipped: &[T], depth: usize)
        requires
            lawful::<T>(),
            self.wf(),
            depth + self.height() <= usize::MAX,
            distinct(firsts(old(points)@)),
            count_sum(old(points)@) + self.rank_counted(old(points)@, skipped@, depth as nat).1
                <= u64::MAX,
        ensures
            final(points)@ == self.rank_counted(old(points)@, skipped@, depth as nat).0,
            distinct(firsts(final(points)@)),
            count_sum(final(points)@) == count_sum(old(points)@) + self.rank_counted(
                old(points)@,
                skipped@,
                depth as nat,
            ).1,
        decreases self,
    {
        let ghost start = points@;
        let ghost children = self.children@;
        let ghost total = self.rank_counted(start, skipped@, depth as nat).1;
        let mut i: usize = 0;
        while i < self.children.len()
            invariant
                lawful::<T>(),
                self.wf(),
                children == self.children@,
                depth + self.height() <= usize::MAX,
                0 <= i <= children.len(),
                total == rank_counted_upto(
                    children,
                    children.len(),
                    start,
                    skipped@,
                    depth as nat,
                ).1,
                count_sum(start) + total <= u64::MAX,
                points@ == rank_counted_upto(children, i as nat, start, skipped@, depth as nat).0,
                distinct(firsts(points@)),
                count_sum(points@) == count_sum(start) + rank_counted_upto(
                    children,
                    i as nat,
                    start,
                    skipped@,
                    depth as nat,
                ).1,
            decreases children.len() - i,
        {
            proof {
                lemma_rank_counted_grows(
                    children,
                    (i + 1) as nat,
                    children.len(),
                    start,
                    skipped@,
                    depth as nat,
                );
                lemma_branch_wf(children, children.len(), i as int);
                lemma_height_upto(children, children.len(), i as int);
            }
            let name = &self.children[i].0;
            let branch = &self.children[i].1;
            if find_candidate(skipped, name).is_none() {
                count_rank(points, copy_candidate(name), depth, branch.count);
                branch.count_ranks(points, skipped, depth + 1);
            } else {
                branch.count_ranks(points, skipped, depth);
            }
            i += 1;
        }
    }

    /// `names` with the candidates of the tree that it lacks: each behind the others, in the
    /// order in which the tree comes to them when it takes each branch with its tree in
    /// turn.
    pub open spec fn gathered(self, names: Seq<T>) -> Seq<T>
        decreases self,
    {
        gathered_upto(self.branches(), self.branches().len(), names)
    }

    /// Adds the candidates of the tree to `names`, each once; see `gathered`.
    pub fn gather(&self, names: &mut Vec<T>)
        requires
            lawful::<T>(),
            distinct(old(names)@),
        ensures
            final(names)@ == self.gathered(old(names)@),
            distinct(final(names)@),
        decreases self,
    {
        let ghost start = names@;
        let ghost children = self.children@;
        let mut i: usize = 0;
        while i < self.children.len()
            invariant
                lawful::<T>(),
                children == self.children@,
                0 <= i <= children.len(),
                names@ == gathered_upto(children, i as nat, start),
                distinct(names@),
            decreases children.len() - i,
        {
            let name = &self.children[i].0;
            if find_candidate(names.as_slice(), name).is_none() {
                let ghost before = names@;
                names.push(copy_candidate(name));
                proof {
                    assert forall|a: int, b: int| 0 <= a < b < names@.len() implies names@[a]
                        != names@[b] by {
                        if b == before.len() {
                            assert(before[a] == names@[a]);
                            assert(before.contains(before[a]));
                        }
                    }
                }
            }
            self.children[i].1.gather(names);
            i += 1;
        }
    }

    /// All candidates of the tree, each once; see `gathered`.
    pub fn candidates(&self) -> (names: Vec<T>)
        requires
            lawful::<T>(),
        ensures
            names@ == self.gathered(Seq::empty()),
            distinct(names@),
    {
        let mut names: Vec<T> = Vec::new();
        self.gather(&mut names);
        names
    }

    /// A tree without votes that has a branch for each of the candidates.
    pub fn with_candidates(candidates: Vec<T>) -> (tree: VoteTree<T>)
        requires
            lawful::<T>(),
        ensures
            tree.wf(),
            tree.count == 0,
            firsts(tree.branches()) == crate::condorcet::registered(Seq::empty(), candidates@),
            forall|i: int|
                0 <= i < tree.branches().len() ==> (#[trigger] tree.branches()[i]).1.is_chain(
                    Seq::empty(),
                    0,
                ),
    {
        let mut tree = VoteTree::<T>::new();
        let mut i: usize = 0;
        proof {
            assert(candidates@.take(0) =~= Seq::<T>::empty());
            assert(firsts(tree.branches()) =~= Seq::<T>::empty());
        }
        while i < candidates.len()
            invariant
                lawful::<T>(),
                0 <= i <= candidates@.len(),
                tree.wf(),
                tree.count == 0,
                firsts(tree.branches()) == crate::condorcet::registered(
                    Seq::empty(),
                    candidates@.take(i as int),
                ),
                forall|k: int|
                    0 <= k < tree.branches().len() ==> (#[trigger] tree.branches()[k]).1.is_chain(
                        Seq::empty(),
                        0,
                    ),
            decreases candidates@.len() - i,
        {
            let ghost before = tree;
            let ghost names = firsts(tree.branches());
            proof {
                let next = candidates@.take(i + 1);
                assert(next.drop_last() =~= candidates@.take(i as int));
                assert(next.last() == candidates@[i as int]);
                crate::candidate::lemma_position(names, candidates@[i as int]);
            }
            if tree.find_branch(&candidates[i]).is_none() {
                tree.children.push((copy_candidate(&candidates[i]), VoteTree::new()));
                proof {
                    let after = tree.children@;
                    assert(after.drop_last() =~= before.children@);
                    lemma_child_sum_push(before.children@, after.last());
                    assert forall|k: int| 0 <= k < after.len() implies (#[trigger] after[k]).1.wf() by {
                        if k < before.children@.len() {
                            lemma_branch_wf(before.children@, before.children@.len(), k);
                        }
                    }
                    lemma_branches_wf(after, after.len());
                    assert(firsts(after) =~= names.push(candidates@[i as int]));
                    assert(distinct(firsts(after))) by {
                        assert forall|a: int, b: int|
                            0 <= a < b < firsts(after).len() implies firsts(after)[a]
                            != firsts(after)[b] by {
                            assert(firsts(after)[a] == names[a]);
                            if b == names.len() {
                                assert(names.contains(names[a]));
                            } else {
                                assert(firsts(after)[b] == names[b]);
                            }
                        }
                    }
                    assert forall|k: int| 0 <= k < after.len() implies (#[trigger] after[k]).1.is_chain(
                        Seq::empty(), 0) by {
                        if k < before.children@.len() {
                            assert(after[k] == before.children@[k]);
                        }
                    }
                }
            }
            i += 1;
        }
        proof {
            assert(candidates@.take(i as int) =~= candidates@);
        }
        tree
    }

    /// Hands out the votes to the candidates that are not eliminated, and returns the
    /// weight of the votes that name no such candidate, and the scores; see `distributed`.
    pub fn assign_votes(&self, eliminated: &[T]) -> (result: (u64, Vec<(T, u64)>))
        requires
            lawful::<T>(),
            self.wf(),
        ensures
            (result.1@, (self.count - result.0) as nat) == self.distributed(
                Seq::empty(),
                eliminated@,
            ),
            result.0 <= self.count,
            count_sum(result.1@) + result.0 == self.count,
            distinct(firsts(result.1@)),
    {
        let mut scores: Vec<(T, u64)> = Vec::new();
        proof {
            assert(firsts(scores@) =~= Seq::<T>::empty());
        }
        let assigned = self.distribute_votes(&mut scores, eliminated);
        (self.count - assigned, scores)
    }

    /// An empty tree.
    pub fn new() -> (tree: VoteTree<T>)
        ensures
            tree.count == 0,
            tree.branches().len() == 0,
            tree.wf(),
    {
        VoteTree { count: 0, children: Vec::new() }
    }

    /// The place of the branch for a candidate, where the node has one.
    pub(crate) fn find_branch(&self, candidate: &T) -> (found: Option<usize>)
        requires
            lawful::<T>(),
        ensures
            found.is_some() ==> found.unwrap() == position(firsts(self.branches()), *candidate)
                && found.unwrap() < self.branches().len(),
            found.is_none() ==> position(firsts(self.branches()), *candidate)
                == self.branches().len(),
    {
        let ghost names = firsts(self.children@);
        let mut i: usize = 0;
        while i < self.children.len()
            invariant
                lawful::<T>(),
                names == firsts(self.children@),
                0 <= i <= self.children@.len(),
                forall|k: int| 0 <= k < i ==> names[k] != *candidate,
            decreases self.children@.len() - i,
        {
            if same_candidate(&self.children[i].0, candidate) {
                proof {
                    assert(names[i as int] == *candidate);
                    crate::candidate::lemma_position(names, *candidate);
                }
                return Some(i);
            }
            i += 1;
        }
        proof {
            crate::candidate::lemma_position(names, *candidate);
        }
        None
    }

    /// Adds a vote of the given weight, and returns the count of the node at the end of its
    /// path: the weight of the votes added so far that begin with this vote.
    pub fn add(&mut self, vote: &[T], count: u64) -> (reached: u64)
        requires
            lawful::<T>(),
            old(self).wf(),
            old(self).count + count <= u64::MAX,
        ensures
            final(self).wf(),
            old(self).is_added(*final(self), vote@, count),
            reached == final(self).count_at(vote@),
    {
        proof {
            assert(vote@.skip(0) =~= vote@);
        }
        self.add_from(vote, 0, count)
    }

    /// Adds the part of a vote from the place `from` on.
    pub(crate) fn add_from(&mut self, vote: &[T], from: usize, count: u64) -> (reached: u64)
        requires
            lawful::<T>(),
            old(self).wf(),
            old(self).count + count <= u64::MAX,
            from <= vote@.len(),
        ensures
            final(self).wf(),
            old(self).is_added(*final(self), vote@.skip(from as int), count),
            reached == final(self).count_at(vote@.skip(from as int)),
        decreases vote@.len() - from,
    {
        let ghost rest = vote@.skip(from as int);
        let ghost before = self.children@;
        self.count = self.count + count;
        if from == vote.len() {
            return self.count;
        }
        proof {
            assert(rest[0] == vote@[from as int]);
            assert(rest.skip(1) =~= vote@.skip(from + 1));
            crate::candidate::lemma_position(firsts(before), rest[0]);
        }
        match self.find_branch(&vote[from]) {
            Some(at) => {
                proof {
                    lemma_branch_wf(before, before.len(), at as int);
                    lemma_child_sum_holds(before, before.len(), at as int);
                }
                let (name, mut branch) = self.children.remove(at);
                let reached = branch.add_from(vote, from + 1, count);
                self.children.insert(at, (name, branch));
                proof {
                    let after = self.children@;
                    assert(after =~= before.update(at as int, (name, branch)));
                    assert(firsts(after) =~= firsts(before));
                    lemma_child_sum_update(before, before.len(), at as int, (name, branch));
                    assert forall|i: int| 0 <= i < after.len() implies (#[trigger] after[i]).1.wf() by {
                        if i != at {
                            lemma_branch_wf(before, before.len(), i);
                        }
                    }
                    lemma_branches_wf(after, after.len());
                }
                reached
            },
            None => {
                let mut branch = VoteTree::<T>::new();
                let ghost fresh = branch;
                let reached = branch.add_from(vote, from + 1, count);
                let name = copy_candidate(&vote[from]);
                self.children.push((name, branch));
                proof {
                    let after = self.children@;
                    assert(after.drop_last() =~= before);
                    lemma_child_sum_push(before, (name, branch));
                    assert forall|i: int| 0 <= i < after.len() implies (#[trigger] after[i]).1.wf() by {
                        if i < before.len() {
                            lemma_branch_wf(before, before.len(), i);
                        }
                    }
                    lemma_branches_wf(after, after.len());
                    assert(distinct(firsts(after))) by {
                        assert forall|i: int, j: int| 0 <= i < j < firsts(after).len() implies firsts(
                            after,
                        )[i] != firsts(after)[j] by {
                            assert(firsts(after)[i] == firsts(before)[i]);
                            if j == before.len() {
                                assert(firsts(before).contains(firsts(before)[i]));
                            } else {
                                assert(firsts(after)[j] == firsts(before)[j]);
                            }
                        }
                    }
                    lemma_chain(fresh, branch, rest.skip(1), count);
                    assert(firsts(after)[before.len() as int] == rest[0]);
                    crate::candidate::lemma_position(firsts(after), rest[0]);
                }
                reached
            },
        }
    }

    /// The weight of the votes that begin with the candidate.
    pub fn first_vote_count(&self, candidate: &T) -> (count: u64)
        requires
            lawful::<T>(),
        ensures
            count == self.count_at(seq![*candidate]),
    {
        proof {
            let path = seq![*candidate];
            assert(path[0] == *candidate);
            assert(path.skip(1) =~= Seq::<T>::empty());
            crate::candidate::lemma_position(firsts(self.children@), *candidate);
        }
        match self.find_branch(candidate) {
            Some(at) => {
                proof {
                    let branch = self.children@[at as int].1;
                    assert(branch.count_at(Seq::<T>::empty()) == branch.count);
                    assert(seq![*candidate].skip(1) == Seq::<T>::empty());
                }
                self.children[at].1.count
            },
            None => 0,
        }
    }
}

} // verus!
