//! Ordering items by rank.
use vstd::prelude::*;
use vstd::multiset::Multiset;

verus! {

/// Items that can be put in order of rank, best first.
///
/// Two items may be unordered. An item then counts as coming before the other,
/// whichever of the two is asked.
pub trait Ranked: Sized {
    /// This item comes before the other, or the two are unordered.
    spec fn before(self, other: Self) -> bool;

    /// This item comes after the other.
    spec fn after(self, other: Self) -> bool;

    /// What comes after another item does not come before it.
    proof fn after_excludes_before(a: Self, b: Self)
        ensures
            !(a.after(b) && a.before(b)),
    ;

    /// If an item comes after another, the other comes before it.
    proof fn after_reverses(a: Self, b: Self)
        ensures
            a.after(b) ==> b.before(a),
    ;
}

/// Ranked items that can be compared.
pub trait Comparable: Ranked {
    /// Computes [`Ranked::before`].
    fn precedes(&self, other: &Self) -> (r: bool)
        ensures
            r == self.before(*other),
    ;
}

/// No item comes after its neighbour on the right.
pub open spec fn in_order<T: Ranked>(s: Seq<T>) -> bool {
    forall|i: int, j: int|
        #![trigger s[i], s[j]]
        0 <= i < s.len() && j == i + 1 && j < s.len() ==> !s[i].after(s[j])
}

/// The sequence holds the items of the other one, each as often, in order.
pub open spec fn is_ranking<T: Ranked>(s: Seq<T>, items: Seq<T>) -> bool {
    in_order(s) && s.to_multiset() == items.to_multiset()
}

/// No item comes after its neighbour on the left.
spec fn in_reverse<T: Ranked>(s: Seq<T>) -> bool {
    forall|i: int, j: int|
        #![trigger s[i], s[j]]
        0 <= i < s.len() && j == i + 1 && j < s.len() ==> !s[j].after(s[i])
}

/// The item that ends the run does not come after the item that ends `s`.
spec fn run_fits<T: Ranked>(run: Seq<T>, s: Seq<T>) -> bool {
    run.len() > 0 && s.len() > 0 ==> !run.last().after(s.last())
}

/// Moving the last item of one sequence to the end of another keeps the items
/// of both together.
proof fn lemma_move_last<T>(from: Seq<T>, to: Seq<T>)
    requires
        from.len() > 0,
    ensures
        from.drop_last().to_multiset().add(to.push(from.last()).to_multiset())
            == from.to_multiset().add(to.to_multiset()),
{
    broadcast use vstd::seq_lib::group_to_multiset_ensures;
    broadcast use vstd::multiset::group_multiset_axioms;

    assert(from.drop_last().push(from.last()) =~= from);
    assert(from.drop_last().to_multiset().add(to.push(from.last()).to_multiset())
        =~= from.to_multiset().add(to.to_multiset()));
}

/// Takes the last item off `from` and puts it at the end of `to`.
fn move_last<T: Comparable>(from: &mut Vec<T>, to: &mut Vec<T>)
    requires
        old(from)@.len() > 0,
    ensures
        final(from)@ == old(from)@.drop_last(),
        final(to)@ == old(to)@.push(old(from)@.last()),
        final(from)@.to_multiset().add(final(to)@.to_multiset()) == old(from)@.to_multiset().add(
            old(to)@.to_multiset(),
        ),
{
    proof {
        lemma_move_last(from@, to@);
    }
    match from.pop() {
        Some(item) => to.push(item),
        None => {},
    }
}

/// Merges two ordered runs.
fn merge<T: Comparable>(left: Vec<T>, right: Vec<T>) -> (r: Vec<T>)
    requires
        in_order(left@),
        in_order(right@),
    ensures
        in_order(r@),
        r@.to_multiset() == left@.to_multiset().add(right@.to_multiset()),
{
    let ghost all: Multiset<T> = left@.to_multiset().add(right@.to_multiset());
    let mut left: Vec<T> = left;
    let mut right: Vec<T> = right;
    let mut tail: Vec<T> = Vec::new();
    proof {
        broadcast use vstd::seq_lib::group_to_multiset_ensures;
        broadcast use vstd::multiset::group_multiset_axioms;

        assert(tail@.to_multiset() =~= Multiset::empty());
        assert(left@.to_multiset().add(right@.to_multiset()).add(tail@.to_multiset()) =~= all);
    }
    while left.len() > 0 || right.len() > 0
        invariant
            in_order(left@),
            in_order(right@),
            in_reverse(tail@),
            run_fits(left@, tail@),
            run_fits(right@, tail@),
            left@.to_multiset().add(right@.to_multiset()).add(tail@.to_multiset()) == all,
        decreases left@.len() + right@.len(),
    {
        let from_left: bool = if right.len() == 0 {
            true
        } else if left.len() == 0 {
            false
        } else {
            right[right.len() - 1].precedes(&left[left.len() - 1])
        };
        let ghost l = left@;
        let ghost r = right@;
        let ghost t = tail@;
        proof {
            if l.len() > 0 && r.len() > 0 {
                T::after_excludes_before(r.last(), l.last());
                T::after_reverses(l.last(), r.last());
            }
        }
        if from_left {
            move_last(&mut left, &mut tail);
        } else {
            move_last(&mut right, &mut tail);
        }
        proof {
            broadcast use vstd::multiset::group_multiset_axioms;

            assert(l.to_multiset().add(r.to_multiset()).add(t.to_multiset())
                =~= l.to_multiset().add(t.to_multiset()).add(r.to_multiset()));
            assert(l.to_multiset().add(r.to_multiset()).add(t.to_multiset())
                =~= r.to_multiset().add(t.to_multiset()).add(l.to_multiset()));
            assert(left@.to_multiset().add(right@.to_multiset()).add(tail@.to_multiset()) =~= all);
        }
    }
    let mut out: Vec<T> = Vec::new();
    proof {
        broadcast use vstd::seq_lib::group_to_multiset_ensures;
        broadcast use vstd::multiset::group_multiset_axioms;

        assert(left@.to_multiset() =~= Multiset::empty());
        assert(right@.to_multiset() =~= Multiset::empty());
        assert(out@.to_multiset() =~= Multiset::empty());
        assert(tail@.to_multiset().add(out@.to_multiset()) =~= all);
    }
    while tail.len() > 0
        invariant
            in_reverse(tail@),
            in_order(out@),
            out@.len() > 0 && tail@.len() > 0 ==> !out@.last().after(tail@.last()),
            tail@.to_multiset().add(out@.to_multiset()) == all,
        decreases tail@.len(),
    {
        move_last(&mut tail, &mut out);
    }
    proof {
        broadcast use vstd::seq_lib::group_to_multiset_ensures;
        broadcast use vstd::multiset::group_multiset_axioms;

        assert(tail@.to_multiset() =~= Multiset::empty());
        assert(out@.to_multiset() =~= all);
    }
    out
}

/// Puts the items in order.
pub fn rank<T: Comparable>(items: Vec<T>) -> (r: Vec<T>)
    ensures
        is_ranking(r@, items@),
    decreases items@.len(),
{
    let n: usize = items.len();
    if n < 2 {
        items
    } else {
        let mut head: Vec<T> = items;
        let ghost whole = head@;
        let rest: Vec<T> = head.split_off(n / 2);
        proof {
            vstd::seq_lib::lemma_multiset_commutative(head@, rest@);
            assert(head@ + rest@ =~= whole);
        }
        let left: Vec<T> = rank(head);
        let right: Vec<T> = rank(rest);
        merge(left, right)
    }
}

/// Where coming after is transitive in the weak sense on the items of a
/// sequence, neighbours in order put the whole sequence in order.
pub proof fn law_neighbours_order_all<T: Ranked>(s: Seq<T>, i: int, j: int)
    requires
        in_order(s),
        forall|a: T, b: T, c: T|
            #![trigger a.after(b), b.after(c)]
            s.contains(a) && s.contains(b) && s.contains(c) && !a.after(b) && !b.after(c)
                ==> !a.after(c),
        0 <= i < j < s.len(),
    ensures
        !s[i].after(s[j]),
    decreases j - i,
{
    if i + 1 < j {
        law_neighbours_order_all(s, i, j - 1);
        assert(s.contains(s[i]) && s.contains(s[j - 1]) && s.contains(s[j]));
        assert(!s[j - 1].after(s[j]));
    }
}

} // verus!
