//! Sequences that hold the same things in another order.
use vstd::prelude::*;
use vstd::seq_lib::*;
use vstd::set_lib::*;

verus! {

/// Whether `order` lists each of the places `0..count` once.
pub open spec fn is_permutation(order: Seq<int>, count: nat) -> bool {
    &&& order.len() == count
    &&& order.no_duplicates()
    &&& forall|i: int| 0 <= i < order.len() ==> 0 <= #[trigger] order[i] < count
}

/// The things at the places that `order` lists.
pub open spec fn arranged<A>(things: Seq<A>, order: Seq<int>) -> Seq<A> {
    Seq::new(order.len(), |i: int| things[order[i]])
}

/// A permutation lists every place.
pub proof fn lemma_lists_every_place(order: Seq<int>, count: nat, place: int)
    requires
        is_permutation(order, count),
        0 <= place < count,
    ensures
        order.contains(place),
{
    order.unique_seq_to_set();
    seq_to_set_is_finite(order);
    lemma_int_range(0, count as int);
    assert forall|x: int| order.to_set().contains(x) implies set_int_range(
        0,
        count as int,
    ).contains(x) by {
        let i = choose|i: int| 0 <= i < order.len() && order[i] == x;
    }
    lemma_subset_equality(order.to_set(), set_int_range(0, count as int));
    assert(order.to_set().contains(place));
}

/// A rearrangement holds the same things.
pub proof fn lemma_arranged_multiset<A>(things: Seq<A>, order: Seq<int>)
    requires
        is_permutation(order, things.len()),
    ensures
        arranged(things, order).to_multiset() == things.to_multiset(),
    decreases things.len(),
{
    broadcast use vstd::multiset::group_multiset_axioms;

    if things.len() == 0 {
        assert(arranged(things, order) =~= things);
    } else {
        let last = things.len() - 1;
        lemma_lists_every_place(order, things.len(), last);
        let k = choose|k: int| 0 <= k < order.len() && order[k] == last;
        let rest = order.remove(k);
        let fewer = things.drop_last();
        assert forall|i: int| 0 <= i < rest.len() implies 0 <= #[trigger] rest[i]
            < fewer.len() by {
            let j = if i < k {
                i
            } else {
                i + 1
            };
            assert(rest[i] == order[j] && order[j] != order[k]);
        }
        assert(is_permutation(rest, fewer.len()));
        lemma_arranged_multiset(fewer, rest);
        let all = arranged(things, order);
        assert(all.remove(k) =~= arranged(fewer, rest));
        to_multiset_remove(all, k);
        to_multiset_build(fewer, things.last());
        assert(fewer.push(things.last()) =~= things);
        to_multiset_contains(all, all[k]);
        assert(all.contains(all[k]));
        assert(all.to_multiset() =~= all.to_multiset().remove(all[k]).insert(all[k]));
    }
}

/// Sequences that hold the same things have them at some place or other.
pub proof fn lemma_same_members<A>(a: Seq<A>, b: Seq<A>, thing: A)
    requires
        a.to_multiset() == b.to_multiset(),
    ensures
        a.contains(thing) <==> b.contains(thing),
        a.len() == b.len(),
{
    to_multiset_contains(a, thing);
    to_multiset_contains(b, thing);
    to_multiset_len(a);
    to_multiset_len(b);
}

/// Taking the same thing out of sequences that hold the same things.
pub proof fn lemma_same_without<A>(a: Seq<A>, b: Seq<A>, i: int, j: int)
    requires
        a.to_multiset() == b.to_multiset(),
        0 <= i < a.len(),
        0 <= j < b.len(),
        a[i] == b[j],
    ensures
        a.remove(i).to_multiset() == b.remove(j).to_multiset(),
{
    to_multiset_remove(a, i);
    to_multiset_remove(b, j);
}

/// Two sequences that hold the same things, each of them in strict order, are the same.
pub proof fn lemma_strict_order_is_unique<A>(a: Seq<A>, b: Seq<A>, before: spec_fn(A, A) -> bool)
    requires
        a.to_multiset() == b.to_multiset(),
        forall|i: int, j: int| 0 <= i < j < a.len() ==> before(a[i], a[j]),
        forall|i: int, j: int| 0 <= i < j < b.len() ==> before(b[i], b[j]),
        forall|x: A, y: A| #[trigger] before(x, y) ==> !before(y, x),
    ensures
        a == b,
    decreases a.len(),
{
    to_multiset_len(a);
    to_multiset_len(b);
    if a.len() > 0 {
        lemma_same_members(a, b, a[0]);
        lemma_same_members(a, b, b[0]);
        assert(a.contains(a[0]) && b.contains(b[0]));
        let k = choose|k: int| 0 <= k < b.len() && b[k] == a[0];
        let l = choose|l: int| 0 <= l < a.len() && a[l] == b[0];
        if k > 0 && l > 0 {
            assert(before(b[0], b[k]));
            assert(before(a[0], a[l]));
        }
        assert(a[0] == b[0]);
        lemma_same_without(a, b, 0, 0);
        let (x, y) = (a.remove(0), b.remove(0));
        assert(forall|i: int| 0 <= i < x.len() ==> x[i] == a[i + 1]);
        assert(forall|i: int| 0 <= i < y.len() ==> y[i] == b[i + 1]);
        lemma_strict_order_is_unique(x, y, before);
        assert(a =~= seq![a[0]] + x);
        assert(b =~= seq![b[0]] + y);
    } else {
        assert(a =~= b);
    }
}

/// Two sequences without repetition that have the same members hold the same things.
pub proof fn lemma_same_set<A>(a: Seq<A>, b: Seq<A>)
    requires
        a.no_duplicates(),
        b.no_duplicates(),
        forall|thing: A| #[trigger] a.contains(thing) <==> b.contains(thing),
    ensures
        a.to_multiset() == b.to_multiset(),
{
    a.lemma_multiset_has_no_duplicates();
    b.lemma_multiset_has_no_duplicates();
    assert forall|thing: A| #[trigger]
        a.to_multiset().count(thing) == b.to_multiset().count(thing) by {
        to_multiset_contains(a, thing);
        to_multiset_contains(b, thing);
        assert(a.contains(thing) <==> b.contains(thing));
        assert(a.to_multiset().contains(thing) <==> a.contains(thing));
    }
    assert(a.to_multiset() =~= b.to_multiset());
}

/// The parts, one after the other.
pub open spec fn joined<A>(parts: Seq<Seq<A>>) -> Seq<A>
    decreases parts.len(),
{
    if parts.len() == 0 {
        seq![]
    } else {
        joined(parts.drop_last()) + parts.last()
    }
}

/// What is joined is what one part holds and what the others hold.
proof fn lemma_joined_without<A>(parts: Seq<Seq<A>>, k: int)
    requires
        0 <= k < parts.len(),
    ensures
        joined(parts).to_multiset() == joined(parts.remove(k)).to_multiset().add(
            parts[k].to_multiset(),
        ),
    decreases parts.len(),
{
    broadcast use vstd::multiset::group_multiset_axioms;

    let rest = parts.drop_last();
    lemma_multiset_commutative(joined(rest), parts.last());
    if k == parts.len() - 1 {
        assert(parts.remove(k) == rest);
    } else {
        lemma_joined_without(rest, k);
        assert(parts.remove(k).drop_last() == rest.remove(k));
        assert(parts.remove(k).last() == parts.last());
        lemma_multiset_commutative(joined(rest.remove(k)), parts.last());
        assert(joined(parts).to_multiset() =~= joined(parts.remove(k)).to_multiset().add(
            parts[k].to_multiset(),
        ));
    }
}

/// Parts that are the same in another order hold the same things.
pub proof fn lemma_joined_same<A>(a: Seq<Seq<A>>, b: Seq<Seq<A>>)
    requires
        a.to_multiset() == b.to_multiset(),
    ensures
        joined(a).to_multiset() == joined(b).to_multiset(),
    decreases a.len(),
{
    if a.len() == 0 {
        to_multiset_len(a);
        to_multiset_len(b);
        assert(a == b);
    } else {
        let last = a.len() - 1;
        lemma_same_members(a, b, a[last]);
        assert(a.contains(a[last]));
        let k = choose|k: int| 0 <= k < b.len() && b[k] == a[last];
        lemma_same_without(a, b, last, k);
        lemma_joined_same(a.remove(last), b.remove(k));
        lemma_joined_without(a, last);
        lemma_joined_without(b, k);
    }
}

/// What a function gives for joined parts is what it gives for the parts, joined.
pub proof fn lemma_joined_image<A, B>(parts: Seq<Seq<A>>, f: spec_fn(A) -> B)
    ensures
        joined(parts).map_values(f) == joined(
            parts.map_values(|part: Seq<A>| part.map_values(f)),
        ),
    decreases parts.len(),
{
    let images = parts.map_values(|part: Seq<A>| part.map_values(f));
    if parts.len() > 0 {
        let rest = parts.drop_last();
        lemma_joined_image(rest, f);
        assert(images.drop_last() =~= rest.map_values(|part: Seq<A>| part.map_values(f)));
        assert(joined(parts).map_values(f) =~= joined(rest).map_values(f) + parts.last().map_values(
            f,
        ));
    } else {
        assert(joined(parts).map_values(f) =~= joined(images));
    }
}

/// The sum of numbers.
pub open spec fn sum(numbers: Seq<nat>) -> nat
    decreases numbers.len(),
{
    if numbers.len() == 0 {
        0
    } else {
        sum(numbers.drop_last()) + numbers.last()
    }
}

/// A sum is one of its numbers and the sum of the others.
proof fn lemma_sum_without(numbers: Seq<nat>, k: int)
    requires
        0 <= k < numbers.len(),
    ensures
        sum(numbers) == sum(numbers.remove(k)) + numbers[k],
    decreases numbers.len(),
{
    let rest = numbers.drop_last();
    if k == numbers.len() - 1 {
        assert(numbers.remove(k) == rest);
    } else {
        lemma_sum_without(rest, k);
        assert(numbers.remove(k).drop_last() == rest.remove(k));
    }
}

/// Numbers have the same sum in any order.
pub proof fn lemma_sum_same(a: Seq<nat>, b: Seq<nat>)
    requires
        a.to_multiset() == b.to_multiset(),
    ensures
        sum(a) == sum(b),
    decreases a.len(),
{
    if a.len() == 0 {
        to_multiset_len(a);
        to_multiset_len(b);
        assert(a == b);
    } else {
        let last = a.len() - 1;
        lemma_same_members(a, b, a[last]);
        assert(a.contains(a[last]));
        let k = choose|k: int| 0 <= k < b.len() && b[k] == a[last];
        lemma_same_without(a, b, last, k);
        lemma_sum_same(a.remove(last), b.remove(k));
        lemma_sum_without(a, last);
        lemma_sum_without(b, k);
    }
}

/// What a function gives for each of several things is the same in any order.
pub proof fn lemma_image_same<A, B>(a: Seq<A>, b: Seq<A>, f: spec_fn(A) -> B)
    requires
        a.to_multiset() == b.to_multiset(),
    ensures
        a.map_values(f).to_multiset() == b.map_values(f).to_multiset(),
    decreases a.len(),
{
    broadcast use vstd::multiset::group_multiset_axioms;

    if a.len() == 0 {
        to_multiset_len(a);
        to_multiset_len(b);
        assert(a == b);
    } else {
        let last = a.len() - 1;
        lemma_same_members(a, b, a[last]);
        assert(a.contains(a[last]));
        let k = choose|k: int| 0 <= k < b.len() && b[k] == a[last];
        lemma_same_without(a, b, last, k);
        lemma_image_same(a.remove(last), b.remove(k), f);
        let (x, y) = (a.map_values(f), b.map_values(f));
        assert(a.remove(last).map_values(f) =~= x.remove(last));
        assert(b.remove(k).map_values(f) =~= y.remove(k));
        to_multiset_remove(x, last);
        to_multiset_remove(y, k);
        to_multiset_contains(x, x[last]);
        to_multiset_contains(y, y[k]);
        assert(x.contains(x[last]) && y.contains(y[k]));
        assert(x.to_multiset() =~= x.to_multiset().remove(x[last]).insert(x[last]));
        assert(y.to_multiset() =~= y.to_multiset().remove(y[k]).insert(y[k]));
    }
}

/// Joining goes part by part: one part is itself, and what is joined in two stretches
/// is one stretch after the other.
pub proof fn law_joined<A>(a: Seq<Seq<A>>, b: Seq<Seq<A>>, part: Seq<A>)
    ensures
        joined(Seq::<Seq<A>>::empty()) == Seq::<A>::empty(),
        joined(seq![part]) == part,
        joined(a + b) == joined(a) + joined(b),
    decreases b.len(),
{
    assert(seq![part].drop_last() =~= Seq::<Seq<A>>::empty());
    assert(joined(Seq::<Seq<A>>::empty()) =~= Seq::<A>::empty());
    assert(joined(seq![part]) =~= part);
    if b.len() == 0 {
        assert(a + b =~= a);
        assert(joined(a) + joined(b) =~= joined(a));
    } else {
        law_joined(a, b.drop_last(), part);
        assert((a + b).drop_last() =~= a + b.drop_last());
        assert(joined(a + b) =~= joined(a) + joined(b));
    }
}

/// Adding goes number by number.
pub proof fn law_sum(a: Seq<nat>, b: Seq<nat>, number: nat)
    ensures
        sum(Seq::<nat>::empty()) == 0,
        sum(seq![number]) == number,
        sum(a + b) == sum(a) + sum(b),
    decreases b.len(),
{
    assert(seq![number].drop_last() =~= Seq::<nat>::empty());
    assert(sum(Seq::<nat>::empty()) == 0);
    if b.len() == 0 {
        assert(a + b =~= a);
    } else {
        law_sum(a, b.drop_last(), number);
        assert((a + b).drop_last() =~= a + b.drop_last());
    }
}

/// The number of things in each of several parts.
pub open spec fn lengths<A>(parts: Seq<Seq<A>>) -> Seq<nat> {
    Seq::new(parts.len(), |k: int| parts[k].len())
}

/// What is joined has as many things as the parts together.
pub proof fn law_joined_length<A>(parts: Seq<Seq<A>>)
    ensures
        joined(parts).len() == sum(lengths(parts)),
    decreases parts.len(),
{
    if parts.len() > 0 {
        law_joined_length(parts.drop_last());
        assert(lengths(parts).drop_last() =~= lengths(parts.drop_last()));
    }
}

/// Every thing of a part stands in what is joined at its place in the part, after all
/// the parts before it.
pub proof fn law_joined_in_place<A>(parts: Seq<Seq<A>>, k: int, j: int)
    requires
        0 <= k < parts.len(),
        0 <= j < parts[k].len(),
    ensures
        sum(lengths(parts).take(k)) + j < joined(parts).len(),
        joined(parts)[sum(lengths(parts).take(k)) + j] == parts[k][j],
    decreases parts.len(),
{
    let rest = parts.drop_last();
    law_joined_length(rest);
    assert(lengths(parts).drop_last() =~= lengths(rest));
    if k < rest.len() {
        law_joined_in_place(rest, k, j);
        assert(lengths(parts).take(k) =~= lengths(rest).take(k));
    } else {
        assert(lengths(parts).take(k) =~= lengths(rest));
    }
}

} // verus!
