//! A slide neither makes nor loses value: the values on the board change
//! only where two equal tiles become their sum.

use vstd::prelude::*;
use vstd::multiset::Multiset;
use crate::components::Tile;
use crate::model::total;
use crate::sums::lemma_total_push;

verus! {

/// The values of the tiles, in the order of the sequence.
pub open spec fn values_of(s: Seq<Tile>) -> Seq<int> {
    s.map_values(|t: Tile| t.points.value as int)
}

/// The tiles that merged into the sums `sums`: for each sum, two tiles of
/// half its value.
pub open spec fn merged_pairs(sums: Seq<int>) -> Multiset<int> {
    let halves = sums.map_values(|x: int| x / 2).to_multiset();
    halves.add(halves)
}

/// Whether the values placed so far, with the tiles that merged put back,
/// are the values of the first `i` tiles with the sums added.
#[verifier::opaque]
pub open spec fn values_kept(s: Seq<Tile>, placed: Seq<Tile>, sums: Seq<int>, i: int) -> bool {
    &&& values_of(placed).to_multiset().add(merged_pairs(sums)) == values_of(
        s.take(i),
    ).to_multiset().add(sums.to_multiset())
    &&& total(values_of(placed)) == total(values_of(s.take(i)))
}

/// Where no sum was formed, no tiles merged.
pub proof fn lemma_no_pairs()
    ensures
        merged_pairs(Seq::<int>::empty()) == Multiset::<int>::empty(),
        Seq::<int>::empty().to_multiset() == Multiset::<int>::empty(),
{
    broadcast use vstd::seq_lib::group_to_multiset_ensures;

    let none = Seq::<int>::empty();
    assert(none.map_values(|x: int| x / 2) =~= none);
    assert(none.to_multiset() =~= Multiset::<int>::empty());
    assert(merged_pairs(none) =~= Multiset::<int>::empty());
}

/// Before the first step nothing is placed and nothing has merged.
pub proof fn lemma_values_start(s: Seq<Tile>)
    ensures
        values_kept(s, Seq::<Tile>::empty(), Seq::<int>::empty(), 0),
{
    reveal(values_kept);
    let none = Seq::<int>::empty();
    assert(values_of(Seq::<Tile>::empty()) =~= none);
    assert(values_of(s.take(0)) =~= none);
    assert(none.map_values(|x: int| x / 2) =~= none);
    assert(none.to_multiset() =~= Multiset::<int>::empty()) by {
        broadcast use vstd::seq_lib::group_to_multiset_ensures;

    }
    assert(merged_pairs(none) =~= Multiset::<int>::empty());
}

/// A tile placed with its own value keeps the values.
pub proof fn lemma_values_step(s: Seq<Tile>, placed: Seq<Tile>, sums: Seq<int>, t: Tile, i: int)
    requires
        values_kept(s, placed, sums, i),
        0 <= i < s.len(),
        t.points.value == s[i].points.value,
    ensures
        values_kept(s, placed.push(t), sums, i + 1),
{
    broadcast use vstd::multiset::group_multiset_axioms;

    reveal(values_kept);
    let v = t.points.value as int;
    assert(values_of(placed.push(t)) =~= values_of(placed).push(v));
    assert(s.take(i + 1) =~= s.take(i).push(s[i]));
    assert(values_of(s.take(i).push(s[i])) =~= values_of(s.take(i)).push(v));
    vstd::seq_lib::to_multiset_build(values_of(placed), v);
    vstd::seq_lib::to_multiset_build(values_of(s.take(i)), v);
    lemma_total_push(values_of(placed), v);
    lemma_total_push(values_of(s.take(i)), v);
    let before = values_of(placed).to_multiset().add(merged_pairs(sums));
    let walked = values_of(s.take(i)).to_multiset().add(sums.to_multiset());
    assert(before == walked);
    assert(values_of(placed.push(t)).to_multiset().add(merged_pairs(sums)) =~= before.insert(v));
    assert(values_of(s.take(i + 1)).to_multiset().add(sums.to_multiset()) =~= walked.insert(v));
}

/// A tile placed with the sum of two equal tiles keeps the values, with one
/// more sum and one more merged pair.
pub proof fn lemma_values_merge(s: Seq<Tile>, placed: Seq<Tile>, sums: Seq<int>, t: Tile, i: int)
    requires
        values_kept(s, placed, sums, i),
        0 <= i,
        i + 1 < s.len(),
        s[i + 1].points.value == s[i].points.value,
        t.points.value == s[i].points.value + s[i + 1].points.value,
    ensures
        values_kept(s, placed.push(t), sums.push(t.points.value as int), i + 2),
{
    broadcast use vstd::multiset::group_multiset_axioms;

    reveal(values_kept);
    let v = s[i].points.value as int;
    let sum = t.points.value as int;
    assert(sum / 2 == v);
    let halves = sums.map_values(|x: int| x / 2);
    assert(values_of(placed.push(t)) =~= values_of(placed).push(sum));
    assert(s.take(i + 2) =~= s.take(i).push(s[i]).push(s[i + 1]));
    assert(values_of(s.take(i).push(s[i]).push(s[i + 1])) =~= values_of(s.take(i)).push(v).push(v));
    assert(sums.push(sum).map_values(|x: int| x / 2) =~= halves.push(v));
    lemma_total_push(values_of(placed), sum);
    lemma_total_push(values_of(s.take(i)), v);
    lemma_total_push(values_of(s.take(i)).push(v), v);
    vstd::seq_lib::to_multiset_build(values_of(placed), sum);
    vstd::seq_lib::to_multiset_build(values_of(s.take(i)), v);
    vstd::seq_lib::to_multiset_build(values_of(s.take(i)).push(v), v);
    vstd::seq_lib::to_multiset_build(halves, v);
    vstd::seq_lib::to_multiset_build(sums, sum);
    let before = values_of(placed).to_multiset().add(merged_pairs(sums));
    let walked = values_of(s.take(i)).to_multiset().add(sums.to_multiset());
    assert(before == walked);
    assert(merged_pairs(sums.push(sum)) =~= merged_pairs(sums).insert(v).insert(v));
    assert(values_of(placed.push(t)).to_multiset().add(merged_pairs(sums.push(sum))) =~= before.insert(
        sum,
    ).insert(v).insert(v));
    assert(values_of(s.take(i + 2)).to_multiset().add(sums.push(sum).to_multiset()) =~= walked.insert(
        v,
    ).insert(v).insert(sum));
    assert(before.insert(sum).insert(v).insert(v) =~= before.insert(v).insert(v).insert(sum));
}

/// The values of a sequence with the tile at index `j` taken out, and that
/// tile's value put back, are the values of the sequence.
proof fn lemma_values_without(s: Seq<Tile>, j: int)
    requires
        0 <= j < s.len(),
    ensures
        values_of(s.remove(j)).to_multiset().insert(s[j].points.value as int) == values_of(
            s,
        ).to_multiset(),
{
    assert(values_of(s.remove(j)) =~= values_of(s).remove(j));
    vstd::seq_lib::to_multiset_remove(values_of(s), j);
    assert(values_of(s).to_multiset().remove(values_of(s)[j]).insert(values_of(s)[j]) =~= values_of(
        s,
    ).to_multiset()) by {
        vstd::seq_lib::to_multiset_contains(values_of(s), values_of(s)[j]);
        assert(values_of(s).contains(values_of(s)[j]));
    }
}

/// A rearrangement of tiles shows the same values, each as often.
pub proof fn lemma_values_rearranged(a: Seq<Tile>, b: Seq<Tile>)
    requires
        a.to_multiset() == b.to_multiset(),
    ensures
        values_of(a).to_multiset() == values_of(b).to_multiset(),
    decreases a.len(),
{
    vstd::seq_lib::to_multiset_len(a);
    vstd::seq_lib::to_multiset_len(b);
    if a.len() == 0 {
        assert(values_of(a) =~= values_of(b));
    } else {
        let x = a[0];
        vstd::seq_lib::to_multiset_contains(a, x);
        vstd::seq_lib::to_multiset_contains(b, x);
        assert(a.contains(x));
        let j = choose|j: int| 0 <= j < b.len() && b[j] == x;
        vstd::seq_lib::to_multiset_remove(a, 0);
        vstd::seq_lib::to_multiset_remove(b, j);
        lemma_values_rearranged(a.remove(0), b.remove(j));
        lemma_values_without(a, 0);
        lemma_values_without(b, j);
    }
}

} // verus!
