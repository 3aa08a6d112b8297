//! The order of names in a directory: byte by byte, a name before those that it
//! begins.

use vstd::multiset::Multiset;
use vstd::prelude::*;
use vstd::relations::{sorted_by, total_ordering};
use vstd::seq_lib::lemma_sorted_unique;

use crate::path::byte_strings;

verus! {

/// Whether `a` comes no later than `b`.
pub open spec fn bytes_le(a: Seq<u8>, b: Seq<u8>) -> bool
    decreases a.len(),
{
    if a.len() == 0 {
        true
    } else if b.len() == 0 {
        false
    } else if a[0] != b[0] {
        a[0] < b[0]
    } else {
        bytes_le(a.skip(1), b.skip(1))
    }
}

/// `names` in order.
pub open spec fn sorted_names(names: Seq<Seq<u8>>) -> Seq<Seq<u8>> {
    names.sort_by(|a: Seq<u8>, b: Seq<u8>| bytes_le(a, b))
}

proof fn lemma_reflexive(a: Seq<u8>)
    ensures
        bytes_le(a, a),
    decreases a.len(),
{
    if a.len() > 0 {
        lemma_reflexive(a.skip(1));
    }
}

proof fn lemma_antisymmetric(a: Seq<u8>, b: Seq<u8>)
    requires
        bytes_le(a, b),
        bytes_le(b, a),
    ensures
        a == b,
    decreases a.len(),
{
    if a.len() > 0 && b.len() > 0 {
        lemma_antisymmetric(a.skip(1), b.skip(1));
        assert(a == seq![a[0]] + a.skip(1));
        assert(b == seq![b[0]] + b.skip(1));
    } else {
        assert(a == b);
    }
}

proof fn lemma_transitive(a: Seq<u8>, b: Seq<u8>, c: Seq<u8>)
    requires
        bytes_le(a, b),
        bytes_le(b, c),
    ensures
        bytes_le(a, c),
    decreases a.len(),
{
    if a.len() > 0 && a[0] == b[0] && b[0] == c[0] {
        lemma_transitive(a.skip(1), b.skip(1), c.skip(1));
    }
}

proof fn lemma_total(a: Seq<u8>, b: Seq<u8>)
    ensures
        bytes_le(a, b) || bytes_le(b, a),
    decreases a.len(),
{
    if a.len() > 0 && b.len() > 0 {
        lemma_total(a.skip(1), b.skip(1));
    }
}

/// The order of names is total.
pub proof fn lemma_names_are_ordered()
    ensures
        total_ordering(|a: Seq<u8>, b: Seq<u8>| bytes_le(a, b)),
{
    let le = |a: Seq<u8>, b: Seq<u8>| bytes_le(a, b);
    assert forall|a: Seq<u8>| #[trigger] le(a, a) by {
        lemma_reflexive(a);
    }
    assert forall|a: Seq<u8>, b: Seq<u8>| #[trigger] le(a, b) && #[trigger] le(b, a) implies a
        == b by {
        lemma_antisymmetric(a, b);
    }
    assert forall|a: Seq<u8>, b: Seq<u8>, c: Seq<u8>| #[trigger]
        le(a, b) && #[trigger] le(b, c) implies le(a, c) by {
        lemma_transitive(a, b, c);
    }
    assert forall|a: Seq<u8>, b: Seq<u8>| #[trigger] le(a, b) || #[trigger] le(b, a) by {
        lemma_total(a, b);
    }
}

/// Whether `a` comes no later than `b`.
pub fn no_later(a: &Vec<u8>, b: &Vec<u8>) -> (r: bool)
    ensures
        r == bytes_le(a@, b@),
{
    let mut i: usize = 0;
    assert(a@.skip(0) == a@ && b@.skip(0) == b@);
    while i < a.len()
        invariant
            i <= a@.len(),
            i <= b@.len(),
            bytes_le(a@, b@) == bytes_le(a@.skip(i as int), b@.skip(i as int)),
        decreases a@.len() - i,
    {
        if i >= b.len() {
            return false;
        }
        if a[i] != b[i] {
            return a[i] < b[i];
        }
        assert(a@.skip(i as int).skip(1) == a@.skip(i + 1));
        assert(b@.skip(i as int).skip(1) == b@.skip(i + 1));
        i = i + 1;
    }
    true
}

/// Where `name` belongs among the ordered names of `list`.
fn place_for(list: &Vec<Vec<u8>>, name: &Vec<u8>) -> (at: usize)
    requires
        sorted_by(byte_strings(list@), |a: Seq<u8>, b: Seq<u8>| bytes_le(a, b)),
    ensures
        at <= list@.len(),
        forall|i: int| 0 <= i < at ==> bytes_le(#[trigger] byte_strings(list@)[i], name@),
        forall|i: int| at <= i < list@.len() ==> bytes_le(name@, #[trigger] byte_strings(list@)[i]),
{
    let ghost all = byte_strings(list@);
    let ghost le = |a: Seq<u8>, b: Seq<u8>| bytes_le(a, b);
    proof {
        lemma_names_are_ordered();
    }
    let mut low: usize = 0;
    let mut high: usize = list.len();
    while low < high
        invariant
            low <= high <= list@.len(),
            all == byte_strings(list@),
            le == (|a: Seq<u8>, b: Seq<u8>| bytes_le(a, b)),
            sorted_by(all, le),
            forall|i: int| 0 <= i < low ==> bytes_le(#[trigger] all[i], name@),
            forall|i: int| high <= i < all.len() ==> bytes_le(name@, #[trigger] all[i]),
        decreases high - low,
    {
        let middle: usize = low + (high - low) / 2;
        assert(all[middle as int] == list@[middle as int]@);
        if no_later(&list[middle], name) {
            assert forall|i: int| 0 <= i < middle + 1 implies bytes_le(#[trigger] all[i], name@) by {
                if i < middle {
                    assert(le(all[i], all[middle as int]));
                    lemma_transitive(all[i], all[middle as int], name@);
                }
            }
            low = middle + 1;
        } else {
            proof {
                lemma_total(name@, all[middle as int]);
            }
            assert forall|i: int| middle <= i < all.len() implies bytes_le(
                name@,
                #[trigger] all[i],
            ) by {
                if i > middle {
                    assert(le(all[middle as int], all[i]));
                    lemma_transitive(name@, all[middle as int], all[i]);
                }
            }
            high = middle;
        }
    }
    low
}

/// Put `name` among the ordered names of `list`.
fn insert_name(list: &mut Vec<Vec<u8>>, name: Vec<u8>)
    requires
        sorted_by(byte_strings(old(list)@), |a: Seq<u8>, b: Seq<u8>| bytes_le(a, b)),
    ensures
        sorted_by(byte_strings(final(list)@), |a: Seq<u8>, b: Seq<u8>| bytes_le(a, b)),
        byte_strings(final(list)@).to_multiset() == byte_strings(old(list)@).to_multiset().insert(
            name@,
        ),
{
    let ghost before = byte_strings(list@);
    let ghost le = |a: Seq<u8>, b: Seq<u8>| bytes_le(a, b);
    let ghost bytes = name@;
    let at: usize = place_for(list, &name);
    list.insert(at, name);
    let ghost after = byte_strings(list@);
    assert(after == before.insert(at as int, bytes));
    assert(after.remove(at as int) == before);
    proof {
        broadcast use vstd::seq_lib::group_to_multiset_ensures;

        assert(after[at as int] == bytes);
        assert(before.to_multiset() == after.to_multiset().remove(bytes));
        assert(after.contains(bytes));
        assert(after.to_multiset() == before.to_multiset().insert(bytes));
    }
    assert forall|i: int, j: int| 0 <= i < j < after.len() implies #[trigger] le(
        after[i],
        after[j],
    ) by {
        let i0 = if i < at {
            i
        } else {
            i - 1
        };
        let j0 = if j < at {
            j
        } else {
            j - 1
        };
        if i == at {
            assert(after[j] == before[j0]);
        } else if j == at {
            assert(after[i] == before[i0]);
        } else {
            assert(le(before[i0], before[j0]));
        }
    }
}

/// `list` in order.
pub fn sort_names(list: Vec<Vec<u8>>) -> (r: Vec<Vec<u8>>)
    ensures
        byte_strings(r@) == sorted_names(byte_strings(list@)),
{
    let ghost all = byte_strings(list@);
    let ghost le = |a: Seq<u8>, b: Seq<u8>| bytes_le(a, b);
    let mut rest = list;
    let mut out: Vec<Vec<u8>> = Vec::new();
    proof {
        broadcast use vstd::seq_lib::group_to_multiset_ensures;

        assert(byte_strings(out@) == Seq::<Seq<u8>>::empty());
        assert(byte_strings(out@).to_multiset() == Multiset::<Seq<u8>>::empty());
    }
    while rest.len() > 0
        invariant
            le == (|a: Seq<u8>, b: Seq<u8>| bytes_le(a, b)),
            sorted_by(byte_strings(out@), le),
            all.to_multiset() == byte_strings(rest@).to_multiset().add(
                byte_strings(out@).to_multiset(),
            ),
        decreases rest@.len(),
    {
        let ghost rest_before = byte_strings(rest@);
        let ghost out_before = byte_strings(out@);
        match rest.pop() {
            Some(name) => {
                proof {
                    broadcast use vstd::seq_lib::group_to_multiset_ensures;

                    assert(rest_before == byte_strings(rest@).push(name@));
                    assert(rest_before.to_multiset() == byte_strings(rest@).to_multiset().insert(
                        name@,
                    ));
                }
                let ghost bytes = name@;
                insert_name(&mut out, name);
                assert(all.to_multiset() =~= byte_strings(rest@).to_multiset().add(
                    byte_strings(out@).to_multiset(),
                ));
            },
            None => {},
        }
    }
    proof {
        broadcast use vstd::seq_lib::group_to_multiset_ensures;

        assert(byte_strings(rest@) == Seq::<Seq<u8>>::empty());
        assert(all.to_multiset() =~= byte_strings(out@).to_multiset());
        lemma_names_are_ordered();
        all.lemma_sort_by_ensures(le);
        lemma_sorted_unique(byte_strings(out@), all.sort_by(le), le);
    }
    out
}

/// Names are ordered byte by byte: a name comes no later than another exactly if
/// it begins it, or is smaller where the two first differ.
pub proof fn law_order_is_by_the_first_difference(a: Seq<u8>, b: Seq<u8>)
    ensures
        bytes_le(a, b) <==> a.is_prefix_of(b) || exists|i: int|
            0 <= i < a.len() && i < b.len() && #[trigger] a.take(i) == b.take(i) && a[i] < b[i],
    decreases a.len(),
{
    if a.len() == 0 {
        assert(a == b.subrange(0, 0));
    } else if b.len() > 0 {
        let a1 = a.skip(1);
        let b1 = b.skip(1);
        law_order_is_by_the_first_difference(a1, b1);
        if bytes_le(a, b) {
            if a[0] != b[0] {
                assert(a.take(0) == b.take(0));
            } else if a1.is_prefix_of(b1) {
                assert(a == b.subrange(0, a.len() as int)) by {
                    assert forall|k: int| 0 <= k < a.len() implies a[k] == b[k] by {
                        if k > 0 {
                            assert(a1[k - 1] == b1.subrange(0, a1.len() as int)[k - 1]);
                        }
                    }
                }
            } else {
                let i = choose|i: int|
                    0 <= i < a1.len() && i < b1.len() && #[trigger] a1.take(i) == b1.take(i)
                        && a1[i] < b1[i];
                assert(a.take(i + 1) == b.take(i + 1)) by {
                    assert forall|k: int| 0 <= k < i + 1 implies a[k] == b[k] by {
                        if k > 0 {
                            assert(a1.take(i)[k - 1] == b1.take(i)[k - 1]);
                        }
                    }
                }
                assert(a[i + 1] < b[i + 1]);
            }
        }
        if a.is_prefix_of(b) {
            assert(a[0] == b.subrange(0, a.len() as int)[0]);
            assert(a1 == b1.subrange(0, a1.len() as int)) by {
                assert forall|k: int| 0 <= k < a1.len() implies a1[k] == b1[k] by {
                    assert(a[k + 1] == b.subrange(0, a.len() as int)[k + 1]);
                }
            }
        }
        if exists|i: int|
            0 <= i < a.len() && i < b.len() && #[trigger] a.take(i) == b.take(i) && a[i] < b[i] {
            let i = choose|i: int|
                0 <= i < a.len() && i < b.len() && #[trigger] a.take(i) == b.take(i) && a[i] < b[i];
            if i > 0 {
                assert(a.take(i)[0] == b.take(i)[0]);
                assert(a1.take(i - 1) == b1.take(i - 1)) by {
                    assert forall|k: int| 0 <= k < i - 1 implies a1[k] == b1[k] by {
                        assert(a.take(i)[k + 1] == b.take(i)[k + 1]);
                    }
                }
                assert(a1[i - 1] < b1[i - 1]);
            }
        }
    }
}

/// Sorting keeps every name, as often as it occurs, and brings the names into
/// order.
pub proof fn law_sorting_only_rearranges(list: Seq<Seq<u8>>)
    ensures
        sorted_names(list).to_multiset() == list.to_multiset(),
        sorted_names(list).len() == list.len(),
        forall|name: Seq<u8>| #[trigger] sorted_names(list).contains(name) <==> list.contains(name),
        forall|i: int, j: int|
            0 <= i < j < sorted_names(list).len() ==> bytes_le(
                #[trigger] sorted_names(list)[i],
                #[trigger] sorted_names(list)[j],
            ),
{
    broadcast use vstd::seq_lib::group_to_multiset_ensures;

    let le = |a: Seq<u8>, b: Seq<u8>| bytes_le(a, b);
    lemma_names_are_ordered();
    list.lemma_sort_by_ensures(le);
    let sorted = sorted_names(list);
    assert(sorted.to_multiset().len() == list.to_multiset().len());
    assert forall|name: Seq<u8>| #[trigger] sorted.contains(name) <==> list.contains(name) by {
        assert(sorted.to_multiset().count(name) == list.to_multiset().count(name));
    }
    assert forall|i: int, j: int| 0 <= i < j < sorted.len() implies bytes_le(
        #[trigger] sorted[i],
        #[trigger] sorted[j],
    ) by {
        assert(le(sorted[i], sorted[j]));
    }
}

} // verus!
