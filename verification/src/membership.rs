//! The canonical order of a cluster's membership.
//!
//! Every node receives the same set of node identifiers, possibly in a
//! different order. Each node sorts them lexicographically and takes its own
//! position in the sorted list as its index. This module defines that order,
//! proves that it is a total order, and proves that the sorted list and the
//! indices are the same on every node.

use crate::message::{ids_view, NodeId};
use vstd::prelude::*;
use vstd::relations::{sorted_by, total_ordering};
use vstd::seq_lib::lemma_sorted_unique;

verus! {

/// Lexicographic order on identifiers: the first position at which two
/// identifiers differ decides, by code point; a proper prefix comes first.
pub open spec fn lex_le(a: Seq<char>, b: Seq<char>) -> bool
    decreases a.len(),
{
    if a.len() == 0 {
        true
    } else if b.len() == 0 {
        false
    } else if a[0] == b[0] {
        lex_le(a.drop_first(), b.drop_first())
    } else {
        (a[0] as u32) < (b[0] as u32)
    }
}

/// `lex_le` as a relation, in the form that the sequence library takes.
pub open spec fn id_order() -> spec_fn(Seq<char>, Seq<char>) -> bool {
    |a: Seq<char>, b: Seq<char>| lex_le(a, b)
}

/// The membership list in canonical order.
pub open spec fn canonical_order(ids: Seq<Seq<char>>) -> Seq<Seq<char>> {
    ids.sort_by(id_order())
}

/// Whether `sorted` holds the identifiers of `ids`, each as often as `ids`
/// does, in ascending order.
pub open spec fn is_sorted_permutation(ids: Seq<Seq<char>>, sorted: Seq<Seq<char>>) -> bool {
    &&& sorted.to_multiset() == ids.to_multiset()
    &&& sorted_by(sorted, id_order())
}

/// The index of a node: the first position of `id` in `ids`, if it occurs.
pub open spec fn position(ids: Seq<Seq<char>>, id: Seq<char>) -> Option<int> {
    ids.index_of_first(id)
}

/// Every identifier is at most itself.
pub proof fn lemma_lex_le_reflexive(a: Seq<char>)
    ensures
        lex_le(a, a),
    decreases a.len(),
{
    if a.len() > 0 {
        lemma_lex_le_reflexive(a.drop_first());
    }
}

/// Two identifiers, each at most the other, are the same.
pub proof fn lemma_lex_le_antisymmetric(a: Seq<char>, b: Seq<char>)
    requires
        lex_le(a, b),
        lex_le(b, a),
    ensures
        a == b,
    decreases a.len(),
{
    if a.len() > 0 && b.len() > 0 {
        lemma_lex_le_antisymmetric(a.drop_first(), b.drop_first());
        assert(a =~= seq![a[0]] + a.drop_first());
        assert(b =~= seq![b[0]] + b.drop_first());
    }
}

/// The order passes on from one identifier over a second to a third.
pub proof fn lemma_lex_le_transitive(a: Seq<char>, b: Seq<char>, c: Seq<char>)
    requires
        lex_le(a, b),
        lex_le(b, c),
    ensures
        lex_le(a, c),
    decreases a.len(),
{
    if a.len() > 0 && a[0] == b[0] && b[0] == c[0] {
        lemma_lex_le_transitive(a.drop_first(), b.drop_first(), c.drop_first());
    }
}

/// Different characters have different code points.
proof fn lemma_code_points_differ(c: char, d: char)
    requires
        c != d,
    ensures
        c as u32 != d as u32,
{
}

/// Of two identifiers one is at most the other.
pub proof fn lemma_lex_le_total(a: Seq<char>, b: Seq<char>)
    ensures
        lex_le(a, b) || lex_le(b, a),
    decreases a.len(),
{
    if a.len() > 0 && b.len() > 0 {
        if a[0] == b[0] {
            lemma_lex_le_total(a.drop_first(), b.drop_first());
        } else {
            lemma_code_points_differ(a[0], b[0]);
        }
    }
}

/// The lexicographic order is a total order on identifiers.
pub proof fn lemma_id_order_total()
    ensures
        total_ordering(id_order()),
{
    let r = id_order();
    assert forall|a: Seq<char>| #[trigger] r(a, a) by {
        lemma_lex_le_reflexive(a);
    }
    assert forall|a: Seq<char>, b: Seq<char>| #[trigger] r(a, b) && #[trigger] r(b, a) implies a
        == b by {
        lemma_lex_le_antisymmetric(a, b);
    }
    assert forall|a: Seq<char>, b: Seq<char>, c: Seq<char>| #[trigger]
        r(a, b) && #[trigger] r(b, c) implies r(a, c) by {
        lemma_lex_le_transitive(a, b, c);
    }
    assert forall|a: Seq<char>, b: Seq<char>| #[trigger] r(a, b) || #[trigger] r(b, a) by {
        lemma_lex_le_total(a, b);
    }
}

/// The canonical order of a list is a sorted permutation of it, and the only
/// one.
pub proof fn lemma_canonical_order(ids: Seq<Seq<char>>, sorted: Seq<Seq<char>>)
    ensures
        is_sorted_permutation(ids, canonical_order(ids)),
        is_sorted_permutation(ids, sorted) ==> sorted == canonical_order(ids),
{
    lemma_id_order_total();
    ids.lemma_sort_by_ensures(id_order());
    if is_sorted_permutation(ids, sorted) {
        lemma_sorted_unique(sorted, canonical_order(ids), id_order());
    }
}

/// Two nodes that are given the same identifiers, in whatever order, agree on
/// the sorted membership. Each identifier in the list gets an index below the
/// list's length, and two different identifiers get different indices.
pub proof fn lemma_membership_agreement(
    ids_a: Seq<Seq<char>>,
    ids_b: Seq<Seq<char>>,
    id_a: Seq<char>,
    id_b: Seq<char>,
)
    requires
        ids_a.to_multiset() == ids_b.to_multiset(),
        ids_a.contains(id_a),
        ids_b.contains(id_b),
    ensures
        canonical_order(ids_a) == canonical_order(ids_b),
        canonical_order(ids_a).len() == ids_a.len(),
        position(canonical_order(ids_a), id_a) matches Some(index_a) && 0 <= index_a < ids_a.len()
            && canonical_order(ids_a)[index_a] == id_a,
        position(canonical_order(ids_b), id_b) matches Some(index_b) && 0 <= index_b < ids_a.len()
            && canonical_order(ids_b)[index_b] == id_b,
        id_a != id_b ==> position(canonical_order(ids_a), id_a) != position(
            canonical_order(ids_b),
            id_b,
        ),
{
    broadcast use vstd::seq_lib::group_to_multiset_ensures;

    let sorted = canonical_order(ids_a);
    lemma_canonical_order(ids_a, sorted);
    lemma_canonical_order(ids_b, sorted);
    assert(sorted.to_multiset().len() == ids_a.to_multiset().len());
    assert(sorted.to_multiset().contains(id_a));
    assert(sorted.to_multiset().contains(id_b));
    sorted.index_of_first_ensures(id_a);
    sorted.index_of_first_ensures(id_b);
}

/// Where the list repeats no identifier, the indices are just the numbers
/// below the list's length: the sorted list repeats none either, and each
/// of its positions is the index of the identifier that stands there.
pub proof fn lemma_indices_cover(ids: Seq<Seq<char>>)
    requires
        ids.no_duplicates(),
    ensures
        canonical_order(ids).len() == ids.len(),
        canonical_order(ids).no_duplicates(),
        forall|index: int|
            0 <= index < ids.len() ==> ids.contains(#[trigger] canonical_order(ids)[index])
                && position(canonical_order(ids), canonical_order(ids)[index]) == Some(index),
{
    broadcast use vstd::seq_lib::group_to_multiset_ensures;

    let sorted = canonical_order(ids);
    lemma_canonical_order(ids, sorted);
    assert(sorted.to_multiset().len() == ids.to_multiset().len());
    ids.lemma_multiset_has_no_duplicates();
    sorted.lemma_multiset_has_no_duplicates_conv();
    assert forall|index: int| 0 <= index < ids.len() implies ids.contains(#[trigger] sorted[index])
        && position(sorted, sorted[index]) == Some(index) by {
        assert(sorted.to_multiset().contains(sorted[index]));
        sorted.index_of_first_ensures(sorted[index]);
    }
}

/// `sort_unstable` of std on a list of strings. Not proved, but taken from
/// the documentation of std: the list is rearranged into ascending order,
/// and strings are ordered lexicographically by their bytes, which is the
/// order of their code points.
#[verifier::external_body]
fn sort_strings(ids: &mut Vec<NodeId>)
    ensures
        ids_view(final(ids)@).to_multiset() == ids_view(old(ids)@).to_multiset(),
        sorted_by(ids_view(final(ids)@), id_order()),
{
    ids.sort_unstable();
}

/// Puts a membership list into canonical order.
pub fn sort_membership(ids: &mut Vec<NodeId>)
    ensures
        ids_view(final(ids)@) == canonical_order(ids_view(old(ids)@)),
{
    sort_strings(ids);
    proof {
        lemma_canonical_order(ids_view(old(ids)@), ids_view(ids@));
    }
}

/// The first position of `id` in `ids`, if it occurs.
pub fn find_position(ids: &Vec<NodeId>, id: &NodeId) -> (index: Option<usize>)
    ensures
        match index {
            Some(i) => position(ids_view(ids@), id@) == Some(i as int),
            None => position(ids_view(ids@), id@) is None,
        },
{
    let ghost view = ids_view(ids@);
    let mut i: usize = 0;
    while i < ids.len()
        invariant
            i <= ids.len(),
            view == ids_view(ids@),
            forall|j: int| 0 <= j < i ==> view[j] != id@,
        decreases ids.len() - i,
    {
        if ids[i] == *id {
            proof {
                assert(view[i as int] == id@);
                view.index_of_first_ensures(id@);
            }
            return Some(i);
        }
        i += 1;
    }
    proof {
        view.index_of_first_ensures(id@);
    }
    None
}

} // verus!
