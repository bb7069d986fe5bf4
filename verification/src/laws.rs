//! What holds of every reduction: the counts are conserved, the first
//! symbol comes first, and adding one symbol twice is adding it once.

use vstd::prelude::*;
use crate::counts::{
    add_count, entry_index, has_entry, is_first_entry, lemma_absent, lemma_add_count_grows,
    lemma_add_count_total, lemma_add_count_twice, lemma_entry_index, total,
};
use crate::flatten::{add_scaled, flat, flat_formula, flat_prefix, lemma_add_scaled_grows};
use crate::formula::{all_well_formed, well_formed, MoleculeView};

verus! {

/// The sum, over the leaves of `m`, of the leaf's amount times `factor` times
/// the amount of every group around the leaf.
pub open spec fn leaf_sum(m: MoleculeView, factor: nat) -> nat
    decreases m, 0nat,
{
    match m {
        MoleculeView::Single(_, n) => n * factor,
        MoleculeView::Group(children, k) => leaf_sum_prefix(children, factor * k, children.len()),
    }
}

/// `leaf_sum` over the first `n` nodes of `children`.
pub open spec fn leaf_sum_prefix(children: Seq<MoleculeView>, factor: nat, n: nat) -> nat
    decreases children, n,
{
    if n == 0 || n > children.len() {
        0
    } else {
        leaf_sum_prefix(children, factor, (n - 1) as nat) + leaf_sum(children[n - 1], factor)
    }
}

/// The symbol of the first leaf of `m`, from left to right and depth first.
pub open spec fn first_leaf(m: MoleculeView) -> Seq<u8>
    decreases m,
{
    match m {
        MoleculeView::Single(e, _) => e,
        MoleculeView::Group(children, _) => if children.len() > 0 {
            first_leaf(children[0])
        } else {
            Seq::empty()
        },
    }
}

/// A list of pairs, merged from left to right into one list of totals.
pub open spec fn aggregate(pairs: Seq<(Seq<u8>, nat)>) -> Seq<(Seq<u8>, nat)> {
    add_scaled(Seq::empty(), pairs, 1)
}

/// Merging entries, each taken `k` times, raises the sum of the counts by
/// `k` times the sum of theirs.
pub proof fn lemma_add_scaled_total(
    acc: Seq<(Seq<u8>, nat)>,
    items: Seq<(Seq<u8>, nat)>,
    k: nat,
)
    ensures
        total(add_scaled(acc, items, k)) == total(acc) + k * total(items),
    decreases items.len(),
{
    if items.len() > 0 {
        let shorter = items.drop_last();
        let more: nat = items.last().1 * k;
        lemma_add_scaled_total(acc, shorter, k);
        lemma_add_count_total(add_scaled(acc, shorter, k), items.last().0, more);
        assert(k * (total(shorter) + items.last().1) == k * total(shorter) + items.last().1 * k)
            by (nonlinear_arith);
    } else {
        assert(k * 0 == 0) by (nonlinear_arith);
    }
}

/// The sum of the totals of a node, times `factor`, is the sum over its
/// leaves of amount times `factor` times the amounts of the groups around.
pub proof fn lemma_total_scaled(m: MoleculeView, factor: nat)
    ensures
        total(flat(m)) * factor == leaf_sum(m, factor),
    decreases m, 0nat,
{
    match m {
        MoleculeView::Single(e, n) => {
            assert(seq![(e, n)].drop_last() =~= Seq::<(Seq<u8>, nat)>::empty());
            assert(total(seq![(e, n)].drop_last()) == 0);
            assert(total(flat(m)) == n);
        },
        MoleculeView::Group(children, k) => {
            lemma_total_scaled_prefix(children, k, factor, children.len());
        },
    }
}

/// `lemma_total_scaled` for the first `n` nodes of a group taken `k` times.
pub proof fn lemma_total_scaled_prefix(children: Seq<MoleculeView>, k: nat, factor: nat, n: nat)
    requires
        n <= children.len(),
    ensures
        total(flat_prefix(children, k, n)) * factor == leaf_sum_prefix(children, factor * k, n),
    decreases children, n,
{
    if n == 0 {
        assert(total(flat_prefix(children, k, n)) == 0);
        assert(0 * factor == 0) by (nonlinear_arith);
    } else {
        let before = flat_prefix(children, k, (n - 1) as nat);
        let items = flat(children[n - 1]);
        lemma_total_scaled_prefix(children, k, factor, (n - 1) as nat);
        lemma_total_scaled(children[n - 1], factor * k);
        lemma_add_scaled_total(before, items, k);
        let a = total(before);
        let t = total(items);
        assert((a + k * t) * factor == a * factor + t * (factor * k)) by (nonlinear_arith);
    }
}

/// Conservation: the counts that a formula reduces to sum up to the sum,
/// over every leaf, of the leaf's amount times the amounts of all the groups
/// around it.
pub proof fn lemma_counts_conserved(ms: Seq<MoleculeView>)
    ensures
        total(flat_formula(ms)) == leaf_sum_prefix(ms, 1, ms.len()),
{
    lemma_total_scaled_prefix(ms, 1, 1, ms.len());
    assert(total(flat_formula(ms)) * 1 == total(flat_formula(ms))) by (nonlinear_arith);
    assert(1nat * 1nat == 1nat) by (nonlinear_arith);
}

/// Conservation for one node.
pub proof fn lemma_node_counts_conserved(m: MoleculeView)
    ensures
        total(flat(m)) == leaf_sum(m, 1),
{
    lemma_total_scaled(m, 1);
    assert(total(flat(m)) * 1 == total(flat(m))) by (nonlinear_arith);
}

/// Merging into a list that is not empty keeps its first symbol; merging
/// entries into an empty list puts the first of them first.
pub proof fn lemma_add_scaled_first(
    acc: Seq<(Seq<u8>, nat)>,
    items: Seq<(Seq<u8>, nat)>,
    k: nat,
)
    ensures
        acc.len() > 0 ==> add_scaled(acc, items, k).len() > 0 && add_scaled(acc, items, k)[0].0
            == acc[0].0,
        acc.len() == 0 && items.len() > 0 ==> add_scaled(acc, items, k).len() > 0 && add_scaled(
            acc,
            items,
            k,
        )[0].0 == items[0].0,
    decreases items.len(),
{
    if acc.len() > 0 {
        lemma_add_scaled_grows(acc, items, k, 0);
        assert(items.take(0) =~= Seq::<(Seq<u8>, nat)>::empty());
    } else if items.len() > 0 {
        let shorter = items.drop_last();
        let before = add_scaled(acc, shorter, k);
        let more: nat = items.last().1 * k;
        lemma_add_scaled_first(acc, shorter, k);
        lemma_add_count_grows(before, items.last().0, more);
        if items.len() == 1 {
            assert(before.len() == 0);
            assert(!has_entry(before, items.last().0));
        }
    }
}

/// Order: the totals of a well-formed node start with the symbol of its
/// first leaf.
pub proof fn lemma_first_symbol(m: MoleculeView)
    requires
        well_formed(m),
    ensures
        flat(m).len() > 0,
        flat(m)[0].0 == first_leaf(m),
    decreases m, 0nat,
{
    match m {
        MoleculeView::Single(e, n) => {},
        MoleculeView::Group(children, k) => {
            lemma_first_symbol_prefix(children, k, children.len());
        },
    }
}

/// `lemma_first_symbol` for the first `n` nodes of a group.
pub proof fn lemma_first_symbol_prefix(children: Seq<MoleculeView>, k: nat, n: nat)
    requires
        1 <= n <= children.len(),
        all_well_formed(children),
    ensures
        flat_prefix(children, k, n).len() > 0,
        flat_prefix(children, k, n)[0].0 == first_leaf(children[0]),
    decreases children, n,
{
    let before = flat_prefix(children, k, (n - 1) as nat);
    let items = flat(children[n - 1]);
    assert(well_formed(children[n - 1]));
    lemma_first_symbol(children[n - 1]);
    lemma_add_scaled_first(before, items, k);
    if n > 1 {
        lemma_first_symbol_prefix(children, k, (n - 1) as nat);
    }
}

/// Order: the totals of a formula that is not empty start with the symbol of
/// the first leaf of its first node.
pub proof fn lemma_formula_first_symbol(ms: Seq<MoleculeView>)
    requires
        ms.len() > 0,
        all_well_formed(ms),
    ensures
        flat_formula(ms).len() > 0,
        flat_formula(ms)[0].0 == first_leaf(ms[0]),
{
    lemma_first_symbol_prefix(ms, 1, ms.len());
}

/// Adding to a symbol keeps the entry of every symbol that has one.
pub proof fn lemma_add_count_keeps_entry(
    acc: Seq<(Seq<u8>, nat)>,
    e: Seq<u8>,
    f: Seq<u8>,
    c: nat,
)
    requires
        has_entry(acc, e),
    ensures
        has_entry(add_count(acc, f, c), e),
        entry_index(add_count(acc, f, c), e) == entry_index(acc, e),
{
    let i = entry_index(acc, e);
    assert(is_first_entry(add_count(acc, f, c), e, i));
    lemma_entry_index(add_count(acc, f, c), e, i);
}

/// Adding to a symbol that has an entry can change places with any other
/// addition.
pub proof fn lemma_add_count_commutes(
    acc: Seq<(Seq<u8>, nat)>,
    e: Seq<u8>,
    b: nat,
    f: Seq<u8>,
    c: nat,
)
    requires
        has_entry(acc, e),
    ensures
        add_count(add_count(acc, f, c), e, b) == add_count(add_count(acc, e, b), f, c),
{
    let i = entry_index(acc, e);
    let with_f = add_count(acc, f, c);
    let with_e = add_count(acc, e, b);
    if f == e {
        lemma_add_count_twice(acc, e, c, b);
        lemma_add_count_twice(acc, e, b, c);
    } else {
        lemma_add_count_keeps_entry(acc, e, f, c);
        if has_entry(acc, f) {
            lemma_add_count_keeps_entry(acc, f, e, b);
        } else {
            lemma_absent(acc, f);
            if has_entry(with_e, f) {
                let j = entry_index(with_e, f);
                assert(is_first_entry(with_e, f, j));
                assert(acc[j].0 == f);
            }
        }
        assert(add_count(with_f, e, b) =~= add_count(with_e, f, c));
    }
}

/// Merging a list in two parts is merging it whole.
pub proof fn lemma_add_scaled_concat(
    acc: Seq<(Seq<u8>, nat)>,
    x: Seq<(Seq<u8>, nat)>,
    y: Seq<(Seq<u8>, nat)>,
    k: nat,
)
    ensures
        add_scaled(acc, x + y, k) == add_scaled(add_scaled(acc, x, k), y, k),
    decreases y.len(),
{
    if y.len() == 0 {
        assert(x + y =~= x);
    } else {
        lemma_add_scaled_concat(acc, x, y.drop_last(), k);
        assert((x + y).drop_last() =~= x + y.drop_last());
    }
}

/// Adding to a symbol that has an entry can be done before or after a merge.
pub proof fn lemma_add_count_past(
    acc: Seq<(Seq<u8>, nat)>,
    e: Seq<u8>,
    b: nat,
    items: Seq<(Seq<u8>, nat)>,
    k: nat,
)
    requires
        has_entry(acc, e),
    ensures
        has_entry(add_scaled(acc, items, k), e),
        add_count(add_scaled(acc, items, k), e, b) == add_scaled(add_count(acc, e, b), items, k),
    decreases items.len(),
{
    if items.len() > 0 {
        let shorter = items.drop_last();
        let more: nat = items.last().1 * k;
        lemma_add_count_past(acc, e, b, shorter, k);
        lemma_add_count_keeps_entry(add_scaled(acc, shorter, k), e, items.last().0, more);
        lemma_add_count_commutes(add_scaled(acc, shorter, k), e, b, items.last().0, more);
    }
}

/// Merge: a list of pairs in which one symbol stands twice, with the counts
/// `a` and `b`, merges to what the list merges to that holds the symbol once,
/// at the first of the two places, with the count `a + b`.
pub proof fn lemma_merge_same_symbol(
    before: Seq<(Seq<u8>, nat)>,
    e: Seq<u8>,
    a: nat,
    between: Seq<(Seq<u8>, nat)>,
    b: nat,
    after: Seq<(Seq<u8>, nat)>,
)
    ensures
        aggregate(before + seq![(e, a)] + between + seq![(e, b)] + after) == aggregate(
            before + seq![(e, a + b)] + between + after,
        ),
{
    let empty = Seq::<(Seq<u8>, nat)>::empty();
    let merged = add_scaled(empty, before, 1);
    let first = before + seq![(e, a)];
    let second = first + between + seq![(e, b)];
    let summed = before + seq![(e, a + b)];
    assert(a * 1 == a && b * 1 == b && (a + b) * 1 == a + b) by (nonlinear_arith);
    assert(first.drop_last() =~= before);
    assert(summed.drop_last() =~= before);
    assert(second.drop_last() =~= first + between);
    assert(add_scaled(empty, first, 1) == add_count(merged, e, a));
    assert(add_scaled(empty, summed, 1) == add_count(merged, e, a + b));
    assert(add_scaled(empty, second, 1) == add_count(add_scaled(empty, first + between, 1), e, b));
    lemma_add_scaled_concat(empty, first, between, 1);
    lemma_add_count_grows(merged, e, a);
    lemma_add_count_past(add_count(merged, e, a), e, b, between, 1);
    lemma_add_count_twice(merged, e, a, b);
    lemma_add_scaled_concat(empty, summed, between, 1);
    assert(add_scaled(empty, second, 1) == add_scaled(empty, summed + between, 1));
    lemma_add_scaled_concat(empty, second, after, 1);
    lemma_add_scaled_concat(empty, summed + between, after, 1);
}

} // verus!
