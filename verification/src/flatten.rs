//! The reduction of a formula tree to per-element totals.
//!
//! A group is reduced by recursion, one call deep for each level of nesting.
//! Counts are `u32`; a product or a sum that does not fit is reported as
//! `NumericOverflow`, never wrapped.

use vstd::prelude::*;
use vstd::slice::slice_to_vec;
use crate::counts::{
    accumulate, add_count, counts_fit, counts_view, entry_index, grows_to, has_entry,
    lemma_add_count_grows, unique_keys,
};
use crate::formula::{molecules_view, FormulaError, Molecule, MoleculeView, Parsed};
use crate::parser::{parse, spec_molecules};

verus! {

/// `acc` after each entry of `items`, its count taken `k` times, was added to
/// it in order.
pub open spec fn add_scaled(
    acc: Seq<(Seq<u8>, nat)>,
    items: Seq<(Seq<u8>, nat)>,
    k: nat,
) -> Seq<(Seq<u8>, nat)>
    decreases items.len(),
{
    if items.len() == 0 {
        acc
    } else {
        add_count(add_scaled(acc, items.drop_last(), k), items.last().0, items.last().1 * k)
    }
}

/// The totals of one node: an element gives its one entry; a group gives the
/// totals of its children, each taken as often as the group says, merged from
/// left to right.
pub open spec fn flat(m: MoleculeView) -> Seq<(Seq<u8>, nat)>
    decreases m, 0nat,
{
    match m {
        MoleculeView::Single(e, n) => seq![(e, n)],
        MoleculeView::Group(children, k) => flat_prefix(children, k, children.len()),
    }
}

/// The totals of the first `n` nodes of `children`, each taken `k` times.
pub open spec fn flat_prefix(children: Seq<MoleculeView>, k: nat, n: nat) -> Seq<(Seq<u8>, nat)>
    decreases children, n,
{
    if n == 0 || n > children.len() {
        Seq::empty()
    } else {
        add_scaled(flat_prefix(children, k, (n - 1) as nat), flat(children[n - 1]), k)
    }
}

/// The totals of a whole formula: those of a group of its top-level nodes,
/// taken once.
pub open spec fn flat_formula(ms: Seq<MoleculeView>) -> Seq<(Seq<u8>, nat)> {
    flat_prefix(ms, 1, ms.len())
}

/// Every total that comes up while `m` is reduced fits in `u32`.
pub open spec fn reducible(m: MoleculeView) -> bool
    decreases m,
{
    match m {
        MoleculeView::Single(_, _) => true,
        MoleculeView::Group(children, k) => {
            &&& forall|i: int| 0 <= i < children.len() ==> reducible(#[trigger] children[i])
            &&& counts_fit(flat(m))
        },
    }
}

/// Every total that comes up while the group of `children`, taken `k` times,
/// is reduced fits in `u32`.
pub open spec fn group_reducible(children: Seq<MoleculeView>, k: nat) -> bool {
    &&& forall|i: int| 0 <= i < children.len() ==> reducible(#[trigger] children[i])
    &&& counts_fit(flat_prefix(children, k, children.len()))
}

proof fn lemma_grows_trans(
    a: Seq<(Seq<u8>, nat)>,
    b: Seq<(Seq<u8>, nat)>,
    c: Seq<(Seq<u8>, nat)>,
)
    requires
        grows_to(a, b),
        grows_to(b, c),
    ensures
        grows_to(a, c),
{
}

proof fn lemma_grows_fit(a: Seq<(Seq<u8>, nat)>, b: Seq<(Seq<u8>, nat)>)
    requires
        grows_to(a, b),
        counts_fit(b),
    ensures
        counts_fit(a),
{
    assert forall|i: int| 0 <= i < a.len() implies (#[trigger] a[i]).1 <= u32::MAX by {
        assert(b[i].1 <= u32::MAX);
    }
}

/// Adding more entries keeps what adding the first `j` of them gave, in
/// place, and lowers no count.
pub proof fn lemma_add_scaled_grows(
    acc: Seq<(Seq<u8>, nat)>,
    items: Seq<(Seq<u8>, nat)>,
    k: nat,
    j: int,
)
    requires
        0 <= j <= items.len(),
    ensures
        grows_to(add_scaled(acc, items.take(j), k), add_scaled(acc, items, k)),
    decreases items.len(),
{
    if j == items.len() {
        assert(items.take(j) =~= items);
    } else {
        let shorter = items.drop_last();
        lemma_add_scaled_grows(acc, shorter, k, j);
        assert(shorter.take(j) =~= items.take(j));
        lemma_add_count_grows(add_scaled(acc, shorter, k), items.last().0, items.last().1 * k);
        lemma_grows_trans(
            add_scaled(acc, items.take(j), k),
            add_scaled(acc, shorter, k),
            add_scaled(acc, items, k),
        );
    }
}

/// The totals of more children keep those of the first `i` of them, in place,
/// and lower no count.
pub proof fn lemma_flat_prefix_grows(children: Seq<MoleculeView>, k: nat, i: nat, n: nat)
    requires
        i <= n <= children.len(),
    ensures
        grows_to(flat_prefix(children, k, i), flat_prefix(children, k, n)),
    decreases n,
{
    if i < n {
        let before = flat_prefix(children, k, (n - 1) as nat);
        let items = flat(children[n - 1]);
        lemma_flat_prefix_grows(children, k, i, (n - 1) as nat);
        lemma_add_scaled_grows(before, items, k, 0);
        assert(items.take(0) =~= Seq::<(Seq<u8>, nat)>::empty());
        lemma_grows_trans(flat_prefix(children, k, i), before, flat_prefix(children, k, n));
    }
}

/// Merging into a list without a repeated symbol gives such a list.
pub proof fn lemma_add_scaled_unique(
    acc: Seq<(Seq<u8>, nat)>,
    items: Seq<(Seq<u8>, nat)>,
    k: nat,
)
    requires
        unique_keys(acc),
    ensures
        unique_keys(add_scaled(acc, items, k)),
    decreases items.len(),
{
    if items.len() > 0 {
        let more: nat = items.last().1 * k;
        lemma_add_scaled_unique(acc, items.drop_last(), k);
        lemma_add_count_grows(add_scaled(acc, items.drop_last(), k), items.last().0, more);
    }
}

/// No symbol stands twice in the totals of the first `n` nodes of a group.
pub proof fn lemma_flat_prefix_unique(children: Seq<MoleculeView>, k: nat, n: nat)
    ensures
        unique_keys(flat_prefix(children, k, n)),
    decreases n,
{
    if n == 0 || n > children.len() {
    } else {
        lemma_flat_prefix_unique(children, k, (n - 1) as nat);
        lemma_add_scaled_unique(flat_prefix(children, k, (n - 1) as nat), flat(children[n - 1]), k);
    }
}

/// No symbol stands twice in the totals of a node.
pub proof fn lemma_flat_unique(m: MoleculeView)
    ensures
        unique_keys(flat(m)),
{
    match m {
        MoleculeView::Single(e, n) => {},
        MoleculeView::Group(children, k) => {
            lemma_flat_prefix_unique(children, k, children.len());
        },
    }
}

/// A state that the reduction of a group passes through stays below the
/// group's totals: where those fit, so does the state.
proof fn lemma_partial_fits(
    children: Seq<MoleculeView>,
    k: nat,
    i: nat,
    j: int,
)
    requires
        i < children.len(),
        0 <= j <= flat(children[i as int]).len(),
        counts_fit(flat_prefix(children, k, children.len())),
    ensures
        counts_fit(add_scaled(flat_prefix(children, k, i), flat(children[i as int]).take(j), k)),
{
    let base = flat_prefix(children, k, i);
    let items = flat(children[i as int]);
    lemma_add_scaled_grows(base, items, k, j);
    lemma_flat_prefix_grows(children, k, i + 1, children.len());
    lemma_grows_trans(
        add_scaled(base, items.take(j), k),
        flat_prefix(children, k, i + 1),
        flat_prefix(children, k, children.len()),
    );
    lemma_grows_fit(add_scaled(base, items.take(j), k), flat_prefix(children, k, children.len()));
}

/// The totals of a group of nodes, each taken `amount` times, or
/// `NumericOverflow` where a total on the way does not fit in `u32`.
pub fn flatten_group(children: &Vec<Molecule>, amount: u32) -> (r: Result<
    Vec<(Vec<u8>, u32)>,
    FormulaError,
>)
    ensures
        r is Ok <==> group_reducible(molecules_view(children@), amount as nat),
        r is Ok ==> counts_view(r.unwrap()@) == flat_prefix(
            molecules_view(children@),
            amount as nat,
            children.len() as nat,
        ) && unique_keys(counts_view(r.unwrap()@)),
        r is Err ==> r->Err_0 == FormulaError::NumericOverflow,
    decreases children, 1nat,
{
    let ghost cs = molecules_view(children@);
    let ghost k = amount as nat;
    let mut acc: Vec<(Vec<u8>, u32)> = Vec::new();
    let mut i: usize = 0;
    assert(counts_view(acc@) =~= flat_prefix(cs, k, 0));
    while i < children.len()
        invariant
            0 <= i <= children.len(),
            cs == molecules_view(children@),
            k == amount as nat,
            counts_view(acc@) == flat_prefix(cs, k, i as nat),
            forall|c: int| 0 <= c < i ==> reducible(#[trigger] cs[c]),
        decreases children.len() - i,
    {
        assert(cs[i as int] == children@[i as int]@);
        let items: Vec<(Vec<u8>, u32)> = match children[i].flatten() {
            Ok(v) => v,
            Err(_) => {
                assert(!reducible(cs[i as int]));
                return Err(FormulaError::NumericOverflow);
            },
        };
        let ghost base = counts_view(acc@);
        let ghost its = counts_view(items@);
        let mut j: usize = 0;
        assert(its.take(0) =~= Seq::<(Seq<u8>, nat)>::empty());
        while j < items.len()
            invariant
                0 <= j <= items.len(),
                i < children.len(),
                cs == molecules_view(children@),
                k == amount as nat,
                its == counts_view(items@),
                its == flat(cs[i as int]),
                base == flat_prefix(cs, k, i as nat),
                counts_view(acc@) == add_scaled(base, its.take(j as int), k),
            decreases items.len() - j,
        {
            let count: u32 = items[j].1;
            let ghost next = add_scaled(base, its.take(j + 1), k);
            let ghost more: nat = (count as nat) * k;
            proof {
                assert(its.take(j + 1).drop_last() =~= its.take(j as int));
                assert(its.take(j + 1).last() == its[j as int]);
                assert(next == add_count(counts_view(acc@), its[j as int].0, more));
                if counts_fit(flat_prefix(cs, k, cs.len())) {
                    lemma_partial_fits(cs, k, i as nat, j + 1);
                    lemma_entry_at_least(counts_view(acc@), its[j as int].0, more);
                }
            }
            let scaled: u32 = match count.checked_mul(amount) {
                Some(s) => s,
                None => {
                    return Err(FormulaError::NumericOverflow);
                },
            };
            let key: Vec<u8> = slice_to_vec(items[j].0.as_slice());
            match accumulate(&mut acc, key, scaled) {
                Ok(()) => {},
                Err(_) => {
                    return Err(FormulaError::NumericOverflow);
                },
            }
            j += 1;
        }
        proof {
            assert(its.take(items.len() as int) =~= its);
        }
        i += 1;
    }
    proof {
        lemma_flat_prefix_unique(cs, k, cs.len());
        assert(counts_fit(counts_view(acc@))) by {
            assert forall|c: int| 0 <= c < counts_view(acc@).len() implies (
            #[trigger] counts_view(acc@)[c]).1 <= u32::MAX by {}
        }
    }
    Ok(acc)
}

/// After `n` of a symbol was added, some count is at least `n`.
proof fn lemma_entry_at_least(acc: Seq<(Seq<u8>, nat)>, e: Seq<u8>, n: nat)
    ensures
        counts_fit(add_count(acc, e, n)) ==> n <= u32::MAX,
{
    if has_entry(acc, e) {
        let i = entry_index(acc, e);
        assert(add_count(acc, e, n)[i].1 >= n);
    } else {
        assert(add_count(acc, e, n)[acc.len() as int].1 == n);
    }
}

impl Molecule {
    /// The totals of this node, or `NumericOverflow` where a total on the way
    /// does not fit in `u32`.
    pub fn flatten(&self) -> (r: Result<Vec<(Vec<u8>, u32)>, FormulaError>)
        ensures
            r is Ok <==> reducible(self@),
            r is Ok ==> counts_view(r.unwrap()@) == flat(self@) && unique_keys(
                counts_view(r.unwrap()@),
            ),
            r is Err ==> r->Err_0 == FormulaError::NumericOverflow,
        decreases self, 0nat,
    {
        match self {
            Molecule::Single(element, amount) => {
                let mut out: Vec<(Vec<u8>, u32)> = Vec::new();
                out.push((slice_to_vec(element.as_slice()), *amount));
                assert(counts_view(out@) =~= flat(self@));
                proof {
                    lemma_flat_unique(self@);
                }
                Ok(out)
            },
            Molecule::Group(children, amount) => {
                assert(self@ == MoleculeView::Group(molecules_view(children@), *amount as nat));
                flatten_group(children, *amount)
            },
        }
    }
}

impl Parsed {
    /// The totals of the whole formula: those of its top-level nodes taken
    /// once as one group.
    pub fn flatten(&self) -> (r: Result<Vec<(Vec<u8>, u32)>, FormulaError>)
        ensures
            r is Ok <==> group_reducible(self@, 1),
            r is Ok ==> counts_view(r.unwrap()@) == flat_formula(self@) && unique_keys(
                counts_view(r.unwrap()@),
            ),
            r is Err ==> r->Err_0 == FormulaError::NumericOverflow,
    {
        flatten_group(&self.molecules, 1)
    }
}

/// The totals of a formula that was read, whatever input was left over.
pub fn flatten_parsed(outcome: &Result<(Parsed, &[u8]), FormulaError>) -> (r: Result<
    Vec<(Vec<u8>, u32)>,
    FormulaError,
>)
    requires
        outcome is Ok,
    ensures
        r is Ok <==> group_reducible(outcome.unwrap().0@, 1),
        r is Ok ==> counts_view(r.unwrap()@) == flat_formula(outcome.unwrap().0@) && unique_keys(
            counts_view(r.unwrap()@),
        ),
        r is Err ==> r->Err_0 == FormulaError::NumericOverflow,
{
    match outcome {
        Ok((parsed, _)) => parsed.flatten(),
        Err(e) => Err(*e),
    }
}

/// What the bytes `s` reduce to: the totals of the formula that they start
/// with, or `NumericOverflow` where an amount or a total does not fit in
/// `u32`.
pub open spec fn spec_formula_counts(s: Seq<u8>) -> Result<Seq<(Seq<u8>, nat)>, FormulaError> {
    match spec_molecules(s, 0) {
        Err(e) => Err(e),
        Ok((ms, _)) => if group_reducible(ms, 1) {
            Ok(flat_formula(ms))
        } else {
            Err(FormulaError::NumericOverflow)
        },
    }
}

/// Reads the formula that `input` starts with and reduces it. The result is
/// a function of the bytes of `input` and of nothing else.
pub fn formula_counts(input: &[u8]) -> (r: Result<Vec<(Vec<u8>, u32)>, FormulaError>)
    ensures
        r is Ok <==> spec_formula_counts(input@) is Ok,
        r is Ok ==> counts_view(r.unwrap()@) == spec_formula_counts(input@).unwrap(),
        r is Err ==> r->Err_0 == spec_formula_counts(input@)->Err_0,
{
    match parse(input) {
        Ok((parsed, _)) => parsed.flatten(),
        Err(e) => Err(e),
    }
}

} // verus!
