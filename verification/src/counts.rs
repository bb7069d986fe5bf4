//! Per-element totals: an ordered list of distinct element symbols, each with
//! its count, and the operation that adds to it.

use vstd::prelude::*;
use crate::formula::FormulaError;

verus! {

/// The model of a list of totals.
pub open spec fn counts_view(v: Seq<(Vec<u8>, u32)>) -> Seq<(Seq<u8>, nat)> {
    Seq::new(v.len(), |i: int| (v[i].0@, v[i].1 as nat))
}

/// `i` is the first place in `acc` that holds the symbol `e`.
pub open spec fn is_first_entry(acc: Seq<(Seq<u8>, nat)>, e: Seq<u8>, i: int) -> bool {
    &&& 0 <= i < acc.len()
    &&& acc[i].0 == e
    &&& forall|j: int| 0 <= j < i ==> acc[j].0 != e
}

/// `acc` holds the symbol `e`.
pub open spec fn has_entry(acc: Seq<(Seq<u8>, nat)>, e: Seq<u8>) -> bool {
    exists|i: int| is_first_entry(acc, e, i)
}

/// The first place in `acc` that holds `e`, where there is one.
pub open spec fn entry_index(acc: Seq<(Seq<u8>, nat)>, e: Seq<u8>) -> int {
    choose|i: int| is_first_entry(acc, e, i)
}

/// `acc` with `n` more of `e`: added to the entry of `e` where there is one,
/// else as a new last entry.
pub open spec fn add_count(acc: Seq<(Seq<u8>, nat)>, e: Seq<u8>, n: nat) -> Seq<(Seq<u8>, nat)> {
    if has_entry(acc, e) {
        let i = entry_index(acc, e);
        acc.update(i, (e, acc[i].1 + n))
    } else {
        acc.push((e, n))
    }
}

/// No symbol stands twice in `acc`.
pub open spec fn unique_keys(acc: Seq<(Seq<u8>, nat)>) -> bool {
    forall|i: int, j: int| 0 <= i < j < acc.len() ==> acc[i].0 != acc[j].0
}

/// Every count of `acc` fits in `u32`.
pub open spec fn counts_fit(acc: Seq<(Seq<u8>, nat)>) -> bool {
    forall|i: int| 0 <= i < acc.len() ==> (#[trigger] acc[i]).1 <= u32::MAX
}

/// The sum of the counts of `acc`.
pub open spec fn total(acc: Seq<(Seq<u8>, nat)>) -> nat
    decreases acc.len(),
{
    if acc.len() == 0 {
        0
    } else {
        total(acc.drop_last()) + acc.last().1
    }
}

/// `b` keeps every entry of `a` in its place, with a count no smaller.
pub open spec fn grows_to(a: Seq<(Seq<u8>, nat)>, b: Seq<(Seq<u8>, nat)>) -> bool {
    &&& a.len() <= b.len()
    &&& forall|i: int| 0 <= i < a.len() ==> a[i].0 == b[i].0 && a[i].1 <= b[i].1
}

/// Two first places of one symbol are the same place.
pub proof fn lemma_first_entry_unique(acc: Seq<(Seq<u8>, nat)>, e: Seq<u8>, i: int, j: int)
    requires
        is_first_entry(acc, e, i),
        is_first_entry(acc, e, j),
    ensures
        i == j,
{
    if i < j {
        assert(acc[i].0 != e);
    } else if j < i {
        assert(acc[j].0 != e);
    }
}

/// Where a symbol has a first place, `entry_index` is that place.
pub proof fn lemma_entry_index(acc: Seq<(Seq<u8>, nat)>, e: Seq<u8>, i: int)
    requires
        is_first_entry(acc, e, i),
    ensures
        has_entry(acc, e),
        entry_index(acc, e) == i,
{
    lemma_first_entry_unique(acc, e, i, entry_index(acc, e));
}

/// A symbol that stands anywhere below `k` has a first place.
proof fn lemma_absent_below(acc: Seq<(Seq<u8>, nat)>, e: Seq<u8>, k: int)
    requires
        !has_entry(acc, e),
        0 <= k <= acc.len(),
    ensures
        forall|j: int| 0 <= j < k ==> acc[j].0 != e,
    decreases k,
{
    if k > 0 {
        lemma_absent_below(acc, e, k - 1);
        if acc[k - 1].0 == e {
            assert(is_first_entry(acc, e, k - 1));
        }
    }
}

/// A list without an entry of `e` holds `e` nowhere.
pub proof fn lemma_absent(acc: Seq<(Seq<u8>, nat)>, e: Seq<u8>)
    requires
        !has_entry(acc, e),
    ensures
        forall|j: int| 0 <= j < acc.len() ==> acc[j].0 != e,
{
    lemma_absent_below(acc, e, acc.len() as int);
}

/// Raising one count by `n` raises the sum by `n`.
proof fn lemma_total_update(acc: Seq<(Seq<u8>, nat)>, i: int, e: Seq<u8>, n: nat)
    requires
        0 <= i < acc.len(),
    ensures
        total(acc.update(i, (e, acc[i].1 + n))) == total(acc) + n,
    decreases acc.len(),
{
    let raised = acc.update(i, (e, acc[i].1 + n));
    if i == acc.len() - 1 {
        assert(raised.drop_last() =~= acc.drop_last());
    } else {
        lemma_total_update(acc.drop_last(), i, e, n);
        assert(raised.drop_last() =~= acc.drop_last().update(i, (e, acc[i].1 + n)));
    }
}

/// Adding `n` of a symbol raises the sum of the counts by `n`.
pub proof fn lemma_add_count_total(acc: Seq<(Seq<u8>, nat)>, e: Seq<u8>, n: nat)
    ensures
        total(add_count(acc, e, n)) == total(acc) + n,
{
    if has_entry(acc, e) {
        lemma_total_update(acc, entry_index(acc, e), e, n);
    } else {
        assert(acc.push((e, n)).drop_last() =~= acc);
    }
}

/// Adding to a list keeps every entry in its place and lowers no count; the
/// list stays non-empty and its symbols stay distinct.
pub proof fn lemma_add_count_grows(acc: Seq<(Seq<u8>, nat)>, e: Seq<u8>, n: nat)
    ensures
        grows_to(acc, add_count(acc, e, n)),
        add_count(acc, e, n).len() > 0,
        unique_keys(acc) ==> unique_keys(add_count(acc, e, n)),
        has_entry(add_count(acc, e, n), e),
{
    let next = add_count(acc, e, n);
    if has_entry(acc, e) {
        let i = entry_index(acc, e);
        assert(is_first_entry(next, e, i));
    } else {
        lemma_absent(acc, e);
        assert(is_first_entry(next, e, acc.len() as int));
    }
}

/// Adding `a` and then `b` of one symbol is adding `a + b` of it.
pub proof fn lemma_add_count_twice(acc: Seq<(Seq<u8>, nat)>, e: Seq<u8>, a: nat, b: nat)
    ensures
        add_count(add_count(acc, e, a), e, b) == add_count(acc, e, a + b),
{
    let once = add_count(acc, e, a);
    if has_entry(acc, e) {
        let i = entry_index(acc, e);
        assert(is_first_entry(once, e, i));
        lemma_entry_index(once, e, i);
        assert(add_count(once, e, b) =~= add_count(acc, e, a + b));
    } else {
        lemma_absent(acc, e);
        assert(is_first_entry(once, e, acc.len() as int));
        lemma_entry_index(once, e, acc.len() as int);
        assert(add_count(once, e, b) =~= add_count(acc, e, a + b));
    }
}

/// Whether two symbols hold the same bytes.
pub fn same_symbol(a: &[u8], b: &[u8]) -> (r: bool)
    ensures
        r == (a@ == b@),
{
    if a.len() != b.len() {
        return false;
    }
    let mut i: usize = 0;
    while i < a.len()
        invariant
            a.len() == b.len(),
            0 <= i <= a.len(),
            forall|j: int| 0 <= j < i ==> a@[j] == b@[j],
        decreases a.len() - i,
    {
        if a[i] != b[i] {
            return false;
        }
        i += 1;
    }
    assert(a@ =~= b@);
    true
}

/// Adds `amount` of `item` to `acc`: to the entry of `item` where there is
/// one, else as a new last entry. Where the raised count would not fit in
/// `u32`, `acc` stays as it was.
pub fn accumulate(acc: &mut Vec<(Vec<u8>, u32)>, item: Vec<u8>, amount: u32) -> (r: Result<
    (),
    FormulaError,
>)
    ensures
        r is Ok <==> counts_fit(
            add_count(counts_view(old(acc)@), item@, amount as nat),
        ),
        r is Ok ==> counts_fit(counts_view(old(acc)@)) && counts_view(final(acc)@) == add_count(
            counts_view(old(acc)@),
            item@,
            amount as nat,
        ),
        r is Err ==> r == Err::<(), FormulaError>(FormulaError::NumericOverflow) && *final(acc)
            == *old(acc),
{
    let ghost before = counts_view(acc@);
    let ghost after = add_count(before, item@, amount as nat);
    let mut i: usize = 0;
    while i < acc.len()
        invariant
            *acc == *old(acc),
            before == counts_view(acc@),
            after == add_count(before, item@, amount as nat),
            0 <= i <= acc.len(),
            forall|j: int| 0 <= j < i ==> before[j].0 != item@,
        decreases acc.len() - i,
    {
        if same_symbol(acc[i].0.as_slice(), item.as_slice()) {
            proof {
                assert(before[i as int].0 == item@);
                assert(is_first_entry(before, item@, i as int));
                lemma_entry_index(before, item@, i as int);
            }
            let have: u32 = acc[i].1;
            if have > u32::MAX - amount {
                proof {
                    assert(after[i as int].1 > u32::MAX);
                }
                return Err(FormulaError::NumericOverflow);
            }
            acc.set(i, (item, have + amount));
            proof {
                assert(counts_view(acc@) =~= after);
                assert(counts_fit(after)) by {
                    assert forall|j: int| 0 <= j < after.len() implies (#[trigger] after[j]).1
                        <= u32::MAX by {
                        assert(after[j] == counts_view(acc@)[j]);
                    }
                }
                assert(counts_fit(before)) by {
                    assert forall|j: int| 0 <= j < before.len() implies (#[trigger] before[j]).1
                        <= u32::MAX by {
                    }
                }
            }
            return Ok(());
        }
        i += 1;
    }
    proof {
        if has_entry(before, item@) {
            assert(before[entry_index(before, item@)].0 == item@);
        }
        assert(!has_entry(before, item@));
    }
    acc.push((item, amount));
    proof {
        assert(counts_view(acc@) =~= after);
        assert(counts_fit(after)) by {
            assert forall|j: int| 0 <= j < after.len() implies (#[trigger] after[j]).1
                <= u32::MAX by {
                assert(after[j] == counts_view(acc@)[j]);
            }
        }
        assert(counts_fit(before)) by {
            assert forall|j: int| 0 <= j < before.len() implies (#[trigger] before[j]).1
                <= u32::MAX by {
            }
        }
    }
    Ok(())
}

} // verus!
