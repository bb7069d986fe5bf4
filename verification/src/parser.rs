//! The grammar of formulas, on bytes:
//!
//! ```text
//! element   := UPPER lower*
//! amount    := digit*            (no digit: 1)
//! molecule  := "(" molecule+ ")" amount | element amount
//! formula   := molecule*
//! ```
//!
//! A molecule that starts with `(` is a group and nothing else. A repetition
//! ends, without failing, where the next molecule does not match; a number
//! that does not fit in `u32` fails the whole reading. Nested groups are read
//! by recursion, one call deep for each open parenthesis.

use vstd::prelude::*;
use vstd::slice::{slice_subrange, slice_to_vec};
use crate::formula::{
    all_well_formed, is_lower, is_symbol, is_upper, molecules_view, well_formed, FormulaError,
    Molecule, MoleculeView, Parsed,
};

verus! {

/// A decimal digit.
pub open spec fn is_digit(b: u8) -> bool {
    0x30 <= b <= 0x39
}

/// Where the run of lower-case letters that starts at `pos` ends.
pub open spec fn lower_run_end(s: Seq<u8>, pos: int) -> int
    decreases s.len() - pos,
{
    if 0 <= pos < s.len() && is_lower(s[pos]) {
        lower_run_end(s, pos + 1)
    } else {
        pos
    }
}

/// Where the run of digits that starts at `pos` ends.
pub open spec fn digit_run_end(s: Seq<u8>, pos: int) -> int
    decreases s.len() - pos,
{
    if 0 <= pos < s.len() && is_digit(s[pos]) {
        digit_run_end(s, pos + 1)
    } else {
        pos
    }
}

/// The number that a run of digits writes in base ten.
pub open spec fn decimal_value(digits: Seq<u8>) -> nat
    decreases digits.len(),
{
    if digits.len() == 0 {
        0
    } else {
        decimal_value(digits.drop_last()) * 10 + (digits.last() - 0x30) as nat
    }
}

/// The element symbol at `pos` and where it ends.
pub open spec fn spec_element(s: Seq<u8>, pos: int) -> Result<(Seq<u8>, int), FormulaError> {
    if 0 <= pos < s.len() && is_upper(s[pos]) {
        Ok((s.subrange(pos, lower_run_end(s, pos + 1)), lower_run_end(s, pos + 1)))
    } else {
        Err(FormulaError::Syntax { position: pos as usize })
    }
}

/// The amount at `pos` and where it ends: 1 where no digit stands there.
pub open spec fn spec_amount(s: Seq<u8>, pos: int) -> Result<(nat, int), FormulaError> {
    let end = digit_run_end(s, pos);
    if end == pos {
        Ok((1, pos))
    } else if decimal_value(s.subrange(pos, end)) > u32::MAX {
        Err(FormulaError::NumericOverflow)
    } else {
        Ok((decimal_value(s.subrange(pos, end)), end))
    }
}

/// The molecule at `pos` and where it ends. A `(` opens a group, which needs
/// at least one molecule, then `)`, then an amount; anything else must be an
/// element with its amount.
pub open spec fn spec_molecule(s: Seq<u8>, pos: int) -> Result<(MoleculeView, int), FormulaError>
    decreases s.len() - pos, 0nat,
{
    if 0 <= pos < s.len() && s[pos] == 0x28 {
        match spec_molecules(s, pos + 1) {
            Err(e) => Err(e),
            Ok((children, close)) => {
                if children.len() == 0 {
                    Err(FormulaError::Syntax { position: (pos + 1) as usize })
                } else if !(0 <= close < s.len() && s[close] == 0x29) {
                    Err(FormulaError::Syntax { position: close as usize })
                } else {
                    match spec_amount(s, close + 1) {
                        Err(e) => Err(e),
                        Ok((k, end)) => Ok((MoleculeView::Group(children, k), end)),
                    }
                }
            },
        }
    } else {
        match spec_element(s, pos) {
            Err(e) => Err(e),
            Ok((element, after)) => match spec_amount(s, after) {
                Err(e) => Err(e),
                Ok((n, end)) => Ok((MoleculeView::Single(element, n), end)),
            },
        }
    }
}

/// The molecules that follow one another from `pos` on, and where the last
/// of them ends. A molecule always takes at least one byte
/// (`lemma_molecule_read`), so the test on `next` below always holds.
pub open spec fn spec_molecules(s: Seq<u8>, pos: int) -> Result<
    (Seq<MoleculeView>, int),
    FormulaError,
>
    decreases s.len() - pos, 1nat,
{
    match spec_molecule(s, pos) {
        Err(FormulaError::Syntax { .. }) => Ok((Seq::empty(), pos)),
        Err(FormulaError::NumericOverflow) => Err(FormulaError::NumericOverflow),
        Ok((m, next)) => {
            if pos < next <= s.len() {
                match spec_molecules(s, next) {
                    Err(e) => Err(e),
                    Ok((rest, end)) => Ok((seq![m] + rest, end)),
                }
            } else {
                Ok((seq![m], next))
            }
        },
    }
}

/// A run of lower-case letters lies within the input, holds lower-case
/// letters only, and ends before a byte that is none.
pub proof fn lemma_lower_run(s: Seq<u8>, pos: int)
    requires
        0 <= pos <= s.len(),
    ensures
        pos <= lower_run_end(s, pos) <= s.len(),
        forall|i: int| pos <= i < lower_run_end(s, pos) ==> is_lower(#[trigger] s[i]),
        lower_run_end(s, pos) < s.len() ==> !is_lower(s[lower_run_end(s, pos)]),
    decreases s.len() - pos,
{
    if pos < s.len() && is_lower(s[pos]) {
        lemma_lower_run(s, pos + 1);
    }
}

/// A run of digits lies within the input, holds digits only, and ends before
/// a byte that is none.
pub proof fn lemma_digit_run(s: Seq<u8>, pos: int)
    requires
        0 <= pos <= s.len(),
    ensures
        pos <= digit_run_end(s, pos) <= s.len(),
        forall|i: int| pos <= i < digit_run_end(s, pos) ==> is_digit(#[trigger] s[i]),
        digit_run_end(s, pos) < s.len() ==> !is_digit(s[digit_run_end(s, pos)]),
    decreases s.len() - pos,
{
    if pos < s.len() && is_digit(s[pos]) {
        lemma_digit_run(s, pos + 1);
    }
}

/// The first digits of a run write a number no larger than the whole run.
proof fn lemma_decimal_prefix(digits: Seq<u8>, j: int)
    requires
        0 <= j <= digits.len(),
    ensures
        decimal_value(digits.take(j)) <= decimal_value(digits),
    decreases digits.len(),
{
    if j == digits.len() {
        assert(digits.take(j) =~= digits);
    } else {
        lemma_decimal_prefix(digits.drop_last(), j);
        assert(digits.drop_last().take(j) =~= digits.take(j));
    }
}

/// A molecule that is read takes at least one byte, ends within the input,
/// and is well formed.
pub proof fn lemma_molecule_read(s: Seq<u8>, pos: int)
    requires
        0 <= pos <= s.len(),
    ensures
        spec_molecule(s, pos) is Ok ==> pos < spec_molecule(s, pos).unwrap().1 <= s.len()
            && well_formed(spec_molecule(s, pos).unwrap().0),
    decreases s.len() - pos, 0nat,
{
    if pos < s.len() && s[pos] == 0x28 {
        lemma_molecules_read(s, pos + 1);
        if let Ok((children, close)) = spec_molecules(s, pos + 1) {
            if close < s.len() {
                lemma_digit_run(s, close + 1);
            }
        }
    } else if pos < s.len() && is_upper(s[pos]) {
        lemma_lower_run(s, pos + 1);
        let after = lower_run_end(s, pos + 1);
        lemma_digit_run(s, after);
        let element = s.subrange(pos, after);
        assert(is_symbol(element)) by {
            assert forall|i: int| 1 <= i < element.len() implies is_lower(
                #[trigger] element[i],
            ) by {
                assert(element[i] == s[pos + i]);
            }
        }
    }
}

/// The molecules that are read end within the input, and each is well formed.
pub proof fn lemma_molecules_read(s: Seq<u8>, pos: int)
    requires
        0 <= pos <= s.len(),
    ensures
        spec_molecules(s, pos) is Ok ==> pos <= spec_molecules(s, pos).unwrap().1 <= s.len()
            && all_well_formed(spec_molecules(s, pos).unwrap().0),
    decreases s.len() - pos, 1nat,
{
    lemma_molecule_read(s, pos);
    if let Ok((m, next)) = spec_molecule(s, pos) {
        lemma_molecules_read(s, next);
        if let Ok((rest, end)) = spec_molecules(s, next) {
            let all = seq![m] + rest;
            assert forall|i: int| 0 <= i < all.len() implies well_formed(#[trigger] all[i]) by {
                if i > 0 {
                    assert(all[i] == rest[i - 1]);
                }
            }
        }
    }
}

fn element_at(input: &[u8], pos: usize) -> (r: Result<(Vec<u8>, usize), FormulaError>)
    requires
        pos <= input.len(),
    ensures
        r is Ok <==> spec_element(input@, pos as int) is Ok,
        r is Ok ==> r.unwrap().0@ == spec_element(input@, pos as int).unwrap().0 && r.unwrap().1
            == spec_element(input@, pos as int).unwrap().1,
        r is Err ==> r->Err_0 == spec_element(input@, pos as int)->Err_0,
{
    if !(pos < input.len() && input[pos] >= 0x41 && input[pos] <= 0x5a) {
        return Err(FormulaError::Syntax { position: pos });
    }
    let mut end: usize = pos + 1;
    while end < input.len() && input[end] >= 0x61 && input[end] <= 0x7a
        invariant
            pos < end <= input.len(),
            lower_run_end(input@, pos + 1) == lower_run_end(input@, end as int),
        decreases input.len() - end,
    {
        end += 1;
    }
    let symbol: Vec<u8> = slice_to_vec(slice_subrange(input, pos, end));
    Ok((symbol, end))
}

fn amount_at(input: &[u8], pos: usize) -> (r: Result<(u32, usize), FormulaError>)
    requires
        pos <= input.len(),
    ensures
        r is Ok <==> spec_amount(input@, pos as int) is Ok,
        r is Ok ==> r.unwrap().0 == spec_amount(input@, pos as int).unwrap().0 && r.unwrap().1
            == spec_amount(input@, pos as int).unwrap().1,
        r is Err ==> r->Err_0 == spec_amount(input@, pos as int)->Err_0,
{
    let mut end: usize = pos;
    while end < input.len() && input[end] >= 0x30 && input[end] <= 0x39
        invariant
            pos <= end <= input.len(),
            digit_run_end(input@, pos as int) == digit_run_end(input@, end as int),
            forall|i: int| pos <= i < end ==> is_digit(#[trigger] input@[i]),
        decreases input.len() - end,
    {
        end += 1;
    }
    if end == pos {
        return Ok((1, pos));
    }
    let ghost digits = input@.subrange(pos as int, end as int);
    let mut value: u32 = 0;
    let mut i: usize = pos;
    assert(input@.subrange(pos as int, pos as int) =~= Seq::<u8>::empty());
    while i < end
        invariant
            pos <= i <= end <= input.len(),
            pos < end,
            digit_run_end(input@, pos as int) == end,
            digits == input@.subrange(pos as int, end as int),
            forall|j: int| pos <= j < end ==> is_digit(#[trigger] input@[j]),
            value == decimal_value(input@.subrange(pos as int, i as int)),
        decreases end - i,
    {
        assert(is_digit(input@[i as int]));
        let digit: u64 = (input[i] - 0x30) as u64;
        let wide: u64 = (value as u64) * 10 + digit;
        proof {
            let longer = input@.subrange(pos as int, i + 1);
            assert(longer.drop_last() =~= input@.subrange(pos as int, i as int));
            assert(longer.last() == input@[i as int]);
            assert(decimal_value(longer) == wide);
            assert(digits.take(i + 1 - pos) =~= longer);
            lemma_decimal_prefix(digits, i + 1 - pos);
        }
        if wide > 0xffff_ffff {
            return Err(FormulaError::NumericOverflow);
        }
        value = wide as u32;
        i += 1;
    }
    Ok((value, end))
}

fn molecule_at(input: &[u8], pos: usize) -> (r: Result<(Molecule, usize), FormulaError>)
    requires
        pos <= input.len(),
    ensures
        r is Ok <==> spec_molecule(input@, pos as int) is Ok,
        r is Ok ==> r.unwrap().0@ == spec_molecule(input@, pos as int).unwrap().0 && r.unwrap().1
            == spec_molecule(input@, pos as int).unwrap().1 && pos < r.unwrap().1 <= input.len(),
        r is Err ==> r->Err_0 == spec_molecule(input@, pos as int)->Err_0,
    decreases input.len() - pos, 0nat,
{
    proof {
        lemma_molecule_read(input@, pos as int);
    }
    if pos < input.len() && input[pos] == 0x28 {
        proof {
            lemma_molecules_read(input@, pos + 1);
        }
        let (children, close): (Vec<Molecule>, usize) = match molecules_at(input, pos + 1) {
            Ok(found) => found,
            Err(e) => {
                return Err(e);
            },
        };
        if children.len() == 0 {
            return Err(FormulaError::Syntax { position: pos + 1 });
        }
        if !(close < input.len() && input[close] == 0x29) {
            return Err(FormulaError::Syntax { position: close });
        }
        let (amount, end): (u32, usize) = match amount_at(input, close + 1) {
            Ok(found) => found,
            Err(e) => {
                return Err(e);
            },
        };
        Ok((Molecule::Group(children, amount), end))
    } else {
        let (element, after): (Vec<u8>, usize) = match element_at(input, pos) {
            Ok(found) => found,
            Err(e) => {
                return Err(e);
            },
        };
        proof {
            lemma_lower_run(input@, pos + 1);
        }
        let (amount, end): (u32, usize) = match amount_at(input, after) {
            Ok(found) => found,
            Err(e) => {
                return Err(e);
            },
        };
        Ok((Molecule::Single(element, amount), end))
    }
}

fn molecules_at(input: &[u8], pos: usize) -> (r: Result<(Vec<Molecule>, usize), FormulaError>)
    requires
        pos <= input.len(),
    ensures
        r is Ok <==> spec_molecules(input@, pos as int) is Ok,
        r is Ok ==> molecules_view(r.unwrap().0@) == spec_molecules(input@, pos as int).unwrap().0
            && r.unwrap().1 == spec_molecules(input@, pos as int).unwrap().1 && pos
            <= r.unwrap().1 <= input.len(),
        r is Err ==> r->Err_0 == spec_molecules(input@, pos as int)->Err_0,
    decreases input.len() - pos, 1nat,
{
    let mut out: Vec<Molecule> = Vec::new();
    let mut cur: usize = pos;
    assert(molecules_view(out@) + spec_molecules(input@, pos as int).unwrap().0
        =~= spec_molecules(input@, pos as int).unwrap().0);
    loop
        invariant
            pos <= cur <= input.len(),
            spec_molecules(input@, cur as int) is Ok <==> spec_molecules(input@, pos as int) is Ok,
            spec_molecules(input@, cur as int) is Ok ==> spec_molecules(input@, pos as int).unwrap()
                == (
                molecules_view(out@) + spec_molecules(input@, cur as int).unwrap().0,
                spec_molecules(input@, cur as int).unwrap().1,
            ),
            spec_molecules(input@, cur as int) is Err ==> spec_molecules(
                input@,
                pos as int,
            )->Err_0 == spec_molecules(input@, cur as int)->Err_0,
        decreases input.len() - cur,
    {
        match molecule_at(input, cur) {
            Err(FormulaError::Syntax { .. }) => {
                assert(molecules_view(out@) + Seq::<MoleculeView>::empty() =~= molecules_view(
                    out@,
                ));
                return Ok((out, cur));
            },
            Err(FormulaError::NumericOverflow) => {
                return Err(FormulaError::NumericOverflow);
            },
            Ok((m, next)) => {
                let ghost before = molecules_view(out@);
                out.push(m);
                proof {
                    assert(molecules_view(out@) =~= before.push(m@));
                    if let Ok((rest, end)) = spec_molecules(input@, next as int) {
                        assert(before + (seq![m@] + rest) =~= before.push(m@) + rest);
                    }
                }
                cur = next;
            },
        }
    }
}

/// Reads one element symbol from the start of `input`: one upper-case
/// letter and every lower-case letter that follows it. Gives the symbol and
/// the rest of the input, or `Syntax` at 0 where no upper-case letter
/// stands first.
pub fn parse_element(input: &[u8]) -> (r: Result<(Vec<u8>, &[u8]), FormulaError>)
    ensures
        r is Ok <==> spec_element(input@, 0) is Ok,
        r is Ok ==> r.unwrap().0@ == spec_element(input@, 0).unwrap().0 && r.unwrap().1@
            == input@.skip(spec_element(input@, 0).unwrap().1) && is_symbol(r.unwrap().0@),
        r is Err ==> r->Err_0 == spec_element(input@, 0)->Err_0,
{
    match element_at(input, 0) {
        Ok((element, end)) => {
            proof {
                lemma_lower_run(input@, 1);
                assert(is_symbol(element@)) by {
                    assert forall|i: int| 1 <= i < element@.len() implies is_lower(
                        #[trigger] element@[i],
                    ) by {
                        assert(element@[i] == input@[i]);
                    }
                }
            }
            Ok((element, slice_subrange(input, end, input.len())))
        },
        Err(e) => Err(e),
    }
}

/// Reads an amount from the start of `input`: every digit that stands
/// there, in base ten, or 1 where none does. Gives the amount and the rest of
/// the input, or `NumericOverflow` where the number does not fit in `u32`.
pub fn parse_amount(input: &[u8]) -> (r: Result<(u32, &[u8]), FormulaError>)
    ensures
        r is Ok <==> spec_amount(input@, 0) is Ok,
        r is Ok ==> r.unwrap().0 == spec_amount(input@, 0).unwrap().0 && r.unwrap().1@
            == input@.skip(spec_amount(input@, 0).unwrap().1),
        r is Err ==> r->Err_0 == spec_amount(input@, 0)->Err_0,
{
    proof {
        lemma_digit_run(input@, 0);
    }
    match amount_at(input, 0) {
        Ok((amount, end)) => Ok((amount, slice_subrange(input, end, input.len()))),
        Err(e) => Err(e),
    }
}

/// Reads one molecule from the start of `input`: a group in parentheses
/// with its amount where `(` stands first, else an element with its amount.
/// Gives the molecule and the rest of the input, or the error and the place
/// where the grammar was not met.
pub fn parse_molecule(input: &[u8]) -> (r: Result<(Molecule, &[u8]), FormulaError>)
    ensures
        r is Ok <==> spec_molecule(input@, 0) is Ok,
        r is Ok ==> r.unwrap().0@ == spec_molecule(input@, 0).unwrap().0 && r.unwrap().1@
            == input@.skip(spec_molecule(input@, 0).unwrap().1) && well_formed(r.unwrap().0@),
        r is Err ==> r->Err_0 == spec_molecule(input@, 0)->Err_0,
{
    proof {
        lemma_molecule_read(input@, 0);
    }
    match molecule_at(input, 0) {
        Ok((molecule, end)) => Ok((molecule, slice_subrange(input, end, input.len()))),
        Err(e) => Err(e),
    }
}

/// Reads a formula from the start of `input`: as many molecules as follow
/// one another there, possibly none. Gives them with the rest of the input,
/// which is empty where the whole input was a formula. Input that is no
/// formula to its end is no error: the molecules before the first place that
/// does not match are given, and the rest starts at that place. The one
/// failure is `NumericOverflow`, where an amount does not fit in `u32`.
pub fn parse(input: &[u8]) -> (r: Result<(Parsed, &[u8]), FormulaError>)
    ensures
        r is Ok <==> spec_molecules(input@, 0) is Ok,
        r is Ok ==> r.unwrap().0@ == spec_molecules(input@, 0).unwrap().0 && r.unwrap().1@
            == input@.skip(spec_molecules(input@, 0).unwrap().1) && all_well_formed(
            r.unwrap().0@,
        ),
        r is Err ==> r->Err_0 == FormulaError::NumericOverflow && spec_molecules(input@, 0)->Err_0
            == FormulaError::NumericOverflow,
{
    proof {
        lemma_molecules_read(input@, 0);
        lemma_molecules_overflow_only(input@, 0);
    }
    match molecules_at(input, 0) {
        Ok((molecules, end)) => Ok((Parsed { molecules }, slice_subrange(input, end, input.len()))),
        Err(e) => Err(e),
    }
}

/// A repetition of molecules fails on a number that is too large and on
/// nothing else.
pub proof fn lemma_molecules_overflow_only(s: Seq<u8>, pos: int)
    requires
        0 <= pos <= s.len(),
    ensures
        spec_molecules(s, pos) is Err ==> spec_molecules(s, pos)->Err_0
            == FormulaError::NumericOverflow,
    decreases s.len() - pos,
{
    lemma_molecule_read(s, pos);
    if let Ok((m, next)) = spec_molecule(s, pos) {
        lemma_molecules_overflow_only(s, next);
    }
}

} // verus!
