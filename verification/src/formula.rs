//! The formula tree and its mathematical model.

use vstd::prelude::*;
use vstd::slice::slice_to_vec;

verus! {

/// One node of a formula: an element with its multiplicity, or a
/// parenthesised group of nodes with the multiplicity of the whole group.
#[derive(Debug, PartialEq, Eq)]
pub enum Molecule {
    Group(Vec<Molecule>, u32),
    Single(Vec<u8>, u32),
}

/// The top-level siblings of a formula, in the order they were written.
#[derive(Debug, PartialEq, Eq)]
pub struct Parsed {
    pub molecules: Vec<Molecule>,
}

/// Why a formula could not be read or reduced.
#[derive(Debug, Clone, Copy, PartialEq, Eq, Structural)]
pub enum FormulaError {
    /// The grammar asks for a byte that does not stand at `position`, an
    /// offset into the input that was given; the rest of the input from
    /// there on is what could not be read.
    Syntax { position: usize },
    /// A number does not fit in `u32`.
    NumericOverflow,
}

/// The model of a `Molecule`: sequences for vectors, naturals for counts.
pub enum MoleculeView {
    Group(Seq<MoleculeView>, nat),
    Single(Seq<u8>, nat),
}

/// The models of a sequence of nodes, node by node.
pub open spec fn molecules_view(ms: Seq<Molecule>) -> Seq<MoleculeView>
    decreases ms,
{
    Seq::new(ms.len(), |i: int| if 0 <= i < ms.len() { ms[i].view() } else { arbitrary() })
}

impl View for Molecule {
    type V = MoleculeView;

    open spec fn view(&self) -> MoleculeView
        decreases self,
    {
        match self {
            Molecule::Group(children, amount) => MoleculeView::Group(
                molecules_view(children@),
                *amount as nat,
            ),
            Molecule::Single(element, amount) => MoleculeView::Single(element@, *amount as nat),
        }
    }
}

/// A byte that starts an element symbol: an upper-case ASCII letter.
pub open spec fn is_upper(b: u8) -> bool {
    0x41 <= b <= 0x5a
}

/// A byte that continues an element symbol: a lower-case ASCII letter.
pub open spec fn is_lower(b: u8) -> bool {
    0x61 <= b <= 0x7a
}

/// An element symbol: one upper-case letter, then lower-case letters only.
pub open spec fn is_symbol(e: Seq<u8>) -> bool {
    &&& e.len() > 0
    &&& is_upper(e[0])
    &&& forall|i: int| 1 <= i < e.len() ==> is_lower(#[trigger] e[i])
}

/// Every symbol in the tree is an element symbol and no group is empty.
pub open spec fn well_formed(m: MoleculeView) -> bool
    decreases m,
{
    match m {
        MoleculeView::Single(e, _) => is_symbol(e),
        MoleculeView::Group(children, _) => children.len() > 0 && forall|i: int|
            0 <= i < children.len() ==> well_formed(#[trigger] children[i]),
    }
}

/// Every node of `ms` is well formed.
pub open spec fn all_well_formed(ms: Seq<MoleculeView>) -> bool {
    forall|i: int| 0 <= i < ms.len() ==> well_formed(#[trigger] ms[i])
}

impl Clone for Molecule {
    /// A copy of the whole tree below this node.
    fn clone(&self) -> (r: Self)
        ensures
            r@ == self@,
        decreases self, 0nat,
    {
        match self {
            Molecule::Single(element, amount) => Molecule::Single(
                slice_to_vec(element.as_slice()),
                *amount,
            ),
            Molecule::Group(children, amount) => Molecule::Group(copy_molecules(children), *amount),
        }
    }
}

/// A copy of each node of `molecules`, in the same order.
pub fn copy_molecules(molecules: &Vec<Molecule>) -> (r: Vec<Molecule>)
    ensures
        molecules_view(r@) == molecules_view(molecules@),
    decreases molecules, 1nat,
{
    let mut out: Vec<Molecule> = Vec::new();
    let mut i: usize = 0;
    while i < molecules.len()
        invariant
            0 <= i <= molecules.len(),
            out.len() == i,
            forall|j: int| 0 <= j < i ==> out@[j]@ == molecules@[j]@,
        decreases molecules.len() - i,
    {
        out.push(molecules[i].clone());
        i += 1;
    }
    assert(molecules_view(out@) =~= molecules_view(molecules@));
    out
}

impl Clone for Parsed {
    /// A copy of the whole formula.
    fn clone(&self) -> (r: Self)
        ensures
            r@ == self@,
    {
        Parsed { molecules: copy_molecules(&self.molecules) }
    }
}

impl View for Parsed {
    type V = Seq<MoleculeView>;

    open spec fn view(&self) -> Seq<MoleculeView> {
        molecules_view(self.molecules@)
    }
}

} // verus!
