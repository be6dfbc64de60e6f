use vstd::prelude::*;

verus! {

/// A type with a total order, given by an injective rank into the integers.
pub trait Ranked: Copy + Sized {
    spec fn rank(self) -> int;

    proof fn lemma_rank_injective(a: Self, b: Self)
        ensures
            a.rank() == b.rank() <==> a == b,
    ;

    fn less(&self, other: &Self) -> (r: bool)
        ensures
            r == (self.rank() < other.rank()),
    ;

    fn same(&self, other: &Self) -> (r: bool)
        ensures
            r == (*self == *other),
    ;
}

/// Equal ranks mean equal values.
pub proof fn lemma_ranks_injective<T: Ranked>()
    ensures
        forall|a: T, b: T| #[trigger] a.rank() == #[trigger] b.rank() ==> a == b,
{
    assert forall|a: T, b: T| #[trigger] a.rank() == #[trigger] b.rank() implies a == b by {
        T::lemma_rank_injective(a, b);
    }
}

pub open spec fn two_pow_64() -> int {
    0x1_0000_0000_0000_0000
}

/// The identity of a patch; `cur` stands for the patch being built.
#[derive(Clone, Copy, Debug, PartialEq, Eq, Structural, PartialOrd, Ord, Hash)]
pub struct PatchId(pub u64);

impl PatchId {
    pub fn cur() -> (r: PatchId)
        ensures
            r.0 == 0,
    {
        PatchId(0)
    }
}

/// A line of some patch: ordered by patch, then by line.
#[derive(Clone, Copy, Debug, PartialEq, Eq, Structural, PartialOrd, Ord, Hash)]
pub struct LineId {
    pub patch: PatchId,
    pub line: u64,
}

impl Ranked for LineId {
    open spec fn rank(self) -> int {
        self.patch.0 as int * two_pow_64() + self.line as int
    }

    proof fn lemma_rank_injective(a: Self, b: Self) {
        let (pa, la, pb, lb) = (a.patch.0 as int, a.line as int, b.patch.0 as int, b.line as int);
        if pa < pb {
            assert(pa * 0x1_0000_0000_0000_0000int + la < pb * 0x1_0000_0000_0000_0000int + lb) by (nonlinear_arith)
                requires pa < pb, 0 <= la < 0x1_0000_0000_0000_0000int, 0 <= lb;
        } else if pb < pa {
            assert(pb * 0x1_0000_0000_0000_0000int + lb < pa * 0x1_0000_0000_0000_0000int + la) by (nonlinear_arith)
                requires pb < pa, 0 <= lb < 0x1_0000_0000_0000_0000int, 0 <= la;
        }
    }

    fn less(&self, other: &Self) -> (r: bool) {
        proof {
            let (pa, la, pb, lb) = (self.patch.0 as int, self.line as int, other.patch.0 as int, other.line as int);
            if pa < pb {
                assert(pa * 0x1_0000_0000_0000_0000int + la < pb * 0x1_0000_0000_0000_0000int + lb) by (nonlinear_arith)
                    requires pa < pb, 0 <= la < 0x1_0000_0000_0000_0000int, 0 <= lb;
            } else if pb < pa {
                assert(pb * 0x1_0000_0000_0000_0000int + lb < pa * 0x1_0000_0000_0000_0000int + la) by (nonlinear_arith)
                    requires pb < pa, 0 <= lb < 0x1_0000_0000_0000_0000int, 0 <= la;
            }
        }
        self.patch.0 < other.patch.0 || (self.patch.0 == other.patch.0 && self.line < other.line)
    }

    fn same(&self, other: &Self) -> (r: bool) {
        *self == *other
    }
}

impl Ranked for u64 {
    open spec fn rank(self) -> int {
        self as int
    }

    proof fn lemma_rank_injective(a: Self, b: Self) {
    }

    fn less(&self, other: &Self) -> (r: bool) {
        *self < *other
    }

    fn same(&self, other: &Self) -> (r: bool) {
        *self == *other
    }
}

impl Ranked for i32 {
    open spec fn rank(self) -> int {
        self as int
    }

    proof fn lemma_rank_injective(a: Self, b: Self) {
    }

    fn less(&self, other: &Self) -> (r: bool) {
        *self < *other
    }

    fn same(&self, other: &Self) -> (r: bool) {
        *self == *other
    }
}

} // verus!

verus! {

/// The one value stored beside each element of a set kept as a map.
#[derive(Clone, Copy, Debug, PartialEq, Eq, Structural, PartialOrd, Ord, Hash)]
pub struct Present;

impl Ranked for Present {
    open spec fn rank(self) -> int {
        0
    }

    proof fn lemma_rank_injective(a: Self, b: Self) {
    }

    fn less(&self, other: &Self) -> (r: bool) {
        false
    }

    fn same(&self, other: &Self) -> (r: bool) {
        true
    }
}

} // verus!
