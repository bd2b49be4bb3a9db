//! The two numeral systems and the ladder of magnitudes.

use vstd::prelude::*;

verus! {

/// The base by which one magnitude is scaled to the next.
#[derive(Clone, Copy, Debug, PartialEq, Eq, Structural)]
pub enum System {
    /// Powers of 1024, written with an `i` in the unit ("KiB").
    Binary,
    /// Powers of 1000 ("KB").
    Decimal,
}

impl System {
    /// The base of the system.
    pub open spec fn base(self) -> nat {
        match self {
            System::Binary => 1024,
            System::Decimal => 1000,
        }
    }

    /// What stands between the prefix and the final `B` of a unit.
    pub open spec fn infix(self) -> Seq<char> {
        match self {
            System::Binary => seq!['i'],
            System::Decimal => Seq::empty(),
        }
    }

    /// The base of the system as a machine integer.
    pub fn base_value(self) -> (out: u64)
        ensures
            out == self.base(),
    {
        match self {
            System::Binary => 1024,
            System::Decimal => 1000,
        }
    }

    /// The infix of the system as text.
    pub fn infix_str(self) -> (out: &'static str)
        ensures
            out@ == self.infix(),
    {
        match self {
            System::Binary => {
                proof {
                    reveal_strlit("i");
                    assert("i"@ =~= seq!['i']);
                }
                "i"
            },
            System::Decimal => {
                proof {
                    reveal_strlit("");
                    assert(""@ =~= Seq::<char>::empty());
                }
                ""
            },
        }
    }
}

/// The prefix letters, in ascending order of magnitude. The letter of a
/// magnitude stands at its rank less one.
pub open spec fn magnitude_prefixes() -> Seq<char> {
    seq!['K', 'M', 'G', 'T', 'P', 'E']
}

/// How many times the base is multiplied by itself. The ranks run from 1
/// (kilo) to 6 (exa) without a gap; the sixth power of either base is the
/// last that a `u64` holds.
#[derive(Clone, Copy, Debug, PartialEq, Eq, Structural)]
pub enum Magnitude {
    Kilo,
    Mega,
    Giga,
    Tera,
    Peta,
    Exa,
}

impl Magnitude {
    /// The exponent of the base: 1 for kilo, up to 6 for exa.
    pub open spec fn rank(self) -> nat {
        match self {
            Magnitude::Kilo => 1,
            Magnitude::Mega => 2,
            Magnitude::Giga => 3,
            Magnitude::Tera => 4,
            Magnitude::Peta => 5,
            Magnitude::Exa => 6,
        }
    }

    /// The prefix letter of the magnitude.
    pub open spec fn prefix(self) -> char {
        magnitude_prefixes()[self.rank() - 1]
    }

    /// The magnitude that follows this one, if there is one.
    pub open spec fn successor(self) -> Option<Magnitude> {
        match self {
            Magnitude::Kilo => Some(Magnitude::Mega),
            Magnitude::Mega => Some(Magnitude::Giga),
            Magnitude::Giga => Some(Magnitude::Tera),
            Magnitude::Tera => Some(Magnitude::Peta),
            Magnitude::Peta => Some(Magnitude::Exa),
            Magnitude::Exa => None,
        }
    }

    /// The rank as a machine integer.
    pub fn ordinal(self) -> (out: u32)
        ensures
            out == self.rank(),
            1 <= out <= 6,
    {
        match self {
            Magnitude::Kilo => 1,
            Magnitude::Mega => 2,
            Magnitude::Giga => 3,
            Magnitude::Tera => 4,
            Magnitude::Peta => 5,
            Magnitude::Exa => 6,
        }
    }

    /// The smallest magnitude.
    pub fn first() -> (out: Magnitude)
        ensures
            out == Magnitude::Kilo,
    {
        Magnitude::Kilo
    }

    /// The magnitude of the next rank; none after the largest.
    pub fn next(self) -> (out: Option<Magnitude>)
        ensures
            out == self.successor(),
            self.rank() < 6 ==> out.is_some() && out.unwrap().rank() == self.rank() + 1,
            self.rank() == 6 ==> out.is_none(),
    {
        match self {
            Magnitude::Kilo => Some(Magnitude::Mega),
            Magnitude::Mega => Some(Magnitude::Giga),
            Magnitude::Giga => Some(Magnitude::Tera),
            Magnitude::Tera => Some(Magnitude::Peta),
            Magnitude::Peta => Some(Magnitude::Exa),
            Magnitude::Exa => None,
        }
    }

    /// The prefix letter as text.
    pub fn prefix_str(self) -> (out: &'static str)
        ensures
            out@ == seq![self.prefix()],
    {
        proof {
            reveal_strlit("K");
            reveal_strlit("M");
            reveal_strlit("G");
            reveal_strlit("T");
            reveal_strlit("P");
            reveal_strlit("E");
        }
        let out = match self {
            Magnitude::Kilo => "K",
            Magnitude::Mega => "M",
            Magnitude::Giga => "G",
            Magnitude::Tera => "T",
            Magnitude::Peta => "P",
            Magnitude::Exa => "E",
        };
        assert(out@ =~= seq![self.prefix()]);
        out
    }
}

/// The ladder has six rungs and a letter for each: the ranks run from 1 to 6,
/// each magnitude but the last is followed by the one of the next rank, and
/// two magnitudes of one rank are the same magnitude.
pub proof fn lemma_ladder(a: Magnitude, b: Magnitude)
    ensures
        magnitude_prefixes().len() == 6,
        1 <= a.rank() <= 6,
        a.rank() < 6 ==> a.successor().is_some() && a.successor().unwrap().rank() == a.rank() + 1,
        a.rank() == 6 ==> a.successor().is_none(),
        a.rank() == b.rank() ==> a == b,
{
}

} // verus!
