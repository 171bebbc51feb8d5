//! The games whose archives carry an XCC name database.

use vstd::prelude::*;

verus! {

/// The game an archive or name database belongs to.
#[allow(non_camel_case_types)]
#[derive(Debug, Clone, Copy, PartialEq, Eq, Structural)]
pub enum CncGame {
    /// Tiberian Dawn
    TD,
    /// Red Alert
    RA,
    /// Tiberian Sun
    TS,
    /// Dune 2
    DUNE2,
    /// Dune 2000
    DUNE2000,
    /// Red Alert 2
    RA2,
    /// Red Alert 2: Yuri's Revenge
    RA2_YR,
    /// Renegade
    RG,
    /// Generals
    GR,
    /// Generals: Zero Hour
    GR_ZH,
    /// Emperor: Battle for Dune
    EBFD,
    /// Nox
    NOX,
    /// Battle for Middle Earth
    BFME,
    /// Battle for Middle Earth 2
    BFME2,
    /// Tiberium Wars
    TW,
    /// Tiberian Sun: Firestorm
    TS_FS,
    /// Unknown game
    UNKNOWN,
}

impl CncGame {
    /// The number that stands for the game in a name database header.
    pub open spec fn spec_id(self) -> u32 {
        match self {
            CncGame::TD => 0,
            CncGame::RA => 1,
            CncGame::TS => 2,
            CncGame::DUNE2 => 3,
            CncGame::DUNE2000 => 4,
            CncGame::RA2 => 5,
            CncGame::RA2_YR => 6,
            CncGame::RG => 7,
            CncGame::GR => 8,
            CncGame::GR_ZH => 9,
            CncGame::EBFD => 10,
            CncGame::NOX => 11,
            CncGame::BFME => 12,
            CncGame::BFME2 => 13,
            CncGame::TW => 14,
            CncGame::TS_FS => 15,
            CncGame::UNKNOWN => 16,
        }
    }

    /// The number that stands for the game in a name database header.
    #[verifier::when_used_as_spec(spec_id)]
    pub fn id(self) -> (r: u32)
        ensures
            r == self.spec_id(),
    {
        match self {
            CncGame::TD => 0,
            CncGame::RA => 1,
            CncGame::TS => 2,
            CncGame::DUNE2 => 3,
            CncGame::DUNE2000 => 4,
            CncGame::RA2 => 5,
            CncGame::RA2_YR => 6,
            CncGame::RG => 7,
            CncGame::GR => 8,
            CncGame::GR_ZH => 9,
            CncGame::EBFD => 10,
            CncGame::NOX => 11,
            CncGame::BFME => 12,
            CncGame::BFME2 => 13,
            CncGame::TW => 14,
            CncGame::TS_FS => 15,
            CncGame::UNKNOWN => 16,
        }
    }
}

impl Default for CncGame {
    fn default() -> (r: CncGame)
        ensures
            r == CncGame::RA2,
    {
        CncGame::RA2
    }
}

} // verus!
