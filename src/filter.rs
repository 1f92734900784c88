//! The titles that Steam installs beside the games and that are no games
//! themselves: compatibility layers, runtimes and redistributables.

use vstd::prelude::*;

verus! {

/// The app ids of the Steam components that are never offered as games.
pub open spec fn excluded_ids() -> Set<u32> {
    set![
        1113280u32, // Proton 4.11
        1420170u32, // Proton 5.13
        1580130u32, // Proton 6.3
        1887720u32, // Proton 7.0
        2348590u32, // Proton 8.0
        2805730u32, // Proton 9.0
        3658110u32, // Proton 10.0
        1826330u32, // Proton EasyAntiCheat Runtime
        1493710u32, // Proton Experimental
        2180100u32, // Proton Hotfix
        1070560u32, // Steam Linux Runtime 1.0 (scout)
        1391110u32, // Steam Linux Runtime 2.0 (soldier)
        1628350u32, // Steam Linux Runtime 3.0 (sniper)
        228980u32, // Steamworks Common Redistributables
    ]
}

/// Whether the app with this id is left out of the index.
pub open spec fn is_excluded(id: u32) -> bool {
    excluded_ids().contains(id)
}

/// Whether the app with id `id` is a non-game component to leave out.
/// Unknown ids are never filtered.
pub fn should_filter(id: u32) -> (r: bool)
    ensures
        r == is_excluded(id),
{
    match id {
        1113280 | 1420170 | 1580130 | 1887720 | 2348590 | 2805730 | 3658110 | 1826330
        | 1493710 | 2180100 | 1070560 | 1391110 | 1628350 | 228980 => true,
        _ => false,
    }
}

} // verus!
