//! Corrections of the game's data that the preset may ask for.

use crate::parties::{affinity_table, same_but_affinities, same_untouched, stat_value, Affinities, Stat};
use crate::structs::DigivolutionData;
use vstd::prelude::*;

verus! {

/// The records differ at most in their affinity tables.
pub open spec fn same_but_offsets(a: DigivolutionData, b: DigivolutionData) -> bool {
    &&& same_untouched(a, b)
    &&& a.digimon_id == b.digimon_id
    &&& forall|st: Stat| stat_value(a, st) == stat_value(b, st)
    &&& a.tech == b.tech
    &&& a.ori_tech == b.ori_tech
    &&& a.exp_modifier == b.exp_modifier
    &&& a.hp_modifier == b.hp_modifier
    &&& a.mp_modifier == b.mp_modifier
}

/// Lowers every entry of the chosen affinity table of every record by one.
fn lower_affinities(records: &mut Vec<DigivolutionData>, which: Affinities)
    requires
        forall|r: int, k: int|
            0 <= r < old(records).len() && 0 <= k < affinity_table(old(records)@[r], which).len()
                ==> #[trigger] affinity_table(old(records)@[r], which)[k] >= 1,
    ensures
        final(records).len() == old(records).len(),
        forall|r: int| 0 <= r < old(records).len() ==> {
            &&& same_but_affinities(#[trigger] old(records)@[r], final(records)@[r], which)
            &&& affinity_table(final(records)@[r], which) == affinity_table(old(records)@[r], which).map_values(
                |x: u8| (x - 1) as u8,
            )
        },
{
    let mut r: usize = 0;
    while r < records.len()
        invariant
            r <= records.len() == old(records).len(),
            forall|q: int, k: int|
                0 <= q < old(records).len() && 0 <= k < affinity_table(old(records)@[q], which).len()
                    ==> #[trigger] affinity_table(old(records)@[q], which)[k] >= 1,
            forall|q: int| 0 <= q < r ==> {
                &&& same_but_affinities(#[trigger] old(records)@[q], records@[q], which)
                &&& affinity_table(records@[q], which) == affinity_table(old(records)@[q], which).map_values(
                    |x: u8| (x - 1) as u8,
                )
            },
            forall|q: int| r <= q < records.len() ==> #[trigger] records@[q] == old(records)@[q],
        decreases records.len() - r,
    {
        let ghost before = records@;
        let ghost table = affinity_table(before[r as int], which);
        let d = &mut records[r];
        let len = match which {
            Affinities::Stats => d.stat_offsets.len(),
            Affinities::Resistances => d.res_offsets.len(),
        };
        let mut k: usize = 0;
        while k < len
            invariant
                r < before.len(),
                table == affinity_table(before[r as int], which),
                forall|j: int| 0 <= j < table.len() ==> #[trigger] table[j] >= 1,
                len == table.len() == affinity_table(*d, which).len(),
                k <= len,
                same_but_affinities(before[r as int], *d, which),
                forall|j: int| 0 <= j < k ==> #[trigger] affinity_table(*d, which)[j] == table[j] - 1,
                forall|j: int| k <= j < len ==> #[trigger] affinity_table(*d, which)[j] == table[j],
            decreases len - k,
        {
            match which {
                Affinities::Stats => {
                    let v = d.stat_offsets[k];
                    d.stat_offsets.set(k, v - 1);
                },
                Affinities::Resistances => {
                    let v = d.res_offsets[k];
                    d.res_offsets.set(k, v - 1);
                },
            }
            k += 1;
        }
        proof {
            assert(affinity_table(*d, which) =~= table.map_values(|x: u8| (x - 1) as u8));
            assert forall|q: int| 0 <= q < r + 1 implies {
                &&& same_but_affinities(#[trigger] old(records)@[q], records@[q], which)
                &&& affinity_table(records@[q], which) == affinity_table(old(records)@[q], which).map_values(
                    |x: u8| (x - 1) as u8,
                )
            } by {
                if q < r {
                    assert(records@[q] == before[q]);
                }
            }
        }
        r += 1;
    }
}

/// Lowers every stat and resistance affinity of every record by one, so
/// that the affinities count from zero as the game's scaling reads them.
pub fn scaling(records: &mut Vec<DigivolutionData>)
    requires
        forall|r: int, k: int|
            0 <= r < old(records).len() && 0 <= k < old(records)@[r].stat_offsets.len()
                ==> #[trigger] old(records)@[r].stat_offsets@[k] >= 1,
        forall|r: int, k: int|
            0 <= r < old(records).len() && 0 <= k < old(records)@[r].res_offsets.len()
                ==> #[trigger] old(records)@[r].res_offsets@[k] >= 1,
    ensures
        final(records).len() == old(records).len(),
        forall|r: int| 0 <= r < old(records).len() ==> {
            &&& same_but_offsets(#[trigger] old(records)@[r], final(records)@[r])
            &&& final(records)@[r].stat_offsets@ == old(records)@[r].stat_offsets@.map_values(|x: u8| (x - 1) as u8)
            &&& final(records)@[r].res_offsets@ == old(records)@[r].res_offsets@.map_values(|x: u8| (x - 1) as u8)
        },
{
    proof {
        assert forall|r: int, k: int|
            0 <= r < old(records).len() && 0 <= k < affinity_table(old(records)@[r], Affinities::Stats).len()
                implies #[trigger] affinity_table(old(records)@[r], Affinities::Stats)[k] >= 1 by {
            assert(old(records)@[r].stat_offsets@[k] >= 1);
        }
    }
    lower_affinities(records, Affinities::Stats);
    let ghost mid = records@;
    proof {
        assert forall|r: int, k: int|
            0 <= r < mid.len() && 0 <= k < affinity_table(mid[r], Affinities::Resistances).len()
                implies #[trigger] affinity_table(mid[r], Affinities::Resistances)[k] >= 1 by {
            assert(same_but_affinities(old(records)@[r], mid[r], Affinities::Stats));
            assert(old(records)@[r].res_offsets@[k] >= 1);
        }
    }
    lower_affinities(records, Affinities::Resistances);
    proof {
        assert forall|r: int| 0 <= r < old(records).len() implies {
            &&& same_but_offsets(#[trigger] old(records)@[r], records@[r])
            &&& records@[r].stat_offsets@ == old(records)@[r].stat_offsets@.map_values(|x: u8| (x - 1) as u8)
            &&& records@[r].res_offsets@ == old(records)@[r].res_offsets@.map_values(|x: u8| (x - 1) as u8)
        } by {
            assert(same_but_affinities(old(records)@[r], mid[r], Affinities::Stats));
            assert(same_but_affinities(mid[r], records@[r], Affinities::Resistances));
            assert(affinity_table(mid[r], Affinities::Stats) == affinity_table(old(records)@[r], Affinities::Stats).map_values(|x: u8| (x - 1) as u8));
            assert(affinity_table(records@[r], Affinities::Resistances) == affinity_table(mid[r], Affinities::Resistances).map_values(|x: u8| (x - 1) as u8));
        }
    }
}

} // verus!
