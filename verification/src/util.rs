use crate::bits::{lemma_table_finite, raised_cells};
use vstd::prelude::*;
use vstd::set_lib::*;

verus! {

/// The flagged cells of a table that lie before row `i`, or in row `i`
/// before column `j`.
pub open spec fn raised_before(t: Seq<Vec<bool>>, i: int, j: int) -> Set<(int, int)> {
    Set::new(
        |c: (int, int)|
            0 <= c.0 < t.len() && 0 <= c.1 < t[c.0].len() && t[c.0][c.1] && (c.0 < i || (c.0 == i
                && c.1 < j)),
    )
}

/// The number of members that the sets of a table hold together: the number
/// of its flags that are set.
pub fn calc_set_map_len(set_map: &Vec<Vec<bool>>) -> (size: usize)
    requires
        raised_cells(set_map@).len() <= usize::MAX,
    ensures
        size == raised_cells(set_map@).len(),
{
    match checked_set_map_len(set_map) {
        Some(size) => size,
        None => 0,
    }
}

/// The number of flags of a table that are set, unless it is too large to
/// be told.
pub fn checked_set_map_len(set_map: &Vec<Vec<bool>>) -> (r: Option<usize>)
    ensures
        match r {
            Some(size) => size == raised_cells(set_map@).len(),
            None => raised_cells(set_map@).len() > usize::MAX,
        },
{
    let mut size: usize = 0;
    let mut i: usize = 0;
    proof {
        lemma_table_finite(set_map@);
        assert(raised_before(set_map@, 0, 0) =~= Set::empty());
    }
    while i < set_map.len()
        invariant
            i <= set_map.len(),
            raised_cells(set_map@).finite(),
            size == raised_before(set_map@, i as int, 0).len(),
        decreases set_map.len() - i,
    {
        let row = &set_map[i];
        let mut j: usize = 0;
        while j < row.len()
            invariant
                i < set_map.len(),
                row == set_map@[i as int],
                j <= row.len(),
                raised_cells(set_map@).finite(),
                size == raised_before(set_map@, i as int, j as int).len(),
            decreases row.len() - j,
        {
            let ghost seen = raised_before(set_map@, i as int, j as int);
            let ghost next = raised_before(set_map@, i as int, j + 1);
            proof {
                lemma_len_subset(seen, raised_cells(set_map@));
                lemma_len_subset(next, raised_cells(set_map@));
            }
            if row[j] {
                proof {
                    assert(next =~= seen.insert((i as int, j as int)));
                }
                if size == usize::MAX {
                    return None;
                }
                size += 1;
            } else {
                proof {
                    assert(next =~= seen);
                }
            }
            j += 1;
        }
        proof {
            assert(raised_before(set_map@, i as int, j as int) =~= raised_before(
                set_map@,
                i + 1,
                0,
            ));
        }
        i += 1;
    }
    proof {
        assert(raised_before(set_map@, i as int, 0) =~= raised_cells(set_map@));
    }
    Some(size)
}

} // verus!
