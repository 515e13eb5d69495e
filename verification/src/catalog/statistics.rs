//! Column statistics.

use vstd::prelude::*;

use crate::data::Data;

verus! {

/// How often values occur, point by point.
#[derive(Debug)]
pub struct HistogramStat {
    /// Each value with the number of rows that hold it.
    pub frequency_points: Vec<(Data, u64)>,
}

/// The least and the greatest value of a column.
#[derive(Debug)]
pub struct RangeStat {
    pub lower_bound: Data,
    pub upper_bound: Data,
}

/// One statistic of a column.
#[derive(Debug)]
pub enum ColumnStat {
    HistogramStat(HistogramStat),
    /// The number of distinct values.
    CardinalityStat(u64),
    /// The number of distinct values per row, as the bits of a 32-bit float.
    DensityStat(u32),
    RangeStat(RangeStat),
    /// The rows stand on disk in ascending order of the column.
    IsPhysicallyOrdered,
}

/// Whether one of the statistics says that the column is physically ordered.
pub open spec fn ordered_on_disk(stats: Option<Vec<ColumnStat>>) -> bool {
    stats matches Some(list) && exists|i: int|
        0 <= i < list@.len() && (#[trigger] list@[i]) is IsPhysicallyOrdered
}

/// Whether one of the statistics says that the column is physically ordered.
pub fn is_physically_ordered(stats: &Option<Vec<ColumnStat>>) -> (r: bool)
    ensures
        r == ordered_on_disk(*stats),
        r <==> (stats matches Some(list) && !(forall|i: int|
            0 <= i < list@.len() ==> {
                ||| (#[trigger] list@[i]) is HistogramStat
                ||| list@[i] is CardinalityStat
                ||| list@[i] is DensityStat
                ||| list@[i] is RangeStat
            })),
{
    match stats {
        None => false,
        Some(list) => {
            let mut i: usize = 0;
            while i < list.len()
                invariant
                    i <= list@.len(),
                    stats matches Some(l) && l@ == list@,
                    forall|j: int|
                        0 <= j < i ==> !((#[trigger] list@[j]) is IsPhysicallyOrdered),
                decreases list@.len() - i,
            {
                match &list[i] {
                    ColumnStat::IsPhysicallyOrdered => {
                        assert(list@[i as int] is IsPhysicallyOrdered);
                        return true;
                    },
                    _ => {},
                }
                i = i + 1;
            }
            false
        },
    }
}

} // verus!
