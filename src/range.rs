//! Address ranges and the ordered search for the one that holds an address.
use vstd::prelude::*;

verus! {

/// A closed interval `[start, end]` of addresses attributed to one location.
#[derive(Debug, Clone)]
pub struct IpRange {
    pub start: u32,
    pub end: u32,
    pub country: String,
    pub region: String,
    pub city: String,
}

/// What an `IpRange` holds, as plain values.
pub struct RangeView {
    pub start: u32,
    pub end: u32,
    pub country: Seq<char>,
    pub region: Seq<char>,
    pub city: Seq<char>,
}

impl View for IpRange {
    type V = RangeView;

    open spec fn view(&self) -> RangeView {
        RangeView {
            start: self.start,
            end: self.end,
            country: self.country@,
            region: self.region@,
            city: self.city@,
        }
    }
}

/// The views of a sequence of ranges.
pub open spec fn views(s: Seq<IpRange>) -> Seq<RangeView> {
    s.map_values(|r: IpRange| r@)
}

pub open spec fn opt_view(r: Option<IpRange>) -> Option<RangeView> {
    match r {
        Some(x) => Some(x@),
        None => None,
    }
}

/// The range holds the address.
pub open spec fn covers(r: RangeView, ip: u32) -> bool {
    r.start <= ip && ip <= r.end
}

/// Each range is a proper interval and each ends before the next one starts:
/// the ranges are sorted by start and do not overlap.
pub open spec fn sorted_disjoint(t: Seq<RangeView>) -> bool {
    &&& forall|i: int| 0 <= i < t.len() ==> #[trigger] t[i].start <= t[i].end
    &&& forall|i: int, j: int| 0 <= i < j < t.len() ==> #[trigger] t[i].end < #[trigger] t[j].start
}

/// Some range of the table holds the address.
pub open spec fn is_covered(t: Seq<RangeView>, ip: u32) -> bool {
    exists|i: int| 0 <= i < t.len() && covers(#[trigger] t[i], ip)
}

/// Whatever was found is a range of the table that holds the address.
pub open spec fn found_in(t: Seq<RangeView>, r: Option<RangeView>, ip: u32) -> bool {
    match r {
        Some(x) => exists|i: int| 0 <= i < t.len() && t[i] == x && covers(x, ip),
        None => true,
    }
}

/// The range of the table that holds the address, if one does.
pub open spec fn locate(t: Seq<RangeView>, ip: u32) -> Option<RangeView> {
    if is_covered(t, ip) {
        Some(t[choose|i: int| 0 <= i < t.len() && covers(#[trigger] t[i], ip)])
    } else {
        None
    }
}

impl IpRange {
    pub fn new(start: u32, end: u32, country: String, region: String, city: String) -> (r: IpRange)
        ensures
            r@ == (RangeView { start, end, country: country@, region: region@, city: city@ }),
    {
        IpRange { start, end, country, region, city }
    }

    /// An independent copy of the range.
    pub fn copied(&self) -> (r: IpRange)
        ensures
            r@ == self@,
    {
        IpRange {
            start: self.start,
            end: self.end,
            country: self.country.clone(),
            region: self.region.clone(),
            city: self.city.clone(),
        }
    }
}

/// In a sorted table at most one range holds an address.
pub proof fn lemma_cover_unique(t: Seq<RangeView>, ip: u32, i: int, j: int)
    requires
        sorted_disjoint(t),
        0 <= i < t.len(),
        0 <= j < t.len(),
        covers(t[i], ip),
        covers(t[j], ip),
    ensures
        i == j,
{
    if i < j {
        assert(t[i].end < t[j].start);
    } else if j < i {
        assert(t[j].end < t[i].start);
    }
}

/// Each address of each range of a sorted table is located in that range.
pub proof fn lemma_containment(t: Seq<RangeView>, i: int, ip: u32)
    requires
        sorted_disjoint(t),
        0 <= i < t.len(),
        t[i].start <= ip <= t[i].end,
    ensures
        locate(t, ip) == Some(t[i]),
{
    assert(covers(t[i], ip));
    let j = choose|j: int| 0 <= j < t.len() && covers(#[trigger] t[j], ip);
    lemma_cover_unique(t, ip, i, j);
}

/// A range's own bounds are located in it; the addresses just outside it are not.
pub proof fn lemma_boundaries(t: Seq<RangeView>, i: int)
    requires
        sorted_disjoint(t),
        0 <= i < t.len(),
    ensures
        locate(t, t[i].start) == Some(t[i]),
        locate(t, t[i].end) == Some(t[i]),
        t[i].start > 0 ==> locate(t, (t[i].start - 1) as u32) != Some(t[i]),
        t[i].end < u32::MAX ==> locate(t, (t[i].end + 1) as u32) != Some(t[i]),
{
    lemma_containment(t, i, t[i].start);
    lemma_containment(t, i, t[i].end);
    if t[i].start > 0 {
        lemma_not_located_outside(t, i, (t[i].start - 1) as u32);
    }
    if t[i].end < u32::MAX {
        lemma_not_located_outside(t, i, (t[i].end + 1) as u32);
    }
}

proof fn lemma_not_located_outside(t: Seq<RangeView>, i: int, ip: u32)
    requires
        sorted_disjoint(t),
        0 <= i < t.len(),
        !covers(t[i], ip),
    ensures
        locate(t, ip) != Some(t[i]),
{
    if is_covered(t, ip) {
        let j = choose|j: int| 0 <= j < t.len() && covers(#[trigger] t[j], ip);
        assert(covers(t[j], ip));
    }
}

/// An address in the gap between two neighbouring ranges is in no range.
pub proof fn lemma_gap(t: Seq<RangeView>, i: int, ip: u32)
    requires
        sorted_disjoint(t),
        0 <= i < t.len() - 1,
        t[i].end < ip < t[i + 1].start,
    ensures
        locate(t, ip) is None,
{
    if is_covered(t, ip) {
        let j = choose|j: int| 0 <= j < t.len() && covers(#[trigger] t[j], ip);
        if j < i {
            assert(t[j].end < t[i].start);
        } else if j > i + 1 {
            assert(t[i + 1].end < t[j].start);
        }
    }
}

/// No address is located in an empty table.
pub proof fn lemma_empty_table(ip: u32)
    ensures
        locate(Seq::<RangeView>::empty(), ip) is None,
{
}

/// Searches the ranges for the one that holds `ip`, halving the part still in
/// question at each step, and returns a copy of it.
/// Whatever is found holds `ip`; on a sorted table the result is exactly
/// the range that holds `ip`, or none where no range does.
pub fn find_ip_range(ip: u32, ranges: &[IpRange]) -> (r: Option<IpRange>)
    ensures
        match r {
            Some(_) => found_in(views(ranges@), opt_view(r), ip),
            None => sorted_disjoint(views(ranges@)) ==> !is_covered(views(ranges@), ip),
        },
        sorted_disjoint(views(ranges@)) ==> opt_view(r) == locate(views(ranges@), ip),
{
    let ghost t = views(ranges@);
    let mut lo: usize = 0;
    let mut hi: usize = ranges.len();
    while lo < hi
        invariant
            t == views(ranges@),
            t.len() == ranges@.len(),
            lo <= hi <= ranges@.len(),
            sorted_disjoint(t) ==> forall|i: int| 0 <= i < lo ==> !covers(#[trigger] t[i], ip),
            sorted_disjoint(t) ==> forall|i: int|
                hi <= i < t.len() ==> !covers(#[trigger] t[i], ip),
        decreases hi - lo,
    {
        let mid = lo + (hi - lo) / 2;
        let range = &ranges[mid];
        assert(t[mid as int] == range@);
        if ip < range.start {
            proof {
                if sorted_disjoint(t) {
                    assert forall|i: int| mid <= i < t.len() implies !covers(#[trigger] t[i], ip) by {
                        if i > mid {
                            assert(t[mid as int].start <= t[mid as int].end);
                            assert(t[mid as int].end < t[i].start);
                        }
                    }
                }
            }
            hi = mid;
        } else if ip > range.end {
            proof {
                if sorted_disjoint(t) {
                    assert forall|i: int| 0 <= i <= mid implies !covers(#[trigger] t[i], ip) by {
                        if i < mid {
                            assert(t[i].start <= t[i].end);
                            assert(t[i].end < t[mid as int].start);
                        }
                    }
                }
            }
            lo = mid + 1;
        } else {
            let found = range.copied();
            proof {
                assert(t[mid as int] == found@);
                if sorted_disjoint(t) {
                    lemma_containment(t, mid as int, ip);
                }
            }
            return Some(found);
        }
    }
    None
}

} // verus!
