//! Building the range table from the rows of a comma-separated data set, and
//! looking addresses up in it.
use vstd::prelude::*;
use crate::address::{dotted_of, ip_string_to_decimal, ip_to_decimal, lemma_dotted_round_trip, pack, LookupError};
use crate::digits::{bound_value, parse_u32};
use crate::range::{find_ip_range, found_in, locate, opt_view, sorted_disjoint, views, IpRange, RangeView};
use std::path::PathBuf;

verus! {

/// `csv::Error`, held opaquely: the reader's error only tells that the data
/// could not be read as records.
#[verifier::external_type_specification]
#[verifier::external_body]
pub struct ExCsvError(csv::Error);

/// `std::path::PathBuf`, held opaquely as the name of a data set.
#[verifier::external_type_specification]
#[verifier::external_body]
pub struct ExPathBuf(std::path::PathBuf);

/// The records that the `csv` reader finds in the bytes, each as its fields,
/// or `None` where it reports an error.
pub uninterp spec fn csv_records(data: Seq<u8>) -> Option<Seq<Seq<Seq<char>>>>;

/// The fields of each row, as plain text.
pub open spec fn rows_view(rows: Seq<Vec<String>>) -> Seq<Seq<Seq<char>>> {
    rows.map_values(|row: Vec<String>| row@.map_values(|f: String| f@))
}

/// Relies on `csv::Reader::from_reader` and its `records` iterator, with the
/// reader's default settings (the first record is a header and is skipped;
/// records of unequal length, or not UTF-8, are errors): what it reads
/// depends on the bytes alone.
#[verifier::external_body]
fn read_csv_records(data: &[u8]) -> (r: Result<Vec<Vec<String>>, csv::Error>)
    ensures
        match r {
            Ok(rows) => csv_records(data@) == Some(rows_view(rows@)),
            Err(_) => csv_records(data@) is None,
        },
{
    csv::Reader::from_reader(data).records().map(
        |rec| rec.map(|fields| fields.iter().map(String::from).collect()),
    ).collect()
}

/// The rows of a comma-separated data set, after its header row.
pub fn read_rows(data: &[u8]) -> (r: Result<Vec<Vec<String>>, LookupError>)
    ensures
        match r {
            Ok(rows) => csv_records(data@) == Some(rows_view(rows@)),
            Err(e) => e == LookupError::Data && csv_records(data@) is None,
        },
{
    match read_csv_records(data) {
        Ok(rows) => Ok(rows),
        Err(_) => Err(LookupError::Data),
    }
}

/// The range a row describes: its start and end in the first two fields,
/// then the country; the fourth field is not used; region and city follow.
pub open spec fn row_range(row: Seq<Seq<char>>) -> Option<RangeView> {
    if row.len() >= 6 && bound_value(row[0]) is Some && bound_value(row[1]) is Some {
        Some(
            RangeView {
                start: bound_value(row[0])->0,
                end: bound_value(row[1])->0,
                country: row[2],
                region: row[4],
                city: row[5],
            },
        )
    } else {
        None
    }
}

/// The filter lets the country through: there is no filter, the filter is
/// empty (and so ignored), or it names the country.
pub open spec fn allows(filter: Option<Seq<Seq<char>>>, country: Seq<char>) -> bool {
    match filter {
        Some(f) => f.len() == 0 || f.contains(country),
        None => true,
    }
}

/// The ranges of the rows that the filter lets through, in the rows' order.
pub open spec fn kept_ranges(rows: Seq<Seq<Seq<char>>>, filter: Option<Seq<Seq<char>>>) -> Seq<
    RangeView,
>
    decreases rows.len(),
{
    if rows.len() == 0 {
        Seq::empty()
    } else {
        let t = kept_ranges(rows.drop_last(), filter);
        match row_range(rows.last()) {
            Some(r) => if allows(filter, r.country) {
                t.push(r)
            } else {
                t
            },
            None => t,
        }
    }
}

/// Every row describes a range, and those kept form a sorted table.
pub open spec fn table_ok(rows: Seq<Seq<Seq<char>>>, filter: Option<Seq<Seq<char>>>) -> bool {
    &&& forall|i: int| 0 <= i < rows.len() ==> #[trigger] row_range(rows[i]) is Some
    &&& sorted_disjoint(kept_ranges(rows, filter))
}

pub open spec fn filter_view(countries: Option<&Vec<String>>) -> Option<Seq<Seq<char>>> {
    match countries {
        Some(c) => Some(c@.map_values(|s: String| s@)),
        None => None,
    }
}

proof fn lemma_kept_prefix(rows: Seq<Seq<Seq<char>>>, filter: Option<Seq<Seq<char>>>, k: int)
    requires
        0 <= k <= rows.len(),
    ensures
        kept_ranges(rows.take(k), filter).len() <= kept_ranges(rows, filter).len(),
        kept_ranges(rows.take(k), filter) =~= kept_ranges(rows, filter).take(
            kept_ranges(rows.take(k), filter).len() as int,
        ),
    decreases rows.len(),
{
    if k < rows.len() {
        lemma_kept_prefix(rows.drop_last(), filter, k);
        assert(rows.drop_last().take(k) =~= rows.take(k));
    } else {
        assert(rows.take(k) =~= rows);
    }
}

proof fn lemma_sorted_prefix(t: Seq<RangeView>, m: int)
    requires
        sorted_disjoint(t),
        0 <= m <= t.len(),
    ensures
        sorted_disjoint(t.take(m)),
{
    let p = t.take(m);
    assert forall|i: int| 0 <= i < p.len() implies #[trigger] p[i].start <= p[i].end by {
        assert(p[i] == t[i]);
    }
    assert forall|i: int, j: int| 0 <= i < j < p.len() implies #[trigger] p[i].end < #[trigger] p[j].start by {
        assert(p[i] == t[i]);
        assert(p[j] == t[j]);
    }
}

/// Whether `c` is among the countries.
fn names_country(countries: &Vec<String>, c: &String) -> (r: bool)
    ensures
        r == countries@.map_values(|s: String| s@).contains(c@),
{
    let ghost names = countries@.map_values(|s: String| s@);
    let mut i: usize = 0;
    while i < countries.len()
        invariant
            i <= countries@.len(),
            names == countries@.map_values(|s: String| s@),
            forall|j: int| 0 <= j < i ==> names[j] != c@,
        decreases countries@.len() - i,
    {
        if countries[i] == *c {
            assert(names[i as int] == c@);
            return true;
        }
        i += 1;
    }
    false
}

/// Builds the range table from the rows, keeping those whose country the filter
/// allows. Fails with `Data` where a row does not describe a range, or where the
/// kept ranges are not sorted and disjoint.
pub fn build_table(rows: &Vec<Vec<String>>, countries: Option<&Vec<String>>) -> (r: Result<
    Vec<IpRange>,
    LookupError,
>)
    ensures
        match r {
            Ok(t) => table_ok(rows_view(rows@), filter_view(countries)) && views(t@) == kept_ranges(
                rows_view(rows@),
                filter_view(countries),
            ),
            Err(e) => e == LookupError::Data && !table_ok(rows_view(rows@), filter_view(countries)),
        },
{
    let ghost rv = rows_view(rows@);
    let ghost f = filter_view(countries);
    let mut out: Vec<IpRange> = Vec::new();
    let mut i: usize = 0;
    while i < rows.len()
        invariant
            i <= rows@.len(),
            rv == rows_view(rows@),
            rv.len() == rows@.len(),
            f == filter_view(countries),
            forall|j: int| 0 <= j < i ==> #[trigger] row_range(rv[j]) is Some,
            views(out@) == kept_ranges(rv.take(i as int), f),
            sorted_disjoint(views(out@)),
        decreases rows@.len() - i,
    {
        let row = &rows[i];
        let ghost fields = rv[i as int];
        assert(fields == row@.map_values(|s: String| s@));
        assert(rv.take(i + 1).drop_last() =~= rv.take(i as int));
        assert(rv.take(i + 1).last() == fields);
        if row.len() < 6 {
            assert(row_range(rv[i as int]) is None);
            return Err(LookupError::Data);
        }
        let start = match parse_u32(row[0].as_str()) {
            Some(v) => v,
            None => {
                assert(row_range(rv[i as int]) is None);
                return Err(LookupError::Data);
            },
        };
        let end = match parse_u32(row[1].as_str()) {
            Some(v) => v,
            None => {
                assert(row_range(rv[i as int]) is None);
                return Err(LookupError::Data);
            },
        };
        let range = IpRange::new(start, end, row[2].clone(), row[4].clone(), row[5].clone());
        assert(row_range(fields) == Some(range@));
        let keep = match countries {
            Some(c) => c.len() == 0 || names_country(c, &range.country),
            None => true,
        };
        if keep {
            let n = out.len();
            if start > end || (n > 0 && out[n - 1].end >= start) {
                proof {
                    let k = kept_ranges(rv.take(i + 1), f);
                    assert(allows(f, range@.country));
                    assert(k =~= views(out@).push(range@));
                    assert(k[n as int] == range@);
                    if start > end {
                        assert(k[n as int].start > k[n as int].end);
                    } else {
                        assert(k[n - 1] == out@[n - 1]@);
                        assert(k[n - 1].end >= k[n as int].start);
                    }
                    assert(!sorted_disjoint(k));
                    lemma_kept_prefix(rv, f, i + 1);
                    assert(rv.take(rv.len() as int) =~= rv);
                    if sorted_disjoint(kept_ranges(rv, f)) {
                        lemma_sorted_prefix(kept_ranges(rv, f), k.len() as int);
                    }
                }
                return Err(LookupError::Data);
            }
            let ghost before = views(out@);
            out.push(range);
            proof {
                assert(views(out@) =~= before.push(range@));
                let t = views(out@);
                assert forall|a: int, b: int| 0 <= a < b < t.len() implies #[trigger] t[a].end < #[trigger] t[b].start by {
                    if b == t.len() - 1 && a < b - 1 {
                        assert(t[a].end < t[b - 1].start);
                        assert(t[b - 1].start <= t[b - 1].end);
                    }
                }
            }
        }
        i += 1;
    }
    proof {
        assert(rv.take(rv.len() as int) =~= rv);
    }
    Ok(out)
}

/// Every country of a kept row is named by the filter.
pub open spec fn names_all_countries(rows: Seq<Seq<Seq<char>>>, f: Seq<Seq<char>>) -> bool {
    forall|i: int|
        0 <= i < rows.len() && #[trigger] row_range(rows[i]) is Some ==> f.contains(
            row_range(rows[i])->0.country,
        )
}

/// A filter that names every country of the rows keeps the same table as no
/// filter at all, and so does an empty filter.
pub proof fn lemma_filter_idempotent(rows: Seq<Seq<Seq<char>>>, f: Seq<Seq<char>>)
    ensures
        names_all_countries(rows, f) ==> kept_ranges(rows, Some(f)) == kept_ranges(rows, None),
        kept_ranges(rows, Some(Seq::empty())) == kept_ranges(rows, None),
        names_all_countries(rows, f) ==> (table_ok(rows, Some(f)) <==> table_ok(rows, None)),
    decreases rows.len(),
{
    if rows.len() > 0 {
        lemma_filter_idempotent(rows.drop_last(), f);
        if names_all_countries(rows, f) {
            assert(names_all_countries(rows.drop_last(), f)) by {
                assert forall|i: int|
                    0 <= i < rows.drop_last().len() && #[trigger] row_range(rows.drop_last()[i]) is Some implies f.contains(
                    row_range(rows.drop_last()[i])->0.country,
                ) by {
                    assert(rows.drop_last()[i] == rows[i]);
                }
            }
            assert(row_range(rows[rows.len() - 1]) is Some ==> f.contains(
                row_range(rows[rows.len() - 1])->0.country,
            ));
        }
    }
}

/// The table that the data set gives under the filter, or `None` where the
/// data cannot be read as rows or a row is rejected.
pub open spec fn loaded_table(data: Seq<u8>, filter: Option<Seq<Seq<char>>>) -> Option<Seq<RangeView>> {
    match csv_records(data) {
        Some(rows) => if table_ok(rows, filter) {
            Some(kept_ranges(rows, filter))
        } else {
            None
        },
        None => None,
    }
}

/// The range that holds the address whose dotted-quad text is `s`; none
/// where `s` is not the text of an address.
pub open spec fn locate_text(t: Seq<RangeView>, s: Seq<char>) -> Option<RangeView> {
    if exists|w: u32| s == #[trigger] dotted_of(w) {
        locate(t, choose|w: u32| s == #[trigger] dotted_of(w))
    } else {
        None
    }
}

/// Looks addresses up in a table of ranges.
pub trait IpLookup {
    /// The table searched.
    spec fn ranges(&self) -> Seq<RangeView>;

    /// The range that holds the address written as a dotted quad; none where the
    /// text is not an address.
    fn look_up(&self, ip: &str) -> (r: Option<IpRange>)
        ensures
            r is Some ==> exists|w: u32|
                ip@ == #[trigger] dotted_of(w) && found_in(self.ranges(), opt_view(r), w),
            sorted_disjoint(self.ranges()) ==> opt_view(r) == locate_text(self.ranges(), ip@),
    ;

    /// The range that holds the address given by its four octets.
    fn look_up_ipv4(&self, ip: &[u8; 4]) -> (r: Option<IpRange>)
        ensures
            found_in(
                self.ranges(),
                opt_view(r),
                pack(ip@[0] as u32, ip@[1] as u32, ip@[2] as u32, ip@[3] as u32),
            ),
            sorted_disjoint(self.ranges()) ==> opt_view(r) == locate(
                self.ranges(),
                pack(ip@[0] as u32, ip@[1] as u32, ip@[2] as u32, ip@[3] as u32),
            ),
    ;
}

/// A range table loaded once from a data set, with how the load went.
pub struct Looker {
    pub file_path: PathBuf,
    pub ip_ranges: Vec<IpRange>,
    /// An empty country filter was given, and was ignored.
    pub filter_ignored: bool,
    /// Why the table is empty, where the data set could not be used.
    pub failure: Option<LookupError>,
}

impl Looker {
    /// Loads the table from the contents of the data set at `file_path`, keeping
    /// the rows whose country the filter names. An empty filter is ignored,
    /// and `filter_ignored` says so. Where the contents cannot be used the
    /// table is empty and `failure` says why.
    pub fn new(file_path: PathBuf, contents: &[u8], countries: Option<&Vec<String>>) -> (r: Looker)
        ensures
            r.file_path == file_path,
            r.filter_ignored == (countries is Some && countries->0@.len() == 0),
            sorted_disjoint(views(r.ip_ranges@)),
            match loaded_table(contents@, filter_view(countries)) {
                Some(t) => r.failure is None && views(r.ip_ranges@) == t,
                None => r.failure == Some(LookupError::Data) && r.ip_ranges@.len() == 0,
            },
    {
        let filter_ignored = match countries {
            Some(c) => c.len() == 0,
            None => false,
        };
        let loaded = match read_rows(contents) {
            Ok(rows) => build_table(&rows, countries),
            Err(e) => Err(e),
        };
        match loaded {
            Ok(ip_ranges) => Looker { file_path, ip_ranges, filter_ignored, failure: None },
            Err(e) => {
                let ip_ranges: Vec<IpRange> = Vec::new();
                assert(views(ip_ranges@) =~= Seq::<RangeView>::empty());
                Looker { file_path, ip_ranges, filter_ignored, failure: Some(e) }
            },
        }
    }
}

/// What `ip_string_to_decimal` reads decides the located range.
proof fn lemma_locate_read(t: Seq<RangeView>, s: Seq<char>, v: u32)
    requires
        s == dotted_of(v),
    ensures
        locate_text(t, s) == locate(t, v),
{
    let w = choose|w: u32| s == #[trigger] dotted_of(w);
    lemma_dotted_round_trip(v, w);
}

impl IpLookup for Looker {
    open spec fn ranges(&self) -> Seq<RangeView> {
        views(self.ip_ranges@)
    }

    fn look_up(&self, ip: &str) -> (r: Option<IpRange>) {
        match ip_string_to_decimal(ip) {
            Ok(v) => {
                proof {
                    lemma_locate_read(self.ranges(), ip@, v);
                }
                let r = find_ip_range(v, self.ip_ranges.as_slice());
                assert(ip@ == dotted_of(v));
                r
            },
            Err(_) => None,
        }
    }

    fn look_up_ipv4(&self, ip: &[u8; 4]) -> (r: Option<IpRange>) {
        find_ip_range(ip_to_decimal(ip), self.ip_ranges.as_slice())
    }
}

/// Looks an address up in the table of a data set given by its contents, read
/// afresh for this one call with no filter. None where the address is not a
/// dotted quad, where the data set cannot be used, or where no range holds it.
pub fn look_up(ip: &str, contents: &[u8]) -> (r: Option<IpRange>)
    ensures
        opt_view(r) == match loaded_table(contents@, None) {
            Some(t) => locate_text(t, ip@),
            None => None,
        },
{
    let v = match ip_string_to_decimal(ip) {
        Ok(v) => v,
        Err(_) => {
            return None;
        },
    };
    let rows = match read_rows(contents) {
        Ok(rows) => rows,
        Err(_) => {
            return None;
        },
    };
    let ranges = match build_table(&rows, None) {
        Ok(t) => t,
        Err(_) => {
            return None;
        },
    };
    proof {
        assert(filter_view(None) == None::<Seq<Seq<char>>>);
        lemma_locate_read(views(ranges@), ip@, v);
    }
    find_ip_range(v, ranges.as_slice())
}

} // verus!
