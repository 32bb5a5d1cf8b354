//! The catalog of artifacts: which of its entries hold records, and how a
//! record file is cut into records.
use vstd::prelude::*;

verus! {

/// Whether a catalog entry of this name is walked: everything but the
/// version-control directory and the catalog's configuration file.
pub open spec fn is_record_entry_spec(file_name: Seq<char>) -> bool {
    file_name != ".git"@ && file_name != "config.json"@
}

/// Whether the catalog entry `file_name` is walked for records.
pub fn is_record_entry(file_name: &String) -> (r: bool)
    ensures
        r == is_record_entry_spec(file_name@),
{
    let git = ".git".to_string();
    let config = "config.json".to_string();
    *file_name != git && *file_name != config
}

/// The line feed, which ends a line.
pub const LINE_FEED: u8 = 10;

/// The carriage return, dropped where it comes right before a line feed.
pub const CARRIAGE_RETURN: u8 = 13;

/// A line without the carriage return that ends it, if one does.
pub open spec fn strip_cr(l: Seq<u8>) -> Seq<u8> {
    if l.len() > 0 && l.last() == CARRIAGE_RETURN {
        l.drop_last()
    } else {
        l
    }
}

/// The line as a record, where it is not empty.
pub open spec fn as_record(l: Seq<u8>) -> Seq<Seq<u8>> {
    if l.len() == 0 {
        seq![]
    } else {
        seq![l]
    }
}

/// The records of `b` after position `i`, where the current line began at
/// `start`.
pub open spec fn records_from(b: Seq<u8>, start: int, i: int) -> Seq<Seq<u8>>
    decreases b.len() - i,
{
    if i >= b.len() {
        as_record(b.subrange(start, b.len() as int))
    } else if b[i] == LINE_FEED {
        as_record(strip_cr(b.subrange(start, i))) + records_from(b, i + 1, i + 1)
    } else {
        records_from(b, start, i + 1)
    }
}

/// The records of a record file: its lines, each without the line feed (and
/// the carriage return before it) that ends it, empty lines left out.
pub open spec fn records_of(b: Seq<u8>) -> Seq<Seq<u8>> {
    records_from(b, 0, 0)
}

fn copy_range(b: &Vec<u8>, start: usize, end: usize) -> (r: Vec<u8>)
    requires
        start <= end <= b.len(),
    ensures
        r@ == b@.subrange(start as int, end as int),
{
    let mut r: Vec<u8> = Vec::new();
    let mut i: usize = start;
    while i < end
        invariant
            start <= i <= end <= b.len(),
            r@ == b@.subrange(start as int, i as int),
        decreases end - i,
    {
        r.push(b[i]);
        assert(r@ =~= b@.subrange(start as int, i + 1));
        i = i + 1;
    }
    r
}

/// Cuts the contents of a record file into its records, one per non-empty
/// line, in order.
pub fn record_lines(content: &Vec<u8>) -> (r: Vec<Vec<u8>>)
    ensures
        r.deep_view() == records_of(content@),
{
    let ghost b = content@;
    let mut r: Vec<Vec<u8>> = Vec::new();
    let mut start: usize = 0;
    let mut i: usize = 0;
    while i < content.len()
        invariant
            start <= i <= content.len(),
            b == content@,
            r.deep_view() + records_from(b, start as int, i as int) == records_of(b),
        decreases content.len() - i,
    {
        if content[i] == LINE_FEED {
            let mut end = i;
            if end > start && content[end - 1] == CARRIAGE_RETURN {
                end = end - 1;
            }
            let ghost old_r = r.deep_view();
            assert(b.subrange(start as int, end as int) =~= strip_cr(b.subrange(start as int, i as int)));
            if end > start {
                let l = copy_range(content, start, end);
                assert(l.deep_view() =~= l@);
                r.push(l);
                assert(r.deep_view() =~= old_r + as_record(strip_cr(b.subrange(start as int, i as int))));
            } else {
                assert(r.deep_view() =~= old_r + as_record(strip_cr(b.subrange(start as int, i as int))));
            }
            assert(r.deep_view() + records_from(b, i + 1, i + 1) =~= old_r + records_from(b, start as int, i as int));
            start = i + 1;
        }
        i = i + 1;
    }
    let ghost old_r = r.deep_view();
    if start < content.len() {
        let l = copy_range(content, start, content.len());
        assert(l.deep_view() =~= l@);
        r.push(l);
    }
    assert(r.deep_view() =~= old_r + records_from(b, start as int, i as int));
    r
}

} // verus!
