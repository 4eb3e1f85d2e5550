//! Source material: the list of image links and the file name each image is
//! stored under.
use vstd::prelude::*;

verus! {

/// What `csv::Reader` reads from a text with a header row: the fields of each
/// record after the header, or `None` when some record is malformed.
pub uninterp spec fn csv_records(text: Seq<char>) -> Option<Seq<Seq<Seq<char>>>>;

/// The last path segment of a link, as `url::Url` parses it; `None` when the
/// link does not parse or has no path segments.
pub uninterp spec fn url_last_segment(link: Seq<char>) -> Option<Seq<char>>;

pub open spec fn string_view(s: Option<String>) -> Option<Seq<char>> {
    match s {
        Some(v) => Some(v@),
        None => None,
    }
}

pub open spec fn rows_view(rows: Option<Vec<Vec<String>>>) -> Option<Seq<Seq<Seq<char>>>> {
    match rows {
        Some(v) => Some(Seq::new(v@.len(), |i: int| Seq::new(v@[i]@.len(), |j: int| v@[i]@[j]@))),
        None => None,
    }
}

pub open spec fn strings_view(v: Vec<String>) -> Seq<Seq<char>> {
    Seq::new(v@.len(), |i: int| v@[i]@)
}

/// The links of a sheet: the first field of every record, or `None` when the
/// text does not read as CSV or some record has no field.
pub open spec fn links_spec(text: Seq<char>) -> Option<Seq<Seq<char>>> {
    match csv_records(text) {
        Some(rows) => if forall|i: int| 0 <= i < rows.len() ==> (#[trigger] rows[i]).len() > 0 {
            Some(Seq::new(rows.len(), |i: int| rows[i][0]))
        } else {
            None
        },
        None => None,
    }
}

/// The file name an image link is stored under: its last path segment, when
/// there is one and it is not empty.
pub open spec fn file_name_spec(link: Seq<char>) -> Option<Seq<char>> {
    match url_last_segment(link) {
        Some(name) => if name.len() > 0 {
            Some(name)
        } else {
            None
        },
        None => None,
    }
}

/// Relies on `csv::Reader::from_reader` (headers on, as by default) and
/// `Reader::records`: the fields of each record after the header row.
#[verifier::external_body]
fn read_csv(text: &str) -> (r: Option<Vec<Vec<String>>>)
    ensures
        rows_view(r) == csv_records(text@),
{
    let mut rdr = csv::Reader::from_reader(text.as_bytes());
    let mut rows = Vec::new();
    for record in rdr.records() {
        match record {
            Ok(fields) => rows.push(fields.iter().map(String::from).collect()),
            Err(_) => return None,
        }
    }
    Some(rows)
}

/// Relies on `url::Url::parse` and `Url::path_segments`: the last segment of
/// the link's path.
#[verifier::external_body]
fn last_segment(link: &str) -> (r: Option<String>)
    ensures
        string_view(r) == url_last_segment(link@),
{
    let url = url::Url::parse(link).ok()?;
    let last = url.path_segments()?.last()?;
    Some(last.to_string())
}

/// The image links listed in a CSV sheet, one per record.
pub fn links_from_csv(text: &str) -> (r: Option<Vec<String>>)
    ensures
        match r {
            Some(v) => links_spec(text@) == Some(strings_view(v)),
            None => links_spec(text@) is None,
        },
{
    let rows = match read_csv(text) {
        Some(rows) => rows,
        None => return None,
    };
    let ghost seen = rows_view(Some(rows)).unwrap();
    let mut links: Vec<String> = Vec::new();
    let mut i: usize = 0;
    while i < rows.len()
        invariant
            i <= rows@.len() == seen.len(),
            seen == rows_view(Some(rows)).unwrap(),
            csv_records(text@) == Some(seen),
            links@.len() == i,
            forall|k: int| 0 <= k < i ==> (#[trigger] rows@[k])@.len() > 0,
            forall|k: int| 0 <= k < i ==> (#[trigger] links@[k]) == rows@[k]@[0],
        decreases rows@.len() - i,
    {
        if rows[i].len() == 0 {
            assert(seen[i as int].len() == 0);
            return None;
        }
        let first = rows[i][0].clone();
        links.push(first);
        i = i + 1;

    }
    proof {
        assert forall|k: int| 0 <= k < seen.len() implies (#[trigger] seen[k]).len() > 0 by {
            assert(rows@[k]@.len() > 0);
        }
        assert(strings_view(links) =~= Seq::new(seen.len(), |k: int| seen[k][0]));
    }
    Some(links)
}

/// The file name an image link is stored under, or `None` when the link has
/// no usable last path segment.
pub fn file_name(link: &str) -> (r: Option<String>)
    ensures
        string_view(r) == file_name_spec(link@),
{
    match last_segment(link) {
        Some(name) => {
            if name.as_str().is_empty() {
                None
            } else {
                Some(name)
            }
        },
        None => None,
    }
}

} // verus!
