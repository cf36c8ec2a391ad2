//! Opening tables: tab-separated text with a header row naming the columns
//! `eco`, `name` and `pgn`, one opening per row.
use vstd::prelude::*;
use crate::position::Position;
use crate::replay::{position_after_moves, replay_moves};

verus! {

/// A table as the reader splits it: the header fields and the fields of each
/// row, or `None` where the reader rejects the text.
pub uninterp spec fn tab_table_of(data: Seq<u8>) -> Option<(Seq<Seq<char>>, Seq<Seq<Seq<char>>>)>;

/// Relies on `csv::Reader` with a tab delimiter and a header row (the
/// defaults otherwise: rows of equal length, fields untrimmed, UTF-8 text).
#[verifier::external_body]
fn read_table(data: &[u8]) -> (r: Option<(Vec<String>, Vec<Vec<String>>)>)
    ensures
        match r {
            Some(t) => tab_table_of(data@) == Some((t.0.deep_view(), t.1.deep_view())),
            None => tab_table_of(data@) is None,
        },
{
    let mut rdr = csv::ReaderBuilder::new().delimiter(b'\t').from_reader(data);
    let header = rdr.headers().ok()?.iter().map(|f| f.to_string()).collect();
    let rows: Result<Vec<Vec<String>>, csv::Error> = rdr
        .records()
        .map(|rec| rec.map(|rec| rec.iter().map(|f| f.to_string()).collect()))
        .collect();
    Some((header, rows.ok()?))
}

/// One opening as plain values: its classification code, its name, the
/// position it reaches and the moves that reach it (`None` for the
/// synthetic entries).
pub struct OpeningView {
    pub eco: Seq<char>,
    pub name: Seq<char>,
    pub position: Seq<char>,
    pub pgn: Option<Seq<char>>,
}

/// Index of the first field at or after `i` equal to `key`.
pub open spec fn column_from(header: Seq<Seq<char>>, key: Seq<char>, i: int) -> Option<int>
    decreases header.len() - i,
{
    if i < 0 || i >= header.len() {
        None
    } else if header[i] == key {
        Some(i)
    } else {
        column_from(header, key, i + 1)
    }
}

/// Index of the header field equal to `key`, where exactly one is.
pub open spec fn column_of(header: Seq<Seq<char>>, key: Seq<char>) -> Option<int> {
    match column_from(header, key, 0) {
        Some(c) => if column_from(header, key, c + 1) is None {
            Some(c)
        } else {
            None
        },
        None => None,
    }
}

/// Every row is long enough to hold the three columns.
pub open spec fn rows_fit(rows: Seq<Seq<Seq<char>>>, e: int, n: int, p: int) -> bool {
    forall|k: int| 0 <= k < rows.len() ==> e < #[trigger] rows[k].len() && n < rows[k].len() && p < rows[k].len()
}

/// The opening that a row describes, given the columns of its three fields.
pub open spec fn row_opening(row: Seq<Seq<char>>, e: int, n: int, p: int) -> OpeningView {
    OpeningView {
        eco: row[e],
        name: row[n],
        position: position_after_moves(row[p]),
        pgn: Some(row[p]),
    }
}

/// The openings of a table in row order, or `None` where the reader rejects
/// it, or where it has rows but a column is missing or repeated, or a row is
/// too short to hold one of the three.
pub open spec fn table_openings(data: Seq<u8>) -> Option<Seq<OpeningView>> {
    match tab_table_of(data) {
        None => None,
        Some((header, rows)) => if rows.len() == 0 {
            Some(Seq::empty())
        } else { match (
            column_of(header, "eco"@),
            column_of(header, "name"@),
            column_of(header, "pgn"@),
        ) {
            (Some(e), Some(n), Some(p)) => {
                if rows_fit(rows, e, n, p) {
                    Some(rows.map_values(|row: Seq<Seq<char>>| row_opening(row, e, n, p)))
                } else {
                    None
                }
            },
            _ => None,
        } },
    }
}

/// A field that `column_from` finds lies within the header, at or after `i`.
proof fn lemma_column_from_bounds(header: Seq<Seq<char>>, key: Seq<char>, i: int)
    ensures
        column_from(header, key, i) matches Some(c) ==> i <= c < header.len(),
    decreases header.len() - i,
{
    if 0 <= i < header.len() && header[i] != key {
        lemma_column_from_bounds(header, key, i + 1);
    }
}

/// The first field at or after `start` equal to `key`.
fn find_column_from(header: &Vec<String>, key: &String, start: usize) -> (r: Option<usize>)
    ensures
        match r {
            Some(i) => column_from(header.deep_view(), key@, start as int) == Some(i as int),
            None => column_from(header.deep_view(), key@, start as int) is None,
        },
{
    let ghost h = header.deep_view();
    let mut i: usize = start;
    while i < header.len()
        invariant
            start <= i,
            h == header.deep_view(),
            i <= header.len() || i == start,
            column_from(h, key@, start as int) == column_from(h, key@, i as int),
        decreases header.len() - i,
    {
        assert(h[i as int] == header[i as int]@);
        if header[i] == *key {
            return Some(i);
        }
        i = i + 1;
    }
    None
}

/// The column whose header is `key`, where exactly one is.
fn find_column(header: &Vec<String>, key: &str) -> (r: Option<usize>)
    ensures
        match r {
            Some(i) => column_of(header.deep_view(), key@) == Some(i as int),
            None => column_of(header.deep_view(), key@) is None,
        },
{
    let wanted = key.to_owned();
    proof {
        lemma_column_from_bounds(header.deep_view(), key@, 0);
        assert(header.deep_view().len() == header@.len());
    }
    match find_column_from(header, &wanted, 0) {
        Some(c) => {
            if c < header.len() && find_column_from(header, &wanted, c + 1).is_none() {
                Some(c)
            } else {
                None
            }
        },
        None => None,
    }
}

/// An opening of a table, with the position its moves reach.
#[derive(Clone, Debug)]
pub struct Opening {
    pub eco: String,
    pub name: String,
    pub position: Position,
    pub pgn: Option<String>,
}

impl View for Opening {
    type V = OpeningView;

    open spec fn view(&self) -> OpeningView {
        OpeningView {
            eco: self.eco@,
            name: self.name@,
            position: self.position@,
            pgn: match self.pgn {
                Some(s) => Some(s@),
                None => None,
            },
        }
    }
}

fn row_to_opening(row: &Vec<String>, e: usize, n: usize, p: usize) -> (r: Opening)
    requires
        e < row.len(),
        n < row.len(),
        p < row.len(),
    ensures
        r@ == row_opening(row.deep_view(), e as int, n as int, p as int),
{
    let pgn = row[p].clone();
    Opening {
        eco: row[e].clone(),
        name: row[n].clone(),
        position: replay_moves(pgn.as_str()),
        pgn: Some(pgn),
    }
}

/// Reads the openings of one table, replaying each row's moves.
pub fn parse_table(data: &[u8]) -> (r: Option<Vec<Opening>>)
    ensures
        match r {
            Some(v) => table_openings(data@) == Some(v@.map_values(|o: Opening| o@)),
            None => table_openings(data@) is None,
        },
{
    let (header, rows) = match read_table(data) {
        Some(t) => t,
        None => return None,
    };
    if rows.len() == 0 {
        return Some(Vec::new());
    }
    let (e, n, p) = match (find_column(&header, "eco"), find_column(&header, "name"), find_column(&header, "pgn")) {
        (Some(e), Some(n), Some(p)) => (e, n, p),
        _ => return None,
    };
    rows_openings(&rows, e, n, p)
}

/// The openings of the rows, or `None` where a row is too short.
fn rows_openings(rows: &Vec<Vec<String>>, e: usize, n: usize, p: usize) -> (r: Option<Vec<Opening>>)
    ensures
        match r {
            Some(v) => rows_fit(rows.deep_view(), e as int, n as int, p as int) && v@.map_values(
                |o: Opening| o@,
            ) == rows.deep_view().map_values(
                |row: Seq<Seq<char>>| row_opening(row, e as int, n as int, p as int),
            ),
            None => !rows_fit(rows.deep_view(), e as int, n as int, p as int),
        },
{
    let ghost rv = rows.deep_view();
    let mut out: Vec<Opening> = Vec::new();
    let mut k: usize = 0;
    while k < rows.len()
        invariant
            0 <= k <= rows.len(),
            rv == rows.deep_view(),
            out@.len() == k,
            forall|j: int| 0 <= j < k ==> e < #[trigger] rv[j].len() && n < rv[j].len() && p < rv[j].len(),
            forall|j: int| 0 <= j < k ==> #[trigger] out@[j]@ == row_opening(rv[j], e as int, n as int, p as int),
        decreases rows.len() - k,
    {
        let row = &rows[k];
        assert(row.deep_view() == rv[k as int]);
        if e >= row.len() || n >= row.len() || p >= row.len() {
            return None;
        }
        let opening = row_to_opening(row, e, n, p);
        out.push(opening);
        k = k + 1;
    }
    assert(out@.map_values(|o: Opening| o@) =~= rv.map_values(
        |row: Seq<Seq<char>>| row_opening(row, e as int, n as int, p as int),
    ));
    Some(out)
}

} // verus!
