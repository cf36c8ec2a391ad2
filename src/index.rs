//! The opening index and its exact lookups.
use vstd::prelude::*;
use crate::position::{Position, empty_notation, parsed_notation, start_notation};
use crate::table::{Opening, OpeningView, parse_table, table_openings};

verus! {

/// Why a query or the building of an index failed.
#[derive(Clone, Copy, Debug, PartialEq, Eq, Structural)]
pub enum OpeningError {
    /// The position text does not parse.
    InvalidFen,
    /// No opening has the position or name asked for.
    NoOpeningFound,
    /// A name search found no candidate (the index is empty).
    NoMatchFound,
    /// A table could not be read as openings.
    MalformedTable,
}

/// The two entries that every built index starts with.
pub open spec fn synthetic_openings() -> Seq<OpeningView> {
    seq![
        OpeningView {
            eco: "Extra"@,
            name: "Starting Position"@,
            position: start_notation(),
            pgn: None,
        },
        OpeningView { eco: "Extra"@, name: "Empty Board"@, position: empty_notation(), pgn: None },
    ]
}

/// The openings of the tables, one table after the other, or `None` where
/// one of them is malformed.
pub open spec fn tables_openings(tables: Seq<Seq<u8>>) -> Option<Seq<OpeningView>>
    decreases tables.len(),
{
    if tables.len() == 0 {
        Some(Seq::empty())
    } else {
        match (tables_openings(tables.drop_last()), table_openings(tables.last())) {
            (Some(a), Some(b)) => Some(a + b),
            _ => None,
        }
    }
}

/// The first index at or after `i` whose entry satisfies `f`.
pub open spec fn first_from(s: Seq<OpeningView>, f: spec_fn(OpeningView) -> bool, i: int) -> Option<int>
    decreases s.len() - i,
{
    if i < 0 || i >= s.len() {
        None
    } else if f(s[i]) {
        Some(i)
    } else {
        first_from(s, f, i + 1)
    }
}

/// What `first_from` finds: an entry that satisfies `f`, with none before it.
pub proof fn lemma_first_from(s: Seq<OpeningView>, f: spec_fn(OpeningView) -> bool, i: int)
    requires
        0 <= i,
    ensures
        match first_from(s, f, i) {
            Some(k) => i <= k < s.len() && f(s[k]) && forall|j: int| i <= j < k ==> !f(#[trigger] s[j]),
            None => forall|j: int| i <= j < s.len() ==> !f(#[trigger] s[j]),
        },
    decreases s.len() - i,
{
    if i < s.len() && !f(s[i]) {
        lemma_first_from(s, f, i + 1);
    }
}

/// The first entry at the position `p`.
pub open spec fn first_at_position(s: Seq<OpeningView>, p: Seq<char>) -> Option<int> {
    first_from(s, |o: OpeningView| o.position == p, 0)
}

/// The first entry named `name`.
pub open spec fn first_named(s: Seq<OpeningView>, name: Seq<char>) -> Option<int> {
    first_from(s, |o: OpeningView| o.name == name, 0)
}

/// What a lookup by position gives: the first matching entry's name.
pub open spec fn position_lookup(s: Seq<OpeningView>, p: Seq<char>) -> Result<Seq<char>, OpeningError> {
    match first_at_position(s, p) {
        Some(i) => Ok(s[i].name),
        None => Err(OpeningError::NoOpeningFound),
    }
}

/// What a lookup by exact name gives: the first matching entry's moves.
/// The lookup is defined for entries read from tables, which carry moves.
pub open spec fn name_lookup(s: Seq<OpeningView>, name: Seq<char>) -> Result<Seq<char>, OpeningError> {
    match first_named(s, name) {
        Some(i) => match s[i].pgn {
            Some(m) => Ok(m),
            None => Err(OpeningError::NoOpeningFound),
        },
        None => Err(OpeningError::NoOpeningFound),
    }
}

/// What a lookup by position text gives.
pub open spec fn fen_lookup(s: Seq<OpeningView>, text: Seq<char>) -> Result<Seq<char>, OpeningError> {
    match parsed_notation(text) {
        Some(p) => position_lookup(s, p),
        None => Err(OpeningError::InvalidFen),
    }
}

/// The plain value of a text result.
pub open spec fn text_result(r: Result<String, OpeningError>) -> Result<Seq<char>, OpeningError> {
    match r {
        Ok(s) => Ok(s@),
        Err(e) => Err(e),
    }
}

/// The opening book: an ordered, read-only sequence of openings.
pub struct OpeningIndex {
    openings: Vec<Opening>,
}

impl View for OpeningIndex {
    type V = Seq<OpeningView>;

    closed spec fn view(&self) -> Seq<OpeningView> {
        self.openings@.map_values(|o: Opening| o@)
    }
}

impl OpeningIndex {
    /// An index holding exactly the given openings, in order.
    pub fn from_openings(openings: Vec<Opening>) -> (r: OpeningIndex)
        ensures
            r@ == openings@.map_values(|o: Opening| o@),
    {
        OpeningIndex { openings }
    }

    /// Builds the index: the starting position and the empty board, then the
    /// openings of each table in order. Fails if any table is malformed.
    pub fn from_tables(tables: &Vec<Vec<u8>>) -> (r: Result<OpeningIndex, OpeningError>)
        ensures
            match tables_openings(tables.deep_view()) {
                Some(s) => r matches Ok(ix) && ix@ == synthetic_openings() + s,
                None => r matches Err(OpeningError::MalformedTable),
            },
    {
        let mut openings: Vec<Opening> = Vec::new();
        openings.push(
            Opening {
                eco: "Extra".to_owned(),
                name: "Starting Position".to_owned(),
                position: Position::starting(),
                pgn: None,
            },
        );
        openings.push(
            Opening {
                eco: "Extra".to_owned(),
                name: "Empty Board".to_owned(),
                position: Position::empty_board(),
                pgn: None,
            },
        );
        assert(openings@.map_values(|o: Opening| o@) =~= synthetic_openings());
        let ghost tv = tables.deep_view();
        let mut t: usize = 0;
        while t < tables.len()
            invariant
                0 <= t <= tables.len(),
                tv == tables.deep_view(),
                tables_openings(tv.subrange(0, t as int)) matches Some(s)
                    && openings@.map_values(|o: Opening| o@) == synthetic_openings() + s,
            decreases tables.len() - t,
        {
            let ghost before = openings@.map_values(|o: Opening| o@);
            assert(tv.subrange(0, t + 1).drop_last() =~= tv.subrange(0, t as int));
            assert(tv[t as int] == tables[t as int]@);
            match parse_table(tables[t].as_slice()) {
                Some(mut parsed) => {
                    let ghost pv = parsed@.map_values(|o: Opening| o@);
                    openings.append(&mut parsed);
                    assert(openings@.map_values(|o: Opening| o@) =~= before + pv);
                },
                None => {
                    proof {
                        lemma_malformed_prefix(tv, t as int + 1);
                    }
                    return Err(OpeningError::MalformedTable);
                },
            }
            t = t + 1;
        }
        assert(tv.subrange(0, t as int) =~= tv);
        Ok(OpeningIndex { openings })
    }

    /// The openings, in index order.
    pub fn openings(&self) -> (r: &Vec<Opening>)
        ensures
            r@.map_values(|o: Opening| o@) == self@,
    {
        &self.openings
    }

    /// The number of openings.
    pub fn len(&self) -> (r: usize)
        ensures
            r == self@.len(),
    {
        self.openings.len()
    }
}

/// The first entry whose position is `pos`.
fn find_position(openings: &Vec<Opening>, pos: &Position) -> (r: Option<usize>)
    ensures
        ({
            let s = openings@.map_values(|o: Opening| o@);
            match r {
                Some(i) => first_at_position(s, pos@) == Some(i as int),
                None => first_at_position(s, pos@) is None,
            }
        }),
{
    let ghost s = openings@.map_values(|o: Opening| o@);
    let ghost f = |o: OpeningView| o.position == pos@;
    let mut i: usize = 0;
    while i < openings.len()
        invariant
            0 <= i <= openings.len(),
            s == openings@.map_values(|o: Opening| o@),
            f == (|o: OpeningView| o.position == pos@),
            first_from(s, f, 0) == first_from(s, f, i as int),
        decreases openings.len() - i,
    {
        assert(s[i as int] == openings@[i as int]@);
        if openings[i].position.same_as(pos) {
            return Some(i);
        }
        i = i + 1;
    }
    None
}

/// The first entry named `name`.
pub fn find_name(index: &OpeningIndex, name: &str) -> (r: Option<usize>)
    ensures
        match r {
            Some(i) => first_named(index@, name@) == Some(i as int),
            None => first_named(index@, name@) is None,
        },
{
    let openings = index.openings();
    let wanted = name.to_owned();
    let ghost s = index@;
    let ghost f = |o: OpeningView| o.name == name@;
    let mut i: usize = 0;
    while i < openings.len()
        invariant
            0 <= i <= openings.len(),
            s == openings@.map_values(|o: Opening| o@),
            s == index@,
            wanted@ == name@,
            f == (|o: OpeningView| o.name == name@),
            first_from(s, f, 0) == first_from(s, f, i as int),
        decreases openings.len() - i,
    {
        assert(s[i as int] == openings@[i as int]@);
        if openings[i].name == wanted {
            return Some(i);
        }
        i = i + 1;
    }
    None
}

/// The name of the first opening whose position is `position`.
pub fn get_opening_from_setup(index: &OpeningIndex, position: Position) -> (r: Result<String, OpeningError>)
    ensures
        text_result(r) == position_lookup(index@, position@),
{
    let openings = index.openings();
    match find_position(openings, &position) {
        Some(i) => {
            proof {
                lemma_first_from(index@, |o: OpeningView| o.position == position@, 0);
            }
            assert(index@[i as int] == openings@[i as int]@);
            Ok(openings[i].name.clone())
        },
        None => Err(OpeningError::NoOpeningFound),
    }
}

/// The name of the first opening at the position that a position text
/// describes.
pub fn get_opening_from_fen(index: &OpeningIndex, fen: &str) -> (r: Result<String, OpeningError>)
    ensures
        text_result(r) == fen_lookup(index@, fen@),
{
    match Position::from_fen(fen) {
        Some(p) => get_opening_from_setup(index, p),
        None => Err(OpeningError::InvalidFen),
    }
}

/// The moves of the first opening named `name`. Defined only where that
/// opening came from a table (the synthetic entries carry no moves).
pub fn get_opening_from_name(index: &OpeningIndex, name: &str) -> (r: Result<String, OpeningError>)
    requires
        first_named(index@, name@) matches Some(i) ==> index@[i].pgn is Some,
    ensures
        text_result(r) == name_lookup(index@, name@),
{
    let openings = index.openings();
    match find_name(index, name) {
        Some(i) => {
            proof {
                lemma_first_from(index@, |o: OpeningView| o.name == name@, 0);
            }
            assert(index@[i as int] == openings@[i as int]@);
            match &openings[i].pgn {
                Some(m) => Ok(m.clone()),
                None => Err(OpeningError::NoOpeningFound),
            }
        },
        None => Err(OpeningError::NoOpeningFound),
    }
}

/// Lookups are pure: two lookups with the same index and query give the
/// same outcome.
pub proof fn lemma_lookups_deterministic(
    index: OpeningIndex,
    position: Position,
    name: Seq<char>,
    a: Result<String, OpeningError>,
    b: Result<String, OpeningError>,
    c: Result<String, OpeningError>,
    d: Result<String, OpeningError>,
)
    requires
        text_result(a) == position_lookup(index@, position@),
        text_result(b) == position_lookup(index@, position@),
        text_result(c) == name_lookup(index@, name),
        text_result(d) == name_lookup(index@, name),
    ensures
        text_result(a) == text_result(b),
        text_result(c) == text_result(d),
{
}

/// In a built index the starting position and the empty board are found as
/// the synthetic entries, whatever the tables hold.
pub proof fn lemma_synthetic_entries_first(rest: Seq<OpeningView>)
    ensures
        position_lookup(synthetic_openings() + rest, start_notation()) == Ok::<Seq<char>, OpeningError>(
            "Starting Position"@,
        ),
        position_lookup(synthetic_openings() + rest, empty_notation()) == Ok::<Seq<char>, OpeningError>(
            "Empty Board"@,
        ),
{
    let s = synthetic_openings() + rest;
    reveal_strlit("rnbqkbnr/pppppppp/8/8/8/8/PPPPPPPP/RNBQKBNR w KQkq - 0 1");
    reveal_strlit("8/8/8/8/8/8/8/8 w - - 0 1");
    assert(start_notation()[0] != empty_notation()[0]);
    assert(s[0] == synthetic_openings()[0]);
    assert(s[1] == synthetic_openings()[1]);
    let f = |o: OpeningView| o.position == empty_notation();
    assert(!f(s[0]));
    assert(first_from(s, f, 0) == first_from(s, f, 1));
}

/// An empty index finds no position.
pub proof fn lemma_empty_index_finds_nothing(index: OpeningIndex, position: Position)
    requires
        index@.len() == 0,
    ensures
        position_lookup(index@, position@) == Err::<Seq<char>, OpeningError>(OpeningError::NoOpeningFound),
{
}

/// A malformed table spoils every longer list of tables that holds it.
proof fn lemma_malformed_prefix(tv: Seq<Seq<u8>>, k: int)
    requires
        0 < k <= tv.len(),
        tables_openings(tv.subrange(0, k)) is None,
    ensures
        tables_openings(tv) is None,
    decreases tv.len() - k,
{
    if k < tv.len() {
        assert(tv.subrange(0, k + 1).drop_last() =~= tv.subrange(0, k));
        lemma_malformed_prefix(tv, k + 1);
    } else {
        assert(tv.subrange(0, k) =~= tv);
    }
}

} // verus!
