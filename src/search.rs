//! Approximate search by name: the best-scoring distinct names of the index,
//! chosen by a bounded streaming selection.
//!
//! Scores are similarities in `[0, 1]`, held as the IEEE-754 bit patterns of
//! the values. For non-negative numbers the bit patterns order exactly as the
//! numbers do, so comparing patterns is comparing similarities.
use vstd::prelude::*;
use crate::index::{OpeningError, OpeningIndex, first_from, first_named, lemma_first_from};
use crate::table::{Opening, OpeningView};

verus! {

/// The most results a search returns.
pub const MAX_RESULTS: usize = 15;

/// The bit pattern of the similarity `1.0`, that of identical names.
pub const PERFECT_SCORE: u64 = 0x3ff0_0000_0000_0000;

/// The Jaro-Winkler similarity of two texts, as a bit pattern.
pub uninterp spec fn similarity_of(a: Seq<char>, b: Seq<char>) -> u64;

/// Relies on `strsim::jaro_winkler`. It depends on the two texts alone. The
/// Jaro part is documented to lie in `[0, 1]`; the prefix boost adds at most
/// `0.4 * (1.0 - sim)`, which keeps the sum at most `1.0` (and its bit
/// pattern at most that of `1.0`). For identical texts it is exactly `1.0`:
/// every character matches its own place, with no transpositions, and the
/// boost is a multiple of `1.0 - 1.0`.
#[verifier::external_body]
fn similarity(a: &str, b: &str) -> (r: u64)
    ensures
        r == similarity_of(a@, b@),
        r <= PERFECT_SCORE,
        a@ == b@ ==> r == PERFECT_SCORE,
{
    strsim::jaro_winkler(a, b).to_bits()
}

/// Some entry of the working list carries the name `name`.
pub open spec fn name_listed(list: Seq<usize>, names: Seq<Seq<char>>, name: Seq<char>) -> bool {
    exists|j: int| 0 <= j < list.len() && names[list[j] as int] == name
}

/// The place, from `k` on, where an entry scoring `s` goes: after every
/// entry that scores at least `s`.
pub open spec fn rank_from(list: Seq<usize>, scores: Seq<u64>, s: u64, k: int) -> int
    decreases list.len() - k,
{
    if k < 0 || k >= list.len() {
        list.len() as int
    } else if scores[list[k] as int] >= s {
        rank_from(list, scores, s, k + 1)
    } else {
        k
    }
}

/// The list with entry `i` placed after every entry scoring at least as much.
pub open spec fn insert_ranked(list: Seq<usize>, scores: Seq<u64>, i: int) -> Seq<usize> {
    list.insert(rank_from(list, scores, scores[i], 0), i as usize)
}

/// The working list after entry `i` is considered: skipped when its name is
/// listed; added while there is room; otherwise added in place of the last
/// entry when it scores strictly more.
pub open spec fn select_step(list: Seq<usize>, names: Seq<Seq<char>>, scores: Seq<u64>, i: int) -> Seq<usize> {
    if name_listed(list, names, names[i]) {
        list
    } else if list.len() < MAX_RESULTS {
        insert_ranked(list, scores, i)
    } else if scores[i] > scores[list.last() as int] {
        insert_ranked(list.drop_last(), scores, i)
    } else {
        list
    }
}

/// The working list after the first `n` entries.
pub open spec fn select(names: Seq<Seq<char>>, scores: Seq<u64>, n: int) -> Seq<usize>
    decreases n,
{
    if n <= 0 {
        Seq::empty()
    } else {
        select_step(select(names, scores, n - 1), names, scores, n - 1)
    }
}

/// The names of the entries of an index.
pub open spec fn names_of(s: Seq<OpeningView>) -> Seq<Seq<char>> {
    s.map_values(|o: OpeningView| o.name)
}

/// The similarity of the query to each entry's name.
pub open spec fn scores_of(query: Seq<char>, s: Seq<OpeningView>) -> Seq<u64> {
    s.map_values(|o: OpeningView| similarity_of(query, o.name))
}

/// The entries that a search for `query` returns, best first.
pub open spec fn search_result(query: Seq<char>, s: Seq<OpeningView>) -> Seq<OpeningView> {
    select(names_of(s), scores_of(query, s), s.len() as int).map_values(|i: usize| s[i as int])
}

/// Whether some entry of the list is named `name`.
fn listed(list: &Vec<usize>, names: &Vec<String>, name: &String) -> (r: bool)
    requires
        forall|j: int| 0 <= j < list@.len() ==> list@[j] < names@.len(),
    ensures
        r == name_listed(list@, names.deep_view(), name@),
{
    let ghost nv = names.deep_view();
    let mut j: usize = 0;
    while j < list.len()
        invariant
            0 <= j <= list@.len(),
            nv == names.deep_view(),
            forall|k: int| 0 <= k < list@.len() ==> list@[k] < names@.len(),
            forall|k: int| 0 <= k < j ==> nv[list@[k] as int] != name@,
        decreases list.len() - j,
    {
        assert(nv[list@[j as int] as int] == names@[list@[j as int] as int]@);
        if names[list[j]] == *name {
            return true;
        }
        j = j + 1;
    }
    false
}

/// Places entry `i` after every listed entry that scores at least as much.
fn place_ranked(list: &mut Vec<usize>, scores: &Vec<u64>, i: usize)
    requires
        i < scores@.len(),
        forall|j: int| 0 <= j < old(list)@.len() ==> old(list)@[j] < scores@.len(),
    ensures
        final(list)@ == insert_ranked(old(list)@, scores@, i as int),
{
    let s = scores[i];
    let mut k: usize = 0;
    while k < list.len() && scores[list[k]] >= s
        invariant
            0 <= k <= list@.len(),
            forall|j: int| 0 <= j < list@.len() ==> list@[j] < scores@.len(),
            rank_from(list@, scores@, s, 0) == rank_from(list@, scores@, s, k as int),
        decreases list.len() - k,
    {
        k = k + 1;
    }
    list.insert(k, i);
}

/// The indices of the best entries, best first: the streaming selection
/// over all entries, whose names and scores are given.
pub fn best_matches(names: &Vec<String>, scores: &Vec<u64>) -> (r: Vec<usize>)
    requires
        names@.len() == scores@.len(),
    ensures
        r@ == select(names.deep_view(), scores@, names@.len() as int),
{
    let ghost nv = names.deep_view();
    let mut list: Vec<usize> = Vec::new();
    let mut i: usize = 0;
    while i < names.len()
        invariant
            0 <= i <= names@.len(),
            names@.len() == scores@.len(),
            nv == names.deep_view(),
            list@ == select(nv, scores@, i as int),
        decreases names.len() - i,
    {
        proof {
            lemma_select_wf(nv, scores@, i as int);
            lemma_select_step_wf(list@, nv, scores@, i as int);
        }
        assert(nv[i as int] == names@[i as int]@);
        if listed(&list, names, &names[i]) {
        } else if list.len() < MAX_RESULTS {
            place_ranked(&mut list, scores, i);
        } else if scores[i] > scores[list[list.len() - 1]] {
            list.pop();
            place_ranked(&mut list, scores, i);
        }
        i = i + 1;
    }
    list
}

/// The working list is ranked: scores never increase along it.
pub open spec fn ranked(list: Seq<usize>, scores: Seq<u64>) -> bool {
    forall|a: int, b: int|
        0 <= a < b < list.len() ==> scores[list[a] as int] >= scores[list[b] as int]
}

/// No two entries of the working list share a name.
pub open spec fn names_distinct(list: Seq<usize>, names: Seq<Seq<char>>) -> bool {
    forall|a: int, b: int|
        0 <= a < list.len() && 0 <= b < list.len() && a != b ==> names[list[a] as int]
            != names[list[b] as int]
}

/// Every entry of the working list is one of the first `n` entries.
pub open spec fn members_below(list: Seq<usize>, n: int) -> bool {
    forall|j: int| 0 <= j < list.len() ==> list[j] < n
}

/// What holds of the working list after the first `n` entries.
pub open spec fn select_wf(list: Seq<usize>, names: Seq<Seq<char>>, scores: Seq<u64>, n: int) -> bool {
    &&& list.len() <= MAX_RESULTS
    &&& members_below(list, n)
    &&& ranked(list, scores)
    &&& names_distinct(list, names)
    &&& (n > 0 ==> list.len() > 0)
}

/// Placing a new entry by rank keeps the list ranked and its names distinct.
proof fn lemma_insert_ranked(list: Seq<usize>, names: Seq<Seq<char>>, scores: Seq<u64>, i: int)
    requires
        0 <= i < names.len(),
        i < scores.len(),
        i <= usize::MAX,
        members_below(list, i),
        ranked(list, scores),
        names_distinct(list, names),
        !name_listed(list, names, names[i]),
    ensures
        insert_ranked(list, scores, i).len() == list.len() + 1,
        members_below(insert_ranked(list, scores, i), i + 1),
        ranked(insert_ranked(list, scores, i), scores),
        names_distinct(insert_ranked(list, scores, i), names),
        insert_ranked(list, scores, i)[rank_from(list, scores, scores[i], 0)] == i,
        0 <= rank_from(list, scores, scores[i], 0) <= list.len(),
        forall|j: int| 0 <= j < rank_from(list, scores, scores[i], 0) ==> #[trigger] insert_ranked(list, scores, i)[j] == list[j],
        forall|j: int| rank_from(list, scores, scores[i], 0) <= j < list.len() ==> insert_ranked(list, scores, i)[j + 1] == list[j],
{
    let s = scores[i];
    let p = rank_from(list, scores, s, 0);
    lemma_rank_bounds(list, scores, s, 0);
    list.insert_ensures(p, i as usize);
    let r = insert_ranked(list, scores, i);
    assert forall|j: int| 0 <= j < r.len() implies r[j] < i + 1 by {
        if j > p {
            assert(r[j] == list[j - 1]);
        }
    }
    assert forall|a: int, b: int| 0 <= a < b < r.len() implies scores[r[a] as int] >= scores[r[b] as int] by {
        if b < p {
        } else if b == p {
            assert(scores[list[a] as int] >= s);
        } else if a < p {
            assert(r[b] == list[b - 1]);
        } else if a == p {
            assert(r[b] == list[b - 1]);
            assert(scores[list[p] as int] < s);
            if b - 1 > p {
                assert(scores[list[p] as int] >= scores[list[b - 1] as int]);
            }
        } else {
            assert(r[a] == list[a - 1]);
            assert(r[b] == list[b - 1]);
        }
    }
    assert forall|a: int, b: int|
        0 <= a < r.len() && 0 <= b < r.len() && a != b implies names[r[a] as int] != names[r[b] as int] by {
        if a == p {
            let bb = if b < p { b } else { b - 1 };
            assert(r[b] == list[bb]);
        } else if b == p {
            let aa = if a < p { a } else { a - 1 };
            assert(r[a] == list[aa]);
        } else {
            let aa = if a < p { a } else { a - 1 };
            let bb = if b < p { b } else { b - 1 };
            assert(r[a] == list[aa]);
            assert(r[b] == list[bb]);
        }
    }
}

/// One step of the selection keeps what `select_wf` states.
proof fn lemma_select_step_wf(list: Seq<usize>, names: Seq<Seq<char>>, scores: Seq<u64>, i: int)
    requires
        0 <= i < names.len(),
        i < scores.len(),
        i <= usize::MAX,
        select_wf(list, names, scores, i),
    ensures
        select_wf(select_step(list, names, scores, i), names, scores, i + 1),
{
    if !name_listed(list, names, names[i]) {
        if list.len() < MAX_RESULTS {
            lemma_insert_ranked(list, names, scores, i);
        } else if scores[i] > scores[list.last() as int] {
            let d = list.drop_last();
            assert(!name_listed(d, names, names[i])) by {
                if name_listed(d, names, names[i]) {
                    let j = choose|j: int| 0 <= j < d.len() && names[d[j] as int] == names[i];
                    assert(names[list[j] as int] == names[i]);
                }
            }
            lemma_insert_ranked(d, names, scores, i);
        }
    }
}

/// What holds of every working list of the selection.
proof fn lemma_select_wf(names: Seq<Seq<char>>, scores: Seq<u64>, n: int)
    requires
        0 <= n <= names.len(),
        n <= scores.len(),
        n <= usize::MAX + 1,
    ensures
        select_wf(select(names, scores, n), names, scores, n),
    decreases n,
{
    if n > 0 {
        lemma_select_wf(names, scores, n - 1);
        lemma_select_step_wf(select(names, scores, n - 1), names, scores, n - 1);
    }
}

/// A selection over at least one entry returns at least one.
proof fn lemma_select_nonempty(names: Seq<Seq<char>>, scores: Seq<u64>, n: int)
    requires
        0 < n <= names.len(),
        n <= scores.len(),
        n <= usize::MAX + 1,
    ensures
        select(names, scores, n).len() > 0,
{
    lemma_select_wf(names, scores, n);
}

/// Entries of equal names score equally.
pub open spec fn scores_follow_names(names: Seq<Seq<char>>, scores: Seq<u64>) -> bool {
    forall|a: int, b: int|
        0 <= a < names.len() && 0 <= b < names.len() && names[a] == names[b] ==> scores[a] == scores[b]
}

/// Each of the first `n` entries either has its name listed, or could not
/// enter a full list whose last entry scores at least as much.
pub open spec fn covered(list: Seq<usize>, names: Seq<Seq<char>>, scores: Seq<u64>, n: int) -> bool {
    forall|k: int|
        0 <= k < n ==> name_listed(list, names, #[trigger] names[k]) || (list.len() == MAX_RESULTS
            && scores[list.last() as int] >= scores[k])
}

/// Every listed entry is the first entry of its name.
pub open spec fn first_occurrences(list: Seq<usize>, names: Seq<Seq<char>>) -> bool {
    forall|j: int, k: int|
        #![trigger names[k], list[j]]
        0 <= j < list.len() && 0 <= k < list[j] ==> names[k] != names[list[j] as int]
}

/// One step of the selection keeps `covered` and `first_occurrences`.
proof fn lemma_select_step_first(list: Seq<usize>, names: Seq<Seq<char>>, scores: Seq<u64>, i: int)
    requires
        0 <= i < names.len(),
        names.len() == scores.len(),
        i <= usize::MAX,
        select_wf(list, names, scores, i),
        covered(list, names, scores, i),
        first_occurrences(list, names),
        scores_follow_names(names, scores),
    ensures
        covered(select_step(list, names, scores, i), names, scores, i + 1),
        first_occurrences(select_step(list, names, scores, i), names),
{
    let r = select_step(list, names, scores, i);
    if name_listed(list, names, names[i]) {
        assert forall|k: int| 0 <= k < i + 1 implies name_listed(r, names, #[trigger] names[k]) || (r.len()
            == MAX_RESULTS && scores[r.last() as int] >= scores[k]) by {
            if k < i {
            }
        }
    } else if list.len() < MAX_RESULTS {
        lemma_insert_ranked(list, names, scores, i);
        let p = rank_from(list, scores, scores[i], 0);
        assert forall|k: int| 0 <= k < i + 1 implies name_listed(r, names, #[trigger] names[k]) || (r.len()
            == MAX_RESULTS && scores[r.last() as int] >= scores[k]) by {
            if k == i {
                assert(r[p] == i);
            } else {
                assert(name_listed(list, names, names[k]));
                let j = choose|j: int| 0 <= j < list.len() && names[list[j] as int] == names[k];
                if j < p {
                    assert(r[j] == list[j]);
                } else {
                    assert(r[j + 1] == list[j]);
                }
            }
        }
        assert forall|a: int, k: int| #![trigger names[k], r[a]] 0 <= a < r.len() && 0 <= k < r[a] implies names[k] != names[r[a] as int] by {
            if a == p {
                if names[k] == names[i] {
                    assert(name_listed(list, names, names[k]) || (list.len() == MAX_RESULTS
                        && scores[list.last() as int] >= scores[k]));
                }
            } else if a < p {
                assert(r[a] == list[a]);
            } else {
                assert(r[a] == list[a - 1]);
            }
        }
    } else if scores[i] > scores[list.last() as int] {
        let d = list.drop_last();
        let last = list.last();
        assert(!name_listed(d, names, names[i])) by {
            if name_listed(d, names, names[i]) {
                let j = choose|j: int| 0 <= j < d.len() && names[d[j] as int] == names[i];
                assert(names[list[j] as int] == names[i]);
            }
        }
        lemma_insert_ranked(d, names, scores, i);
        let p = rank_from(d, scores, scores[i], 0);
        assert forall|j: int| 0 <= j < r.len() implies scores[r[j] as int] >= scores[last as int] by {
            if j < p {
                assert(r[j] == d[j]);
                assert(scores[list[j] as int] >= scores[list[list.len() - 1] as int]);
            } else if j > p {
                assert(r[j] == d[j - 1]);
                assert(scores[list[j - 1] as int] >= scores[list[list.len() - 1] as int]);
            }
        }
        assert(scores[r.last() as int] >= scores[last as int]);
        assert forall|k: int| 0 <= k < i + 1 implies name_listed(r, names, #[trigger] names[k]) || (r.len()
            == MAX_RESULTS && scores[r.last() as int] >= scores[k]) by {
            if k == i {
                assert(r[p] == i);
            } else if name_listed(list, names, names[k]) {
                let j = choose|j: int| 0 <= j < list.len() && names[list[j] as int] == names[k];
                if j == list.len() - 1 {
                    assert(scores[k] == scores[last as int]);
                } else if j < p {
                    assert(r[j] == d[j]);
                } else {
                    assert(r[j + 1] == d[j]);
                }
            }
        }
        assert forall|a: int, k: int| #![trigger names[k], r[a]] 0 <= a < r.len() && 0 <= k < r[a] implies names[k] != names[r[a] as int] by {
            if a == p {
                if names[k] == names[i] {
                    assert(name_listed(list, names, names[k]) || (list.len() == MAX_RESULTS
                        && scores[list.last() as int] >= scores[k]));
                    if name_listed(list, names, names[k]) {
                    }
                }
            } else if a < p {
                assert(r[a] == d[a]);
                assert(r[a] == list[a]);
            } else {
                assert(r[a] == d[a - 1]);
                assert(r[a] == list[a - 1]);
            }
        }
    } else {
        assert forall|k: int| 0 <= k < i + 1 implies name_listed(r, names, #[trigger] names[k]) || (r.len()
            == MAX_RESULTS && scores[r.last() as int] >= scores[k]) by {
            if k < i {
            }
        }
    }
}

/// Every working list of the selection holds only first entries of their
/// names, and every entry seen is either listed by name or outranked.
proof fn lemma_select_first(names: Seq<Seq<char>>, scores: Seq<u64>, n: int)
    requires
        0 <= n <= names.len(),
        names.len() == scores.len(),
        n <= usize::MAX + 1,
        scores_follow_names(names, scores),
    ensures
        covered(select(names, scores, n), names, scores, n),
        first_occurrences(select(names, scores, n), names),
    decreases n,
{
    if n > 0 {
        lemma_select_first(names, scores, n - 1);
        lemma_select_wf(names, scores, n - 1);
        lemma_select_step_first(select(names, scores, n - 1), names, scores, n - 1);
    }
}

/// A search returns at most fifteen openings, ranked by non-increasing
/// similarity to the query.
pub proof fn lemma_search_bounded_and_ranked(query: Seq<char>, s: Seq<OpeningView>)
    requires
        s.len() <= usize::MAX,
    ensures
        search_result(query, s).len() <= MAX_RESULTS,
        forall|a: int, b: int|
            0 <= a < b < search_result(query, s).len() ==> similarity_of(query, search_result(query, s)[a].name)
                >= similarity_of(query, search_result(query, s)[b].name),
{
    let names = names_of(s);
    let scores = scores_of(query, s);
    lemma_select_wf(names, scores, s.len() as int);
    let sel = select(names, scores, s.len() as int);
    let r = search_result(query, s);
    assert forall|a: int, b: int| 0 <= a < b < r.len() implies similarity_of(query, r[a].name)
        >= similarity_of(query, r[b].name) by {
        assert(scores[sel[a] as int] >= scores[sel[b] as int]);
    }
}

/// A search never returns two openings of one name, and each opening it
/// returns is the first entry of the index with that name.
pub proof fn lemma_search_first_of_each_name(query: Seq<char>, s: Seq<OpeningView>)
    requires
        s.len() <= usize::MAX,
    ensures
        forall|a: int, b: int|
            0 <= a < search_result(query, s).len() && 0 <= b < search_result(query, s).len() && a != b
                ==> search_result(query, s)[a].name != search_result(query, s)[b].name,
        forall|j: int|
            0 <= j < search_result(query, s).len() ==> (first_named(s, (#[trigger] search_result(query, s)[j]).name) matches Some(k)
                && s[k] == search_result(query, s)[j]),
{
    let names = names_of(s);
    let scores = scores_of(query, s);
    lemma_select_wf(names, scores, s.len() as int);
    assert(scores_follow_names(names, scores)) by {
        assert forall|a: int, b: int|
            0 <= a < names.len() && 0 <= b < names.len() && names[a] == names[b] implies scores[a]
                == scores[b] by {
            assert(scores[a] == similarity_of(query, names[a]));
            assert(scores[b] == similarity_of(query, names[b]));
        }
    }
    lemma_select_first(names, scores, s.len() as int);
    let sel = select(names, scores, s.len() as int);
    let r = search_result(query, s);
    assert forall|a: int, b: int| 0 <= a < r.len() && 0 <= b < r.len() && a != b implies r[a].name != r[b].name by {
        assert(names[sel[a] as int] != names[sel[b] as int]);
    }
    assert forall|j: int| 0 <= j < r.len() implies (first_named(s, (#[trigger] r[j]).name) matches Some(k) && s[k] == r[j]) by {
        let m = sel[j] as int;
        let f = |o: OpeningView| o.name == r[j].name;
        lemma_first_from(s, f, 0);
        match first_from(s, f, 0) {
            Some(k) => {
                if k < m {
                    assert(names[k] == s[k].name);
                } else if k > m {
                    assert(f(s[m]));
                }
            },
            None => {
                assert(f(s[m]));
            },
        }
    }
}

/// `w` lists fifteen of the first `n` entries, of distinct names other than
/// that of entry `i`, each scoring at least as much as entry `i`.
pub open spec fn outranked_by(w: Seq<usize>, names: Seq<Seq<char>>, scores: Seq<u64>, n: int, i: int) -> bool {
    &&& w.len() == MAX_RESULTS
    &&& members_below(w, n)
    &&& names_distinct(w, names)
    &&& forall|j: int|
        0 <= j < w.len() ==> names[#[trigger] w[j] as int] != names[i] && scores[w[j] as int] >= scores[i]
}

/// Entry `i` is on the list.
pub open spec fn listed_at(list: Seq<usize>, i: int) -> bool {
    exists|j: int| 0 <= j < list.len() && list[j] as int == i
}

/// An entry that is the first of its name, and that fifteen other names
/// never outrank, enters the list at its step and stays there.
proof fn lemma_select_keeps(names: Seq<Seq<char>>, scores: Seq<u64>, n: int, i: int, m: int)
    requires
        0 <= i < m <= n,
        n <= names.len(),
        names.len() == scores.len(),
        n <= usize::MAX + 1,
        scores_follow_names(names, scores),
        forall|k: int| 0 <= k < i ==> names[k] != names[i],
        forall|w: Seq<usize>| !outranked_by(w, names, scores, n, i),
    ensures
        listed_at(select(names, scores, m), i),
    decreases m,
{
    let list = select(names, scores, m - 1);
    let k = m - 1;
    let r = select(names, scores, m);
    lemma_select_wf(names, scores, m - 1);
    if m - 1 == i {
        lemma_select_first(names, scores, m - 1);
        assert(!name_listed(list, names, names[i])) by {
            if name_listed(list, names, names[i]) {
                let j = choose|j: int| 0 <= j < list.len() && names[list[j] as int] == names[i];
                assert(list[j] < i);
            }
        }
        if list.len() < MAX_RESULTS {
            lemma_insert_ranked(list, names, scores, i);
            assert(r[rank_from(list, scores, scores[i], 0)] as int == i);
        } else if scores[i] > scores[list.last() as int] {
            lemma_insert_ranked(list.drop_last(), names, scores, i);
            assert(r[rank_from(list.drop_last(), scores, scores[i], 0)] as int == i);
        } else {
            assert forall|j: int| 0 <= j < list.len() implies names[#[trigger] list[j] as int] != names[i]
                && scores[list[j] as int] >= scores[i] by {
                assert(list[j] < i);
                if j < list.len() - 1 {
                    assert(scores[list[j] as int] >= scores[list[list.len() - 1] as int]);
                }
            }
            assert(outranked_by(list, names, scores, n, i));
        }
    } else {
        lemma_select_keeps(names, scores, n, i, m - 1);
        let q = choose|q: int| 0 <= q < list.len() && list[q] as int == i;
        if name_listed(list, names, names[k]) {
        } else if list.len() < MAX_RESULTS {
            lemma_insert_ranked(list, names, scores, k);
            let p = rank_from(list, scores, scores[k], 0);
            if q < p {
                assert(r[q] == list[q]);
            } else {
                assert(r[q + 1] == list[q]);
            }
        } else if scores[k] > scores[list.last() as int] {
            let d = list.drop_last();
            assert(!name_listed(d, names, names[k])) by {
                if name_listed(d, names, names[k]) {
                    let j = choose|j: int| 0 <= j < d.len() && names[d[j] as int] == names[k];
                    assert(names[list[j] as int] == names[k]);
                }
            }
            lemma_insert_ranked(d, names, scores, k);
            let p = rank_from(d, scores, scores[k], 0);
            if q < list.len() - 1 {
                if q < p {
                    assert(r[q] == d[q]);
                } else {
                    assert(r[q + 1] == d[q]);
                }
            } else {
                let w = d.push(k as usize);
                assert(names[k] != names[i]) by {
                    assert(names[list[q] as int] == names[i]);
                }
                assert forall|j: int| 0 <= j < w.len() implies names[#[trigger] w[j] as int] != names[i]
                    && scores[w[j] as int] >= scores[i] by {
                    if j < d.len() {
                        assert(w[j] == list[j]);
                        assert(scores[list[j] as int] >= scores[list[q] as int]);
                    }
                }
                assert forall|a: int, b: int|
                    0 <= a < w.len() && 0 <= b < w.len() && a != b implies names[w[a] as int]
                        != names[w[b] as int] by {
                    if a < d.len() && b < d.len() {
                        assert(w[a] == list[a]);
                        assert(w[b] == list[b]);
                    } else if a < d.len() {
                        assert(w[a] == list[a]);
                    } else {
                        assert(w[b] == list[b]);
                    }
                }
                assert(outranked_by(w, names, scores, n, i));
            }
        }
    }
}

/// An opening that is the first of its name appears in the result of a
/// search unless fifteen openings of other, distinct names each match the
/// query at least as well.
pub proof fn lemma_search_keeps_unbeaten(query: Seq<char>, s: Seq<OpeningView>, i: int)
    requires
        s.len() <= usize::MAX,
        0 <= i < s.len(),
        forall|k: int| 0 <= k < i ==> s[k].name != s[i].name,
        forall|w: Seq<usize>| !outranked_by(w, names_of(s), scores_of(query, s), s.len() as int, i),
    ensures
        exists|j: int| 0 <= j < search_result(query, s).len() && search_result(query, s)[j] == s[i],
{
    let names = names_of(s);
    let scores = scores_of(query, s);
    assert(scores_follow_names(names, scores)) by {
        assert forall|a: int, b: int|
            0 <= a < names.len() && 0 <= b < names.len() && names[a] == names[b] implies scores[a]
                == scores[b] by {
            assert(scores[a] == similarity_of(query, names[a]));
            assert(scores[b] == similarity_of(query, names[b]));
        }
    }
    assert forall|k: int| 0 <= k < i implies names[k] != names[i] by {
        assert(names[k] == s[k].name);
    }
    lemma_select_keeps(names, scores, s.len() as int, i, s.len() as int);
    let sel = select(names, scores, s.len() as int);
    let j = choose|j: int| 0 <= j < sel.len() && sel[j] as int == i;
    assert(search_result(query, s)[j] == s[i]);
}

/// Where `rank_from` points: within the list, after every entry from `k`
/// on that scores at least `s`, at one that scores less.
proof fn lemma_rank_bounds(list: Seq<usize>, scores: Seq<u64>, s: u64, k: int)
    requires
        0 <= k <= list.len(),
    ensures
        k <= rank_from(list, scores, s, k) <= list.len(),
        forall|j: int| k <= j < rank_from(list, scores, s, k) ==> scores[list[j] as int] >= s,
        rank_from(list, scores, s, k) < list.len() ==> scores[list[rank_from(list, scores, s, k)] as int] < s,
    decreases list.len() - k,
{
    if k < list.len() && scores[list[k] as int] >= s {
        lemma_rank_bounds(list, scores, s, k + 1);
    }
}

/// Copies an opening.
fn copy_opening(o: &Opening) -> (r: Opening)
    ensures
        r@ == o@,
{
    Opening {
        eco: o.eco.clone(),
        name: o.name.clone(),
        position: o.position.duplicate(),
        pgn: match &o.pgn {
            Some(m) => Some(m.clone()),
            None => None,
        },
    }
}

/// The openings whose names are most like `query`, best first: at most
/// fifteen, one per name, the earliest entry of a name, ties in index order.
/// Fails only on an empty index.
pub fn search_opening_name(index: &OpeningIndex, query: String) -> (r: Result<Vec<Opening>, OpeningError>)
    ensures
        match r {
            Ok(v) => index@.len() > 0 && v@.map_values(|o: Opening| o@) == search_result(query@, index@),
            Err(e) => index@.len() == 0 && e == OpeningError::NoMatchFound,
        },
{
    let openings = index.openings();
    let ghost s = index@;
    let mut names: Vec<String> = Vec::new();
    let mut scores: Vec<u64> = Vec::new();
    let mut i: usize = 0;
    while i < openings.len()
        invariant
            0 <= i <= openings@.len(),
            s == openings@.map_values(|o: Opening| o@),
            names@.len() == i,
            scores@.len() == i,
            names.deep_view() == names_of(s).subrange(0, i as int),
            scores@ == scores_of(query@, s).subrange(0, i as int),
        decreases openings.len() - i,
    {
        assert(s[i as int] == openings@[i as int]@);
        let name = openings[i].name.clone();
        scores.push(similarity(query.as_str(), name.as_str()));
        names.push(name);
        assert(names.deep_view() =~= names_of(s).subrange(0, i + 1));
        assert(scores@ =~= scores_of(query@, s).subrange(0, i + 1));
        i = i + 1;
    }
    assert(names.deep_view() =~= names_of(s));
    assert(scores@ =~= scores_of(query@, s));
    let best = best_matches(&names, &scores);
    proof {
        lemma_select_wf(names_of(s), scores_of(query@, s), s.len() as int);
    }
    if best.len() == 0 {
        proof {
            if s.len() > 0 {
                lemma_select_nonempty(names_of(s), scores_of(query@, s), s.len() as int);
            }
        }
        return Err(OpeningError::NoMatchFound);
    }
    let mut out: Vec<Opening> = Vec::new();
    let mut k: usize = 0;
    while k < best.len()
        invariant
            0 <= k <= best@.len(),
            s == openings@.map_values(|o: Opening| o@),
            best@ == select(names_of(s), scores_of(query@, s), s.len() as int),
            forall|j: int| 0 <= j < best@.len() ==> best@[j] < s.len(),
            out@.len() == k,
            forall|j: int| 0 <= j < k ==> #[trigger] out@[j]@ == s[best@[j] as int],
        decreases best.len() - k,
    {
        assert(s[best@[k as int] as int] == openings@[best@[k as int] as int]@);
        out.push(copy_opening(&openings[best[k]]));
        k = k + 1;
    }
    assert(out@.map_values(|o: Opening| o@) =~= search_result(query@, s));
    Ok(out)
}

} // verus!
