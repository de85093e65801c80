//! Query Engine: read-only operations against a loaded Location Index,
//! with the response shaping the service promises — single-street
//! collapsing, house-number filtering, uniqueness and limit constraints,
//! and nearest-neighbor ranking over precomputed distances.
//!
//! Every response is a typed value; queries always return a response,
//! using an explicit not-found shape rather than an error.

use vstd::prelude::*;
use crate::index::{
    coord_candidates, postal_exact, postal_prefix, street_matches, LocationData,
};
use crate::record::{row_views, Row, RowV};
use crate::strutil::{
    all_digits, contains_string, dedup_lines, dedup_strings, is_digit, last_token, push_char,
    str_all_digits, str_eq, str_last_token, views,
};

verus! {

/// What a postal-code query answers: all matches collapsed into one
/// entry when they share a street, the full list otherwise, or an
/// explicit not-found shape.
pub enum PostalResponse {
    Single { entry: Row, house_numbers: Vec<String>, total_entries: usize },
    Multi { entries: Vec<Row>, total_entries: usize },
    NotFound,
}

/// What a street query answers; an empty query result gives empty
/// entries, a zero total and `consistent_street` false.
pub struct StreetResponse {
    pub entries: Vec<Row>,
    pub house_numbers: Vec<String>,
    pub total_entries: usize,
    pub consistent_street: bool,
}

/// A postal code with its separators removed.
pub open spec fn strip_separators(s: Seq<char>) -> Seq<char> {
    s.filter(|c: char| c != '_' && c != '-' && c != ' ')
}

/// A stripped code of exactly four digits asks for a prefix match.
pub open spec fn is_prefix_query(code: Seq<char>) -> bool {
    code.len() == 4 && all_digits(code)
}

/// The records a postal-code query matches: every record whose postal
/// code starts with a four-digit code, or the exact-code bucket
/// otherwise.
pub open spec fn postal_matches(d: Seq<RowV>, code: Seq<char>) -> Seq<RowV> {
    if is_prefix_query(code) {
        postal_prefix(d, code)
    } else {
        postal_exact(d, code)
    }
}

/// All matches share one street name.
pub open spec fn all_same_street(m: Seq<RowV>) -> bool {
    forall|i: int| 0 <= i < m.len() ==> #[trigger] m[i].street == m[0].street
}

/// The house-number fields of the matches, in order.
pub open spec fn house_numbers_of(m: Seq<RowV>) -> Seq<Seq<char>> {
    m.map_values(|r: RowV| r.house_number)
}

/// Removes the separator characters a postal code may carry.
pub fn strip_postal_separators(s: &str) -> (r: String)
    ensures
        r@ == strip_separators(s@),
{
    let ghost pred = |c: char| c != '_' && c != '-' && c != ' ';
    let n: usize = s.unicode_len();
    let mut out: String = String::new();
    let mut i: usize = 0;
    while i < n
        invariant
            i <= n,
            n == s@.len(),
            pred == (|c: char| c != '_' && c != '-' && c != ' '),
            out@ == s@.take(i as int).filter(pred),
        decreases n - i,
    {
        let c = s.get_char(i);
        proof {
            s@.take(i as int).lemma_filter_push(s@[i as int], pred);
            assert(s@.take(i as int).push(s@[i as int]) =~= s@.take(i + 1));
        }
        if c != '_' && c != '-' && c != ' ' {
            push_char(&mut out, c);
        }
        i = i + 1;
    }
    proof {
        assert(s@.take(n as int) =~= s@);
    }
    out
}

/// Whether every record in the list shares the given street name.
fn streets_all_equal_to(rows: &Vec<Row>, street: &str) -> (r: bool)
    ensures
        r == (forall|i: int|
            0 <= i < rows@.len() ==> (#[trigger] rows@[i])@.street == street@),
{
    let mut i: usize = 0;
    while i < rows.len()
        invariant
            i <= rows@.len(),
            forall|j: int| 0 <= j < i ==> (#[trigger] rows@[j])@.street == street@,
        decreases rows@.len() - i,
    {
        if !str_eq(rows[i].street.as_str(), street) {
            return false;
        }
        i = i + 1;
    }
    true
}

/// The house-number fields of the records, cloned in order.
fn collect_house_numbers(rows: &Vec<Row>) -> (r: Vec<String>)
    ensures
        views(r@) == house_numbers_of(row_views(rows@)),
{
    let mut out: Vec<String> = Vec::new();
    let mut i: usize = 0;
    while i < rows.len()
        invariant
            i <= rows@.len(),
            views(out@) == house_numbers_of(row_views(rows@)).take(i as int),
        decreases rows@.len() - i,
    {
        let ghost prev = out@;
        out.push(rows[i].house_number.clone());
        proof {
            let hs = house_numbers_of(row_views(rows@));
            assert(hs[i as int] == rows@[i as int]@.house_number);
            assert(views(out@) =~= views(prev).push(out@.last()@));
            assert(hs.take(i + 1) =~= hs.take(i as int).push(hs[i as int]));
            assert(views(out@) =~= hs.take(i + 1));
        }
        i = i + 1;
    }
    proof {
        assert(house_numbers_of(row_views(rows@)).take(rows@.len() as int)
            =~= house_numbers_of(row_views(rows@)));
    }
    out
}

/// The records a postal-code query matches, separators stripped: every
/// record under a four-digit prefix, or the exact-code matches.
fn postal_match_rows(data: &LocationData, postal_code: &str) -> (r: Vec<Row>)
    ensures
        row_views(r@) == postal_matches(data@, strip_separators(postal_code@)),
{
    let stripped = strip_postal_separators(postal_code);
    let code: &str = stripped.as_str();
    let is_prefix = stripped.unicode_len() == 4 && str_all_digits(code);
    if is_prefix {
        data.lookup_by_postal_prefix(code)
    } else {
        data.lookup_by_postal_code(code)
    }
}

/// Looks up a postal code: separators are stripped, a four-digit code
/// matches as a prefix, anything else must match exactly; matches that
/// all share one street collapse into a single entry with the list of
/// distinct house numbers, and no match gives the not-found shape.
pub fn query_postal_code(data: &LocationData, postal_code: &str) -> (r: PostalResponse)
    ensures
        ({
            let m = postal_matches(data@, strip_separators(postal_code@));
            match r {
                PostalResponse::NotFound => m.len() == 0,
                PostalResponse::Single { entry, house_numbers, total_entries } => m.len() > 0
                    && all_same_street(m) && entry@ == m[0] && views(house_numbers@)
                    == dedup_lines(house_numbers_of(m)) && total_entries == m.len(),
                PostalResponse::Multi { entries, total_entries } => m.len() > 0
                    && !all_same_street(m) && row_views(entries@) == m && total_entries
                    == m.len(),
            }
        }),
{
    let result = postal_match_rows(data, postal_code);
    let ghost m = postal_matches(data@, strip_separators(postal_code@));
    proof {
        assert(row_views(result@) == m);
    }
    if result.len() == 0 {
        return PostalResponse::NotFound;
    }
    let first_street = result[0].street.clone();
    proof {
        assert(row_views(result@)[0] == result@[0]@);
    }
    if streets_all_equal_to(&result, first_street.as_str()) {
        proof {
            assert forall|i: int| 0 <= i < m.len() implies #[trigger] m[i].street
                == m[0].street by {
                assert(m[i] == result@[i]@);
            }
        }
        let house_numbers = dedup_strings(&collect_house_numbers(&result));
        let total_entries = result.len();
        let mut result = result;
        let entry = result.remove(0);
        proof {
            assert(entry@ == m[0]);
        }
        PostalResponse::Single { entry, house_numbers, total_entries }
    } else {
        proof {
            assert(!all_same_street(m)) by {
                if all_same_street(m) {
                    let i = choose|i: int|
                        0 <= i < result@.len() && !((#[trigger] result@[i])@.street
                            == first_street@);
                    assert(m[i] == result@[i]@);
                    assert(m[i].street == m[0].street);
                }
            }
        }
        let total_entries = result.len();
        PostalResponse::Multi { entries: result, total_entries }
    }
}

/// The street query takes its house-number branch when the query ends in
/// a digit whose last whitespace-separated token is among the matches'
/// house numbers.
pub open spec fn street_hn_branch(d: Seq<RowV>, q: Seq<char>) -> bool {
    let m = street_matches(d, q);
    m.len() > 0 && q.len() > 0 && is_digit(q.last()) && house_numbers_of(m).contains(
        last_token(q),
    )
}

/// The entries a street query answers: every record whose lowercased
/// street contains the lowercased query, narrowed to one house number
/// when the query names one.
pub open spec fn street_entries(d: Seq<RowV>, q: Seq<char>) -> Seq<RowV> {
    let m = street_matches(d, q);
    if street_hn_branch(d, q) {
        m.filter(|r: RowV| r.house_number == last_token(q))
    } else {
        m
    }
}

/// The house-number list of a street response.
pub open spec fn street_house_numbers(d: Seq<RowV>, q: Seq<char>) -> Seq<Seq<char>> {
    let m = street_matches(d, q);
    if m.len() == 0 {
        Seq::<Seq<char>>::empty()
    } else if street_hn_branch(d, q) {
        seq![last_token(q)]
    } else {
        house_numbers_of(m)
    }
}

/// The records are nonempty and all share the first record's street.
pub open spec fn rows_share_a_street(e: Seq<RowV>) -> bool {
    e.len() > 0 && (forall|i: int|
        0 <= i < e.len() ==> (#[trigger] e[i]).street == e[0].street)
}

/// Whether all answered entries share one street name.
pub open spec fn street_consistent(d: Seq<RowV>, q: Seq<char>) -> bool {
    rows_share_a_street(street_entries(d, q))
}

/// Whether the records are nonempty and all share the first record's
/// street name.
fn rows_share_a_street_exec(rows: &Vec<Row>) -> (r: bool)
    ensures
        r == rows_share_a_street(row_views(rows@)),
{
    if rows.len() == 0 {
        return false;
    }
    let first = rows[0].street.clone();
    proof {
        assert(row_views(rows@)[0] == rows@[0]@);
    }
    let all = streets_all_equal_to(rows, first.as_str());
    proof {
        let e = row_views(rows@);
        if all {
            assert forall|i: int| 0 <= i < e.len() implies (#[trigger] e[i]).street
                == e[0].street by {
                assert(e[i] == rows@[i]@);
            }
        } else {
            let i = choose|i: int|
                0 <= i < rows@.len() && !((#[trigger] rows@[i])@.street == first@);
            assert(e[i] == rows@[i]@);
        }
    }
    all
}

/// The records whose house-number field equals the given one, in order.
fn filter_by_house_number(rows: &Vec<Row>, hn: &str) -> (r: Vec<Row>)
    ensures
        row_views(r@) == row_views(rows@).filter(|rv: RowV| rv.house_number == hn@),
{
    let ghost d = row_views(rows@);
    let ghost pred = |rv: RowV| rv.house_number == hn@;
    let mut out: Vec<Row> = Vec::new();
    let mut i: usize = 0;
    while i < rows.len()
        invariant
            i <= rows@.len(),
            d == row_views(rows@),
            pred == (|rv: RowV| rv.house_number == hn@),
            row_views(out@) == d.take(i as int).filter(pred),
        decreases rows@.len() - i,
    {
        let ghost prev = out@;
        proof {
            assert(d[i as int] == rows@[i as int]@);
            assert(d.take(i + 1).drop_last() =~= d.take(i as int));
            d.take(i as int).lemma_filter_push(d[i as int], pred);
            assert(d.take(i as int).push(d[i as int]) =~= d.take(i + 1));
        }
        if str_eq(rows[i].house_number.as_str(), hn) {
            out.push(rows[i].clone());
            proof {
                assert(pred(d[i as int]));
                assert(out@.last()@ == d[i as int]);
                assert(row_views(out@) =~= row_views(prev).push(out@.last()@));
                assert(row_views(out@) =~= d.take(i + 1).filter(pred));
            }
        } else {
            proof {
                assert(!pred(d[i as int]));
                assert(row_views(out@) =~= d.take(i + 1).filter(pred));
            }
        }
        i = i + 1;
    }
    proof {
        assert(d.take(rows@.len() as int) =~= d);
    }
    out
}

/// Searches streets by case-insensitive substring: every matching record
/// is answered, narrowed to one house number when the query ends with
/// one that occurs among the matches; the response always carries the
/// total, the house-number list and whether one street covers it all.
pub fn query_street(data: &LocationData, query: &str) -> (r: StreetResponse)
    ensures
        row_views(r.entries@) == street_entries(data@, query@),
        views(r.house_numbers@) == street_house_numbers(data@, query@),
        r.total_entries == street_entries(data@, query@).len(),
        r.consistent_street == street_consistent(data@, query@),
{
    let result = data.search_by_street(query);
    if result.len() == 0 {
        let resp = StreetResponse {
            entries: Vec::new(),
            house_numbers: Vec::new(),
            total_entries: 0,
            consistent_street: false,
        };
        proof {
            assert(row_views(resp.entries@) =~= street_entries(data@, query@));
            assert(views(resp.house_numbers@) =~= street_house_numbers(data@, query@));
        }
        return resp;
    }
    let house_numbers = collect_house_numbers(&result);
    let ql: usize = query.unicode_len();
    let mut branch: bool = false;
    let mut tok: String = String::new();
    if ql > 0 {
        let u: u32 = query.get_char(ql - 1) as u32;
        if u >= 48 && u <= 57 {
            proof {
                assert(is_digit(query@.last()));
            }
            tok = str_last_token(query);
            branch = contains_string(&house_numbers, tok.as_str());
        }
    }
    proof {
        assert(branch == street_hn_branch(data@, query@));
    }
    if branch {
        let filtered = filter_by_house_number(&result, tok.as_str());
        proof {
            assert(row_views(filtered@) == street_entries(data@, query@));
        }
        let consistent = rows_share_a_street_exec(&filtered);
        let total_entries = filtered.len();
        let mut hn_list: Vec<String> = Vec::new();
        hn_list.push(tok);
        proof {
            assert(views(hn_list@) =~= street_house_numbers(data@, query@));
        }
        StreetResponse {
            entries: filtered,
            house_numbers: hn_list,
            total_entries,
            consistent_street: consistent,
        }
    } else {
        proof {
            assert(row_views(result@) == street_entries(data@, query@));
        }
        let consistent = rows_share_a_street_exec(&result);
        let total_entries = result.len();
        StreetResponse {
            entries: result,
            house_numbers,
            total_entries,
            consistent_street: consistent,
        }
    }
}

/// One nearest-neighbor result: a record and its distance key. The key
/// is an order-preserving encoding of the great-circle distance that the
/// caller computed for the record.
pub struct CoordMatch {
    pub entry: Row,
    pub distance: u64,
}

/// What a coordinate query answers: at most one hundred records, nearest
/// first, at most one per distinct street name.
pub struct CoordResponse {
    pub entries: Vec<CoordMatch>,
    pub total_entries: usize,
}

/// Strict order on (distance, candidate position) pairs: by distance,
/// ties by the candidate's position, which makes the sort stable.
pub open spec fn key_lt(a: (u64, usize), b: (u64, usize)) -> bool {
    a.0 < b.0 || (a.0 == b.0 && a.1 < b.1)
}

pub open spec fn key_le(a: (u64, usize), b: (u64, usize)) -> bool {
    !key_lt(b, a)
}

pub open spec fn pairs_sorted(s: Seq<(u64, usize)>) -> bool {
    forall|i: int, j: int| 0 <= i < j < s.len() ==> key_le(#[trigger] s[i], #[trigger] s[j])
}

/// Inserting a pair in front of the first strictly greater element.
pub open spec fn insert_pair(p: (u64, usize), s: Seq<(u64, usize)>) -> Seq<(u64, usize)>
    decreases s.len(),
{
    if s.len() == 0 {
        seq![p]
    } else if key_lt(p, s[0]) {
        seq![p] + s
    } else {
        seq![s[0]] + insert_pair(p, s.drop_first())
    }
}

/// Insertion sort of the pairs.
pub open spec fn sort_pairs_spec(s: Seq<(u64, usize)>) -> Seq<(u64, usize)>
    decreases s.len(),
{
    if s.len() == 0 {
        s
    } else {
        insert_pair(s.last(), sort_pairs_spec(s.drop_last()))
    }
}

/// First-seen street deduplication over ranked pairs: a pair is kept
/// exactly when no earlier pair carried the same street name.
pub open spec fn dedup_streets(
    s: Seq<(u64, usize)>,
    cv: Seq<RowV>,
    seen: Set<Seq<char>>,
) -> Seq<(u64, usize)>
    decreases s.len(),
{
    if s.len() == 0 {
        Seq::<(u64, usize)>::empty()
    } else if seen.contains(cv[s[0].1 as int].street) {
        dedup_streets(s.drop_first(), cv, seen)
    } else {
        seq![s[0]] + dedup_streets(s.drop_first(), cv, seen.insert(cv[s[0].1 as int].street))
    }
}

/// The distance pairs of a coordinate query: one per candidate record,
/// in candidate order.
pub open spec fn spec_coord_pairs(d: Seq<RowV>, dists: Seq<u64>) -> Seq<(u64, usize)> {
    Seq::new(coord_candidates(d).len(), |i: int| (dists[i], i as usize))
}

/// The ranking a coordinate query answers: pairs sorted by distance
/// (ties by candidate order), one per distinct street, capped at one
/// hundred.
pub open spec fn spec_coord_ranking(d: Seq<RowV>, dists: Seq<u64>) -> Seq<(u64, usize)> {
    let deduped = dedup_streets(
        sort_pairs_spec(spec_coord_pairs(d, dists)),
        coord_candidates(d),
        Set::<Seq<char>>::empty(),
    );
    if deduped.len() > 100 {
        deduped.take(100)
    } else {
        deduped
    }
}

/// `insert_pair` at the position the executable search finds: before the
/// first element the pair is strictly less than.
proof fn lemma_insert_pair_at(p: (u64, usize), s: Seq<(u64, usize)>, j: int)
    requires
        0 <= j <= s.len(),
        forall|t: int| 0 <= t < j ==> !key_lt(p, #[trigger] s[t]),
        j == s.len() || key_lt(p, s[j]),
    ensures
        insert_pair(p, s) == s.take(j) + seq![p] + s.skip(j),
    decreases j,
{
    if j == 0 {
        if s.len() == 0 {
            assert(insert_pair(p, s) =~= s.take(0) + seq![p] + s.skip(0));
        } else {
            assert(key_lt(p, s[0]));
            assert(insert_pair(p, s) =~= s.take(0) + seq![p] + s.skip(0));
        }
    } else {
        assert(!key_lt(p, s[0]));
        lemma_insert_pair_at(p, s.drop_first(), j - 1);
        assert(s.drop_first().take(j - 1) =~= s.take(j).drop_first());
        assert(seq![s[0]] + (s.drop_first().take(j - 1) + seq![p] + s.drop_first().skip(j - 1))
            =~= s.take(j) + seq![p] + s.skip(j));
    }
}

/// Inserting keeps the pairs sorted, adds one element, and adds nothing
/// but the inserted pair.
proof fn lemma_insert_pair_props(p: (u64, usize), s: Seq<(u64, usize)>)
    requires
        pairs_sorted(s),
    ensures
        pairs_sorted(insert_pair(p, s)),
        insert_pair(p, s).len() == s.len() + 1,
        forall|k: int|
            0 <= k < insert_pair(p, s).len() ==> (#[trigger] insert_pair(p, s)[k] == p
                || s.contains(insert_pair(p, s)[k])),
    decreases s.len(),
{
    let out = insert_pair(p, s);
    if s.len() == 0 {
    } else if key_lt(p, s[0]) {
        assert forall|i: int, j: int| 0 <= i < j < out.len() implies key_le(
            #[trigger] out[i],
            #[trigger] out[j],
        ) by {
            if i == 0 {
                assert(out[j] == s[j - 1]);
                if j > 1 {
                    assert(key_le(s[0], s[j - 1]));
                }
            } else {
                assert(out[i] == s[i - 1] && out[j] == s[j - 1]);
            }
        }
        assert forall|k: int| 0 <= k < out.len() implies (#[trigger] out[k] == p || s.contains(
            out[k],
        )) by {
            if k > 0 {
                assert(out[k] == s[k - 1]);
            }
        }
    } else {
        let rest = s.drop_first();
        assert(pairs_sorted(rest)) by {
            assert(forall|i: int, j: int|
                0 <= i < j < rest.len() ==> key_le(#[trigger] rest[i], #[trigger] rest[j]))
                by {
                assert(forall|i: int, j: int|
                    0 <= i < j < rest.len() ==> rest[i] == s[i + 1] && rest[j] == s[j + 1]);
            }
        }
        lemma_insert_pair_props(p, rest);
        let sub = insert_pair(p, rest);
        assert forall|i: int, j: int| 0 <= i < j < out.len() implies key_le(
            #[trigger] out[i],
            #[trigger] out[j],
        ) by {
            if i == 0 {
                assert(out[j] == sub[j - 1]);
                if sub[j - 1] == p {
                    assert(key_le(s[0], p));
                } else {
                    assert(rest.contains(sub[j - 1]));
                    let t = choose|t: int| 0 <= t < rest.len() && rest[t] == sub[j - 1];
                    assert(s[t + 1] == sub[j - 1]);
                    if s.len() > 1 {
                        assert(key_le(s[0], s[t + 1]));
                    }
                }
            } else {
                assert(out[i] == sub[i - 1] && out[j] == sub[j - 1]);
            }
        }
        assert forall|k: int| 0 <= k < out.len() implies (#[trigger] out[k] == p || s.contains(
            out[k],
        )) by {
            if k == 0 {
                assert(s[0] == out[0]);
                assert(s.contains(s[0]));
            } else {
                assert(out[k] == sub[k - 1]);
                if sub[k - 1] != p {
                    assert(rest.contains(sub[k - 1]));
                    let t = choose|t: int| 0 <= t < rest.len() && rest[t] == sub[k - 1];
                    assert(s[t + 1] == sub[k - 1]);
                    assert(s.contains(s[t + 1]));
                }
            }
        }
    }
}

/// The insertion sort yields a sorted sequence of the same length whose
/// elements all come from the input.
pub proof fn lemma_sort_pairs_props(s: Seq<(u64, usize)>)
    ensures
        pairs_sorted(sort_pairs_spec(s)),
        sort_pairs_spec(s).len() == s.len(),
        forall|k: int|
            0 <= k < sort_pairs_spec(s).len() ==> s.contains(#[trigger] sort_pairs_spec(s)[k]),
    decreases s.len(),
{
    if s.len() > 0 {
        lemma_sort_pairs_props(s.drop_last());
        lemma_insert_pair_props(s.last(), sort_pairs_spec(s.drop_last()));
        assert forall|k: int| 0 <= k < sort_pairs_spec(s).len() implies s.contains(
            #[trigger] sort_pairs_spec(s)[k],
        ) by {
            let x = sort_pairs_spec(s)[k];
            if x == s.last() {
                assert(s[s.len() - 1] == x);
            } else {
                assert(sort_pairs_spec(s.drop_last()).contains(x));
                let t = choose|t: int|
                    0 <= t < sort_pairs_spec(s.drop_last()).len() && sort_pairs_spec(
                        s.drop_last(),
                    )[t] == x;
                assert(s.drop_last().contains(x));
                let u = choose|u: int| 0 <= u < s.drop_last().len() && s.drop_last()[u] == x;
                assert(s[u] == x);
            }
        }
    }
}

/// Street deduplication keeps the order (so a sorted input stays
/// sorted), keeps only elements of the input, and keeps at most one pair
/// per street, none with a street already seen.
pub proof fn lemma_dedup_props(s: Seq<(u64, usize)>, cv: Seq<RowV>, seen: Set<Seq<char>>)
    requires
        pairs_sorted(s),
    ensures
        pairs_sorted(dedup_streets(s, cv, seen)),
        forall|k: int|
            0 <= k < dedup_streets(s, cv, seen).len() ==> s.contains(
                #[trigger] dedup_streets(s, cv, seen)[k],
            ),
        forall|k: int|
            0 <= k < dedup_streets(s, cv, seen).len() ==> !seen.contains(
                cv[(#[trigger] dedup_streets(s, cv, seen)[k]).1 as int].street,
            ),
        forall|i: int, j: int|
            0 <= i < j < dedup_streets(s, cv, seen).len() ==> cv[(#[trigger] dedup_streets(
                s,
                cv,
                seen,
            )[i]).1 as int].street != cv[(#[trigger] dedup_streets(s, cv, seen)[j]).1
                as int].street,
    decreases s.len(),
{
    if s.len() == 0 {
    } else {
        let rest = s.drop_first();
        assert(pairs_sorted(rest)) by {
            assert(forall|i: int, j: int|
                0 <= i < j < rest.len() ==> rest[i] == s[i + 1] && rest[j] == s[j + 1]);
        }
        let st0 = cv[s[0].1 as int].street;
        if seen.contains(st0) {
            lemma_dedup_props(rest, cv, seen);
            let out = dedup_streets(s, cv, seen);
            assert forall|k: int| 0 <= k < out.len() implies s.contains(#[trigger] out[k]) by {
                assert(rest.contains(out[k]));
                let t = choose|t: int| 0 <= t < rest.len() && rest[t] == out[k];
                assert(s[t + 1] == out[k]);
            }
        } else {
            lemma_dedup_props(rest, cv, seen.insert(st0));
            let sub = dedup_streets(rest, cv, seen.insert(st0));
            let out = dedup_streets(s, cv, seen);
            assert(out == seq![s[0]] + sub);
            assert forall|k: int| 0 <= k < out.len() implies s.contains(#[trigger] out[k]) by {
                if k == 0 {
                    assert(s[0] == out[0]);
                } else {
                    assert(out[k] == sub[k - 1]);
                    assert(rest.contains(sub[k - 1]));
                    let t = choose|t: int| 0 <= t < rest.len() && rest[t] == sub[k - 1];
                    assert(s[t + 1] == sub[k - 1]);
                }
            }
            assert forall|i: int, j: int| 0 <= i < j < out.len() implies key_le(
                #[trigger] out[i],
                #[trigger] out[j],
            ) by {
                if i == 0 {
                    assert(out[j] == sub[j - 1]);
                    assert(rest.contains(sub[j - 1]));
                    let t = choose|t: int| 0 <= t < rest.len() && rest[t] == sub[j - 1];
                    assert(s[t + 1] == sub[j - 1]);
                    assert(key_le(s[0], s[t + 1]));
                } else {
                    assert(out[i] == sub[i - 1] && out[j] == sub[j - 1]);
                }
            }
            assert forall|k: int| 0 <= k < out.len() implies !seen.contains(
                cv[(#[trigger] out[k]).1 as int].street,
            ) by {
                if k > 0 {
                    assert(out[k] == sub[k - 1]);
                    assert(!seen.insert(st0).contains(cv[sub[k - 1].1 as int].street));
                }
            }
            assert forall|i: int, j: int| 0 <= i < j < out.len() implies cv[(
            #[trigger] out[i]).1 as int].street != cv[(#[trigger] out[j]).1 as int].street by {
                if i == 0 {
                    assert(out[j] == sub[j - 1]);
                    assert(!seen.insert(st0).contains(cv[sub[j - 1].1 as int].street));
                } else {
                    assert(out[i] == sub[i - 1] && out[j] == sub[j - 1]);
                }
            }
        }
    }
}

fn key_lt_exec(a: (u64, usize), b: (u64, usize)) -> (r: bool)
    ensures
        r == key_lt(a, b),
{
    a.0 < b.0 || (a.0 == b.0 && a.1 < b.1)
}

/// Ranks the coordinate candidates by the distances the caller computed,
/// one distance per candidate in candidate order: nearest first, ties in
/// candidate order, at most one entry per distinct street name, at most
/// one hundred entries. The distance keys must order the candidates as
/// their great-circle distances do; any monotone integer encoding
/// serves.
pub fn query_by_coordinates(data: &LocationData, distances: &Vec<u64>) -> (r: CoordResponse)
    requires
        distances@.len() == coord_candidates(data@).len(),
    ensures
        r.total_entries == r.entries@.len(),
        r.entries@.len() == spec_coord_ranking(data@, distances@).len(),
        forall|k: int|
            0 <= k < r.entries@.len() ==> (#[trigger] r.entries@[k]).distance
                == spec_coord_ranking(data@, distances@)[k].0 && r.entries@[k].entry@
                == coord_candidates(data@)[spec_coord_ranking(data@, distances@)[k].1 as int],
        r.entries@.len() <= 100,
        forall|i: int, j: int|
            0 <= i < j < r.entries@.len() ==> (#[trigger] r.entries@[i]).distance <= (
            #[trigger] r.entries@[j]).distance,
        forall|i: int, j: int|
            0 <= i < j < r.entries@.len() ==> (#[trigger] r.entries@[i]).entry@.street != (
            #[trigger] r.entries@[j]).entry@.street,
{
    let cands = data.coordinate_candidates();
    let ghost cv = coord_candidates(data@);
    let n: usize = cands.len();
    let ghost gpairs = spec_coord_pairs(data@, distances@);
    proof {
        assert(row_views(cands@) == cv);
        assert(n == cv.len());
        assert(gpairs.len() == n);
    }
    let mut pairs: Vec<(u64, usize)> = Vec::new();
    let mut i: usize = 0;
    while i < n
        invariant
            i <= n,
            n == cv.len(),
            n == distances@.len(),
            gpairs == spec_coord_pairs(data@, distances@),
            gpairs.len() == n,
            pairs@ == gpairs.take(i as int),
        decreases n - i,
    {
        pairs.push((distances[i], i));
        proof {
            assert(gpairs[i as int] == (distances@[i as int], i as usize));
            assert(pairs@ =~= gpairs.take(i + 1));
        }
        i = i + 1;
    }
    proof {
        assert(gpairs.take(n as int) =~= gpairs);
    }
    let mut sorted: Vec<(u64, usize)> = Vec::new();
    let mut s: usize = 0;
    while s < pairs.len()
        invariant
            s <= pairs@.len(),
            pairs@ == gpairs,
            gpairs == spec_coord_pairs(data@, distances@),
            n == cv.len(),
            gpairs.len() == n,
            sorted@ == sort_pairs_spec(pairs@.take(s as int)),
            forall|k: int| 0 <= k < sorted@.len() ==> (#[trigger] sorted@[k]).1 < n,
        decreases pairs@.len() - s,
    {
        let p = pairs[s];
        proof {
            assert(gpairs[s as int] == (distances@[s as int], s as usize));
            assert(p.1 < n);
        }
        let mut j: usize = 0;
        while j < sorted.len() && !key_lt_exec(p, sorted[j])
            invariant
                j <= sorted@.len(),
                forall|t: int| 0 <= t < j ==> !key_lt(p, #[trigger] sorted@[t]),
            decreases sorted@.len() - j,
        {
            j = j + 1;
        }
        let ghost olds = sorted@;
        sorted.insert(j, p);
        proof {
            lemma_insert_pair_at(p, olds, j as int);
            assert(olds.insert(j as int, p) =~= olds.take(j as int) + seq![p] + olds.skip(
                j as int,
            ));
            assert(sorted@ == insert_pair(p, olds));
            assert(pairs@.take(s + 1).drop_last() =~= pairs@.take(s as int));
            assert(pairs@.take(s + 1).last() == p);
            assert(sorted@ == sort_pairs_spec(pairs@.take(s + 1)));
            assert forall|k: int| 0 <= k < sorted@.len() implies (#[trigger] sorted@[k]).1
                < n by {
                if k < j {
                    assert(sorted@[k] == olds[k]);
                } else if k > j {
                    assert(sorted@[k] == olds[k - 1]);
                }
            }
        }
        s = s + 1;
    }
    proof {
        assert(pairs@.take(pairs@.len() as int) =~= pairs@);
    }
    let ghost ranked = sort_pairs_spec(gpairs);
    let mut picked: Vec<(u64, usize)> = Vec::new();
    let mut seen: Vec<String> = Vec::new();
    proof {
        assert(ranked.skip(0) =~= ranked);
        assert(views(seen@).to_set() =~= Set::<Seq<char>>::empty()) by {
            assert(views(seen@).len() == 0);
        }
        assert(picked@ + dedup_streets(ranked, cv, Set::<Seq<char>>::empty()) =~= dedup_streets(
            ranked,
            cv,
            Set::<Seq<char>>::empty(),
        ));
    }
    let mut t: usize = 0;
    while t < sorted.len()
        invariant
            t <= sorted@.len(),
            sorted@ == ranked,
            ranked == sort_pairs_spec(gpairs),
            cv == coord_candidates(data@),
            n == cv.len(),
            cands@.len() == n,
            row_views(cands@) == cv,
            forall|k: int| 0 <= k < sorted@.len() ==> (#[trigger] sorted@[k]).1 < n,
            forall|k: int| 0 <= k < picked@.len() ==> (#[trigger] picked@[k]).1 < n,
            dedup_streets(ranked, cv, Set::<Seq<char>>::empty()) == picked@ + dedup_streets(
                ranked.skip(t as int),
                cv,
                views(seen@).to_set(),
            ),
        decreases sorted@.len() - t,
    {
        let p = sorted[t];
        let street: &String = &cands[p.1].street;
        proof {
            assert(cands@[p.1 as int]@ == cv[p.1 as int]);
            assert(street@ == cv[p.1 as int].street);
            assert(ranked.skip(t as int)[0] == ranked[t as int]);
            assert(ranked.skip(t as int).drop_first() =~= ranked.skip(t + 1));
        }
        let ghost seen_set = views(seen@).to_set();
        if contains_string(&seen, street.as_str()) {
            proof {
                assert(seen_set.contains(street@));
                assert(dedup_streets(ranked.skip(t as int), cv, seen_set) == dedup_streets(
                    ranked.skip(t + 1),
                    cv,
                    seen_set,
                ));
            }
        } else {
            let ghost prev_picked = picked@;
            let ghost prev_seen = seen@;
            picked.push(p);
            seen.push(street.clone());
            proof {
                assert(!seen_set.contains(street@));
                assert(dedup_streets(ranked.skip(t as int), cv, seen_set) == seq![
                    ranked[t as int],
                ] + dedup_streets(ranked.skip(t + 1), cv, seen_set.insert(street@)));
                assert(seen@ == prev_seen.push(seen@.last()));
                assert(seen@.last()@ == street@);
                assert(views(seen@) =~= views(prev_seen).push(street@));
                assert(views(seen@).to_set() =~= seen_set.insert(street@)) by {
                    assert forall|x: Seq<char>| views(seen@).to_set().contains(x) implies
                        seen_set.insert(street@).contains(x) by {
                        let u = choose|u: int|
                            0 <= u < views(seen@).len() && views(seen@)[u] == x;
                        if u < views(prev_seen).len() {
                            assert(views(prev_seen)[u] == x);
                        }
                    }
                    assert forall|x: Seq<char>| seen_set.insert(street@).contains(x) implies
                        views(seen@).to_set().contains(x) by {
                        if x == street@ {
                            assert(views(seen@)[views(seen@).len() - 1] == x);
                        } else {
                            let u = choose|u: int|
                                0 <= u < views(prev_seen).len() && views(prev_seen)[u] == x;
                            assert(views(seen@)[u] == x);
                        }
                    }
                }
                assert(picked@ + dedup_streets(ranked.skip(t + 1), cv, views(seen@).to_set())
                    =~= prev_picked + dedup_streets(ranked.skip(t as int), cv, seen_set));
            }
        }
        t = t + 1;
    }
    proof {
        assert(ranked.skip(sorted@.len() as int) =~= Seq::<(u64, usize)>::empty());
        assert(picked@ + dedup_streets(
            ranked.skip(sorted@.len() as int),
            cv,
            views(seen@).to_set(),
        ) =~= picked@);
        lemma_sort_pairs_props(gpairs);
        lemma_dedup_props(ranked, cv, Set::<Seq<char>>::empty());
    }
    let ghost deduped = dedup_streets(ranked, cv, Set::<Seq<char>>::empty());
    if picked.len() > 100 {
        picked.truncate(100);
        proof {
            assert(picked@ =~= deduped.take(100));
        }
    }
    let ghost fin = spec_coord_ranking(data@, distances@);
    proof {
        assert(picked@ == fin);
    }
    let mut entries: Vec<CoordMatch> = Vec::new();
    let mut k: usize = 0;
    while k < picked.len()
        invariant
            k <= picked@.len(),
            picked@ == fin,
            n == cv.len(),
            cands@.len() == n,
            row_views(cands@) == cv,
            forall|u: int| 0 <= u < picked@.len() ==> (#[trigger] picked@[u]).1 < n,
            entries@.len() == k,
            forall|u: int|
                0 <= u < k ==> (#[trigger] entries@[u]).distance == picked@[u].0
                    && entries@[u].entry@ == cv[picked@[u].1 as int],
        decreases picked@.len() - k,
    {
        let p = picked[k];
        entries.push(CoordMatch { entry: cands[p.1].clone(), distance: p.0 });
        proof {
            assert(cands@[p.1 as int]@ == cv[p.1 as int]);
        }
        k = k + 1;
    }
    let total_entries = entries.len();
    proof {
        lemma_sort_pairs_props(gpairs);
        lemma_dedup_props(ranked, cv, Set::<Seq<char>>::empty());
        assert(fin.len() <= 100);
        assert forall|a: int, b: int| 0 <= a < b < entries@.len() implies (
        #[trigger] entries@[a]).distance <= (#[trigger] entries@[b]).distance by {
            assert(fin[a] == deduped[a] && fin[b] == deduped[b]);
            assert(key_le(deduped[a], deduped[b]));
        }
        assert forall|a: int, b: int| 0 <= a < b < entries@.len() implies (
        #[trigger] entries@[a]).entry@.street != (#[trigger] entries@[b]).entry@.street by {
            assert(fin[a] == deduped[a] && fin[b] == deduped[b]);
            assert(cv[deduped[a].1 as int].street != cv[deduped[b].1 as int].street);
        }
    }
    CoordResponse { entries, total_entries }
}

/// The parameters of a combined search.
pub struct SearchParams {
    pub postal_code: Option<String>,
    pub street: Option<String>,
    pub house_number: Option<String>,
    pub limit: usize,
    pub unique_street_only: bool,
}

/// What a combined search answers: whichever of the two sub-queries
/// matched anything, after shared shaping.
pub struct SearchResponse {
    pub postal_code: Option<PostalResponse>,
    pub street: Option<StreetResponse>,
}

impl SearchResponse {
    /// Whether either side matched: a combined search reports not-found
    /// only when both sides are empty.
    pub fn found(&self) -> (r: bool)
        ensures
            r == (self.postal_code.is_some() || self.street.is_some()),
    {
        self.postal_code.is_some() || self.street.is_some()
    }
}

/// The view of an optional parameter.
pub open spec fn opt_view(o: Option<String>) -> Option<Seq<char>> {
    match o {
        Some(s) => Some(s@),
        None => None,
    }
}

/// First-seen street deduplication over records.
pub open spec fn dedup_rows_by_street(s: Seq<RowV>, seen: Set<Seq<char>>) -> Seq<RowV>
    decreases s.len(),
{
    if s.len() == 0 {
        Seq::<RowV>::empty()
    } else if seen.contains(s[0].street) {
        dedup_rows_by_street(s.drop_first(), seen)
    } else {
        seq![s[0]] + dedup_rows_by_street(s.drop_first(), seen.insert(s[0].street))
    }
}

/// The entry-list shaping a combined search applies to both sides: one
/// record per street when asked, then truncation to the limit.
pub open spec fn shaped_entries(entries: Seq<RowV>, unique: bool, limit: int) -> Seq<RowV> {
    let e1 = if unique {
        dedup_rows_by_street(entries, Set::<Seq<char>>::empty())
    } else {
        entries
    };
    if e1.len() > limit {
        e1.take(limit)
    } else {
        e1
    }
}

/// The postal side of a combined search, after shaping.
pub enum PostalSideSpec {
    Nothing,
    Single { entry: RowV, house_numbers: Seq<Seq<char>>, total: int },
    Multi { entries: Seq<RowV>, total: int },
}

/// The postal-side match set of a combined search: the postal matches,
/// restricted to the requested house number when one is given.
pub open spec fn postal_side_matches(
    d: Seq<RowV>,
    code: Seq<char>,
    hn: Option<Seq<char>>,
) -> Seq<RowV> {
    let m0 = postal_matches(d, strip_separators(code));
    match hn {
        Some(h) => m0.filter(|r: RowV| r.house_number == h),
        None => m0,
    }
}

/// What the postal side of a combined search contributes: a requested
/// house number restricts the matches first; restricted matches that all
/// share one street collapse into a single entry with the distinct house
/// numbers, anything else is answered as the shaped list; the reported
/// total counts the restricted matches.
pub open spec fn postal_side(
    d: Seq<RowV>,
    code: Seq<char>,
    hn: Option<Seq<char>>,
    unique: bool,
    limit: int,
) -> PostalSideSpec {
    let m = postal_side_matches(d, code, hn);
    if m.len() == 0 {
        PostalSideSpec::Nothing
    } else if rows_share_a_street(m) {
        PostalSideSpec::Single {
            entry: m[0],
            house_numbers: dedup_lines(house_numbers_of(m)),
            total: m.len() as int,
        }
    } else {
        let shaped = shaped_entries(m, unique, limit);
        if shaped.len() == 0 {
            PostalSideSpec::Nothing
        } else {
            PostalSideSpec::Multi { entries: shaped, total: m.len() as int }
        }
    }
}

/// The street-side match set of a combined search: the street query's
/// entries, restricted to the requested house number when one is given.
pub open spec fn street_side_matches(
    d: Seq<RowV>,
    q: Seq<char>,
    hn: Option<Seq<char>>,
) -> Seq<RowV> {
    let e0 = street_entries(d, q);
    match hn {
        Some(h) => e0.filter(|r: RowV| r.house_number == h),
        None => e0,
    }
}

/// One record per distinct street name, first seen wins.
fn dedup_rows_exec(rows: &Vec<Row>) -> (r: Vec<Row>)
    ensures
        row_views(r@) == dedup_rows_by_street(row_views(rows@), Set::<Seq<char>>::empty()),
{
    let ghost d = row_views(rows@);
    let mut out: Vec<Row> = Vec::new();
    let mut seen: Vec<String> = Vec::new();
    proof {
        assert(d.skip(0) =~= d);
        assert(views(seen@).to_set() =~= Set::<Seq<char>>::empty()) by {
            assert(views(seen@).len() == 0);
        }
        assert(row_views(out@) + dedup_rows_by_street(d, Set::<Seq<char>>::empty())
            =~= dedup_rows_by_street(d, Set::<Seq<char>>::empty()));
    }
    let mut t: usize = 0;
    while t < rows.len()
        invariant
            t <= rows@.len(),
            d == row_views(rows@),
            dedup_rows_by_street(d, Set::<Seq<char>>::empty()) == row_views(out@)
                + dedup_rows_by_street(d.skip(t as int), views(seen@).to_set()),
        decreases rows@.len() - t,
    {
        let street: &String = &rows[t].street;
        proof {
            assert(d[t as int] == rows@[t as int]@);
            assert(street@ == d[t as int].street);
            assert(d.skip(t as int)[0] == d[t as int]);
            assert(d.skip(t as int).drop_first() =~= d.skip(t + 1));
        }
        let ghost seen_set = views(seen@).to_set();
        if contains_string(&seen, street.as_str()) {
            proof {
                assert(seen_set.contains(street@));
                assert(dedup_rows_by_street(d.skip(t as int), seen_set) == dedup_rows_by_street(
                    d.skip(t + 1),
                    seen_set,
                ));
            }
        } else {
            let ghost prev_out = out@;
            let ghost prev_seen = seen@;
            out.push(rows[t].clone());
            seen.push(street.clone());
            proof {
                assert(!seen_set.contains(street@));
                assert(dedup_rows_by_street(d.skip(t as int), seen_set) == seq![d[t as int]]
                    + dedup_rows_by_street(d.skip(t + 1), seen_set.insert(street@)));
                assert(seen@ == prev_seen.push(seen@.last()));
                assert(views(seen@) =~= views(prev_seen).push(street@));
                assert(views(seen@).to_set() =~= seen_set.insert(street@)) by {
                    assert forall|x: Seq<char>| views(seen@).to_set().contains(x) implies
                        seen_set.insert(street@).contains(x) by {
                        let u = choose|u: int|
                            0 <= u < views(seen@).len() && views(seen@)[u] == x;
                        if u < views(prev_seen).len() {
                            assert(views(prev_seen)[u] == x);
                        }
                    }
                    assert forall|x: Seq<char>| seen_set.insert(street@).contains(x) implies
                        views(seen@).to_set().contains(x) by {
                        if x == street@ {
                            assert(views(seen@)[views(seen@).len() - 1] == x);
                        } else {
                            let u = choose|u: int|
                                0 <= u < views(prev_seen).len() && views(prev_seen)[u] == x;
                            assert(views(seen@)[u] == x);
                        }
                    }
                }
                assert(row_views(out@) =~= row_views(prev_out).push(d[t as int]));
                assert(row_views(out@) + dedup_rows_by_street(
                    d.skip(t + 1),
                    views(seen@).to_set(),
                ) =~= row_views(prev_out) + dedup_rows_by_street(d.skip(t as int), seen_set));
            }
        }
        t = t + 1;
    }
    proof {
        assert(d.skip(rows@.len() as int) =~= Seq::<RowV>::empty());
        assert(row_views(out@) + dedup_rows_by_street(
            d.skip(rows@.len() as int),
            views(seen@).to_set(),
        ) =~= row_views(out@));
    }
    out
}

/// Runs the postal and the street query together under shared limit,
/// house-number and uniqueness parameters — a supplied house number
/// restricts both sides to records with exactly that number — and keeps
/// whichever side still has something to show.
pub fn search(data: &LocationData, params: &SearchParams) -> (r: SearchResponse)
    ensures
        ({
            let hn = opt_view(params.house_number);
            match params.postal_code {
                None => r.postal_code is None,
                Some(pc) => {
                    let side = postal_side(
                        data@,
                        pc@,
                        hn,
                        params.unique_street_only,
                        params.limit as int,
                    );
                    match r.postal_code {
                        None => side is Nothing,
                        Some(pr) => match pr {
                            PostalResponse::Single { entry, house_numbers, total_entries } => side
                                == (PostalSideSpec::Single {
                                entry: entry@,
                                house_numbers: views(house_numbers@),
                                total: total_entries as int,
                            }),
                            PostalResponse::Multi { entries, total_entries } => side == (
                            PostalSideSpec::Multi {
                                entries: row_views(entries@),
                                total: total_entries as int,
                            }),
                            PostalResponse::NotFound => false,
                        },
                    }
                },
            }
        }),
        ({
            let hn = opt_view(params.house_number);
            match params.street {
                None => r.street is None,
                Some(stq) => {
                    let e1 = street_side_matches(data@, stq@, hn);
                    let e2 = shaped_entries(e1, params.unique_street_only, params.limit as int);
                    match r.street {
                        None => e2.len() == 0,
                        Some(sr) => e2.len() > 0 && row_views(sr.entries@) == e2
                            && sr.total_entries == e1.len() && views(sr.house_numbers@) == (
                        match hn {
                            Some(h) => seq![h],
                            None => street_house_numbers(data@, stq@),
                        }) && sr.consistent_street == (match hn {
                            Some(_) => rows_share_a_street(e1),
                            None => street_consistent(data@, stq@),
                        }),
                    }
                },
            }
        }),
{
    let ghost hn = opt_view(params.house_number);
    let postal_out: Option<PostalResponse> = match &params.postal_code {
        None => None,
        Some(pc) => {
            let m0 = postal_match_rows(data, pc.as_str());
            let m1: Vec<Row> = match &params.house_number {
                Some(h) => filter_by_house_number(&m0, h.as_str()),
                None => m0,
            };
            let ghost gm = postal_side_matches(data@, pc@, hn);
            proof {
                assert(row_views(m1@) == gm);
            }
            if m1.len() == 0 {
                None
            } else {
                let total_entries = m1.len();
                if rows_share_a_street_exec(&m1) {
                    let house_numbers = dedup_strings(&collect_house_numbers(&m1));
                    let mut m1 = m1;
                    let entry = m1.remove(0);
                    proof {
                        assert(entry@ == gm[0]);
                    }
                    Some(PostalResponse::Single { entry, house_numbers, total_entries })
                } else {
                    let e1: Vec<Row> = if params.unique_street_only {
                        dedup_rows_exec(&m1)
                    } else {
                        m1
                    };
                    let mut e2 = e1;
                    e2.truncate(params.limit);
                    proof {
                        assert(row_views(e2@) =~= shaped_entries(
                            gm,
                            params.unique_street_only,
                            params.limit as int,
                        ));
                    }
                    if e2.len() == 0 {
                        None
                    } else {
                        Some(PostalResponse::Multi { entries: e2, total_entries })
                    }
                }
            }
        },
    };
    let street_out: Option<StreetResponse> = match &params.street {
        None => None,
        Some(stq) => {
            let r1 = query_street(data, stq.as_str());
            let StreetResponse { entries, house_numbers, total_entries, consistent_street } = r1;
            match &params.house_number {
                Some(h) => {
                    let filtered = filter_by_house_number(&entries, h.as_str());
                    let ghost ge1 = street_side_matches(data@, stq@, hn);
                    proof {
                        assert(row_views(filtered@) == ge1);
                    }
                    let ftotal = filtered.len();
                    let fconsistent = rows_share_a_street_exec(&filtered);
                    let mut hn_list: Vec<String> = Vec::new();
                    hn_list.push(h.clone());
                    proof {
                        assert(views(hn_list@) =~= seq![h@]);
                    }
                    let e2: Vec<Row> = if params.unique_street_only {
                        dedup_rows_exec(&filtered)
                    } else {
                        filtered
                    };
                    let mut e3 = e2;
                    e3.truncate(params.limit);
                    proof {
                        assert(row_views(e3@) =~= shaped_entries(
                            ge1,
                            params.unique_street_only,
                            params.limit as int,
                        ));
                    }
                    if e3.len() == 0 {
                        None
                    } else {
                        Some(
                            StreetResponse {
                                entries: e3,
                                house_numbers: hn_list,
                                total_entries: ftotal,
                                consistent_street: fconsistent,
                            },
                        )
                    }
                },
                None => {
                    let ghost ge1 = street_side_matches(data@, stq@, hn);
                    proof {
                        assert(row_views(entries@) == ge1);
                    }
                    let e2: Vec<Row> = if params.unique_street_only {
                        dedup_rows_exec(&entries)
                    } else {
                        entries
                    };
                    let mut e3 = e2;
                    e3.truncate(params.limit);
                    proof {
                        assert(row_views(e3@) =~= shaped_entries(
                            ge1,
                            params.unique_street_only,
                            params.limit as int,
                        ));
                    }
                    if e3.len() == 0 {
                        None
                    } else {
                        Some(
                            StreetResponse {
                                entries: e3,
                                house_numbers,
                                total_entries,
                                consistent_street,
                            },
                        )
                    }
                },
            }
        },
    };
    SearchResponse { postal_code: postal_out, street: street_out }
}

/// A postal-code query returns only matching records, and all of them:
/// with a four-digit code exactly the records whose postal code starts
/// with it, and with any other nonempty code exactly the records whose
/// postal code equals it.
pub proof fn lemma_postal_query_membership(d: Seq<RowV>, code: Seq<char>)
    requires
        code.len() > 0,
    ensures
        is_prefix_query(code) ==> forall|i: int|
            0 <= i < postal_matches(d, code).len() ==> code.is_prefix_of(
                (#[trigger] postal_matches(d, code)[i]).postal_code,
            ),
        !is_prefix_query(code) ==> forall|i: int|
            0 <= i < postal_matches(d, code).len() ==> (#[trigger] postal_matches(d, code)[
                i
            ]).postal_code == code,
        is_prefix_query(code) ==> forall|j: int|
            0 <= j < d.len() && code.is_prefix_of((#[trigger] d[j]).postal_code)
                ==> postal_matches(d, code).contains(d[j]),
        !is_prefix_query(code) ==> forall|j: int|
            0 <= j < d.len() && (#[trigger] d[j]).postal_code == code ==> postal_matches(
                d,
                code,
            ).contains(d[j]),
{
    if is_prefix_query(code) {
        let pred = |r: RowV| code.is_prefix_of(r.postal_code);
        assert forall|i: int| 0 <= i < postal_matches(d, code).len() implies code.is_prefix_of(
            (#[trigger] postal_matches(d, code)[i]).postal_code,
        ) by {
            d.lemma_filter_pred(pred, i);
        }
        assert forall|j: int|
            0 <= j < d.len() && code.is_prefix_of((#[trigger] d[j]).postal_code) implies
            postal_matches(d, code).contains(d[j]) by {
            d.lemma_filter_contains(pred, j);
        }
    } else {
        let pred = |r: RowV| r.postal_code == code;
        assert forall|i: int| 0 <= i < postal_matches(d, code).len() implies (
        #[trigger] postal_matches(d, code)[i]).postal_code == code by {
            d.lemma_filter_pred(pred, i);
        }
        assert forall|j: int|
            0 <= j < d.len() && (#[trigger] d[j]).postal_code == code implies postal_matches(
                d,
                code,
            ).contains(d[j]) by {
            d.lemma_filter_contains(pred, j);
        }
    }
}

} // verus!
