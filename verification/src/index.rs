//! Location Index: the record set built from normalized chunk files,
//! with the exact lookups the Query Engine shapes its responses from.
//!
//! The index is an explicitly owned value, built once and passed by
//! reference into every query; reloading builds a fresh value rather
//! than mutating in place.

use vstd::prelude::*;
use crate::record::{parse_row, row_views, spec_parse_row, Row, RowV};
use crate::strutil::{lower_of, lowercase, spec_contains, str_contains, str_eq, str_starts_with, views};

verus! {

/// The records one chunk file's lines yield: the first line is the
/// header, every following line that parses contributes one record in
/// order, and lines that do not parse are skipped.
pub open spec fn parsed_rows(lines: Seq<Seq<char>>) -> Seq<RowV> {
    if lines.len() == 0 {
        Seq::<RowV>::empty()
    } else {
        lines.skip(1).filter_map(|l: Seq<char>| spec_parse_row(l))
    }
}

/// The lines of every file in a sequence of files.
pub open spec fn file_views(files: Seq<Vec<String>>) -> Seq<Seq<Seq<char>>> {
    files.map_values(|f: Vec<String>| views(f@))
}

/// The records of a sequence of chunk files, in file order.
pub open spec fn parsed_all(files: Seq<Seq<Seq<char>>>) -> Seq<RowV>
    decreases files.len(),
{
    if files.len() == 0 {
        Seq::<RowV>::empty()
    } else {
        parsed_all(files.drop_last()) + parsed_rows(files.last())
    }
}

/// Records with exactly the given postal code, in index order; an empty
/// code matches nothing.
pub open spec fn postal_exact(d: Seq<RowV>, code: Seq<char>) -> Seq<RowV> {
    if code.len() == 0 {
        Seq::<RowV>::empty()
    } else {
        d.filter(|r: RowV| r.postal_code == code)
    }
}

/// Records whose lowercased street name has the lowercased query as a
/// substring, in index order.
pub open spec fn street_matches(d: Seq<RowV>, q: Seq<char>) -> Seq<RowV> {
    d.filter(|r: RowV| spec_contains(lower_of(r.street), lower_of(q)))
}

/// Records that carry coordinates, in index order.
pub open spec fn coord_candidates(d: Seq<RowV>) -> Seq<RowV> {
    d.filter(|r: RowV| r.coordinates.is_some())
}

/// Records whose postal code starts with the given prefix, in index
/// order.
pub open spec fn postal_prefix(d: Seq<RowV>, prefix: Seq<char>) -> Seq<RowV> {
    d.filter(|r: RowV| prefix.is_prefix_of(r.postal_code))
}

/// The Location Index: every loaded record, in load order. The postal
/// and street lookups are exact filters over this one record set, so a
/// record reachable from both is still a single candidate.
pub struct LocationData {
    rows: Vec<Row>,
}

impl View for LocationData {
    type V = Seq<RowV>;

    closed spec fn view(&self) -> Seq<RowV> {
        row_views(self.rows@)
    }
}

impl LocationData {
    /// An empty index.
    pub fn new() -> (r: Self)
        ensures
            r@ == Seq::<RowV>::empty(),
    {
        let r = LocationData { rows: Vec::new() };
        proof {
            assert(row_views(r.rows@) =~= Seq::<RowV>::empty());
        }
        r
    }

    /// Loads one chunk file, given as its lines with the header line
    /// first: appends every line that parses as a record, in order, and
    /// skips the rest.
    pub fn load_from_csv(&mut self, lines: &Vec<String>)
        ensures
            final(self)@ == old(self)@ + parsed_rows(views(lines@)),
    {
        let ghost f = |l: Seq<char>| spec_parse_row(l);
        if lines.len() == 0 {
            proof {
                assert(self@ =~= old(self)@ + parsed_rows(views(lines@)));
            }
            return;
        }
        let ghost data = views(lines@).skip(1);
        let mut i: usize = 1;
        while i < lines.len()
            invariant
                1 <= i <= lines@.len(),
                data == views(lines@).skip(1),
                f == (|l: Seq<char>| spec_parse_row(l)),
                row_views(self.rows@) == row_views(old(self).rows@) + data.take(i - 1).filter_map(
                    f,
                ),
            decreases lines@.len() - i,
        {
            let ghost prev = self.rows@;
            let parsed = parse_row(lines[i].as_str());
            proof {
                assert(lines@[i as int]@ == views(lines@)[i as int]);
                assert(data[i - 1] == views(lines@)[i as int]);
                data.lemma_filter_map_take_succ(f, i - 1);
            }
            match parsed {
                Some(row) => {
                    let ghost rv = row@;
                    proof {
                        assert(spec_parse_row(data[i - 1]).is_some());
                        assert(spec_parse_row(data[i - 1]).unwrap() == rv);
                        assert(f(data[i - 1]) == Some(rv));
                        assert(data.take(i as int).filter_map(f) == data.take(i - 1).filter_map(f)
                            + seq![rv]);
                    }
                    self.rows.push(row);
                    proof {
                        assert(row_views(self.rows@) =~= row_views(prev).push(rv));
                        assert(row_views(self.rows@) =~= row_views(old(self).rows@) + data.take(
                            i as int,
                        ).filter_map(f));
                    }
                },
                None => {
                    proof {
                        assert(f(data[i - 1]) is None);
                        assert(data.take(i as int).filter_map(f) == data.take(i - 1).filter_map(f));
                        assert(row_views(self.rows@) =~= row_views(old(self).rows@) + data.take(
                            i as int,
                        ).filter_map(f));
                    }
                },
            }
            i = i + 1;
        }
        proof {
            assert(data.take(lines@.len() - 1) =~= data);
        }
    }

    /// Loads every chunk file in order.
    pub fn load_all(&mut self, files: &Vec<Vec<String>>)
        ensures
            final(self)@ == old(self)@ + parsed_all(file_views(files@)),
    {
        let ghost fv = file_views(files@);
        let mut j: usize = 0;
        while j < files.len()
            invariant
                j <= files@.len(),
                fv == file_views(files@),
                self@ == old(self)@ + parsed_all(fv.take(j as int)),
            decreases files@.len() - j,
        {
            self.load_from_csv(&files[j]);
            proof {
                assert(fv[j as int] == views(files@[j as int]@));
                assert(fv.take(j + 1).drop_last() =~= fv.take(j as int));
                assert(fv.take(j + 1).last() == fv[j as int]);
                assert(self@ =~= old(self)@ + parsed_all(fv.take(j + 1)));
            }
            j = j + 1;
        }
        proof {
            assert(fv.take(files@.len() as int) =~= fv);
        }
    }

    /// Records with exactly the given postal code, in load order.
    pub fn lookup_by_postal_code(&self, postal_code: &str) -> (r: Vec<Row>)
        ensures
            row_views(r@) == postal_exact(self@, postal_code@),
    {
        let ghost pred = |rv: RowV| rv.postal_code == postal_code@;
        let mut out: Vec<Row> = Vec::new();
        if postal_code.unicode_len() == 0 {
            proof {
                assert(row_views(out@) =~= postal_exact(self@, postal_code@));
            }
            return out;
        }
        let mut i: usize = 0;
        while i < self.rows.len()
            invariant
                i <= self.rows@.len(),
                postal_code@.len() > 0,
                pred == (|rv: RowV| rv.postal_code == postal_code@),
                row_views(out@) == self@.take(i as int).filter(pred),
            decreases self.rows@.len() - i,
        {
            let ghost prev = out@;
            proof {
                assert(self@[i as int] == self.rows@[i as int]@);
                assert(self@.take(i + 1).drop_last() =~= self@.take(i as int));
                self@.take(i as int).lemma_filter_push(self@[i as int], pred);
                assert(self@.take(i as int).push(self@[i as int]) =~= self@.take(i + 1));
            }
            if str_eq(self.rows[i].postal_code.as_str(), postal_code) {
                out.push(self.rows[i].clone());
                proof {
                    assert(pred(self@[i as int]));
                    assert(out@.last()@ == self@[i as int]);
                    assert(row_views(out@) =~= row_views(prev).push(out@.last()@));
                    assert(row_views(out@) =~= self@.take(i + 1).filter(pred));
                }
            } else {
                proof {
                    assert(!pred(self@[i as int]));
                    assert(row_views(out@) =~= self@.take(i + 1).filter(pred));
                }
            }
            i = i + 1;
        }
        proof {
            assert(self@.take(self.rows@.len() as int) =~= self@);
        }
        out
    }

    /// Records whose postal code starts with the given prefix, in load
    /// order.
    pub fn lookup_by_postal_prefix(&self, prefix: &str) -> (r: Vec<Row>)
        ensures
            row_views(r@) == postal_prefix(self@, prefix@),
    {
        let ghost pred = |rv: RowV| prefix@.is_prefix_of(rv.postal_code);
        let mut out: Vec<Row> = Vec::new();
        let mut i: usize = 0;
        while i < self.rows.len()
            invariant
                i <= self.rows@.len(),
                pred == (|rv: RowV| prefix@.is_prefix_of(rv.postal_code)),
                row_views(out@) == self@.take(i as int).filter(pred),
            decreases self.rows@.len() - i,
        {
            let ghost prev = out@;
            proof {
                assert(self@[i as int] == self.rows@[i as int]@);
                assert(self@.take(i + 1).drop_last() =~= self@.take(i as int));
                self@.take(i as int).lemma_filter_push(self@[i as int], pred);
                assert(self@.take(i as int).push(self@[i as int]) =~= self@.take(i + 1));
            }
            if str_starts_with(self.rows[i].postal_code.as_str(), prefix) {
                out.push(self.rows[i].clone());
                proof {
                    assert(pred(self@[i as int]));
                    assert(out@.last()@ == self@[i as int]);
                    assert(row_views(out@) =~= row_views(prev).push(out@.last()@));
                    assert(row_views(out@) =~= self@.take(i + 1).filter(pred));
                }
            } else {
                proof {
                    assert(!pred(self@[i as int]));
                    assert(row_views(out@) =~= self@.take(i + 1).filter(pred));
                }
            }
            i = i + 1;
        }
        proof {
            assert(self@.take(self.rows@.len() as int) =~= self@);
        }
        out
    }

    /// Records whose lowercased street name has the lowercased query as
    /// a substring, in load order.
    pub fn search_by_street(&self, query: &str) -> (r: Vec<Row>)
        ensures
            row_views(r@) == street_matches(self@, query@),
    {
        let ghost pred = |rv: RowV| spec_contains(lower_of(rv.street), lower_of(query@));
        let lq = lowercase(query);
        let mut out: Vec<Row> = Vec::new();
        let mut i: usize = 0;
        while i < self.rows.len()
            invariant
                i <= self.rows@.len(),
                lq@ == lower_of(query@),
                pred == (|rv: RowV| spec_contains(lower_of(rv.street), lower_of(query@))),
                row_views(out@) == self@.take(i as int).filter(pred),
            decreases self.rows@.len() - i,
        {
            let ghost prev = out@;
            proof {
                assert(self@[i as int] == self.rows@[i as int]@);
                assert(self@.take(i + 1).drop_last() =~= self@.take(i as int));
                self@.take(i as int).lemma_filter_push(self@[i as int], pred);
                assert(self@.take(i as int).push(self@[i as int]) =~= self@.take(i + 1));
            }
            let ls = lowercase(self.rows[i].street.as_str());
            if str_contains(ls.as_str(), lq.as_str()) {
                out.push(self.rows[i].clone());
                proof {
                    assert(pred(self@[i as int]));
                    assert(out@.last()@ == self@[i as int]);
                    assert(row_views(out@) =~= row_views(prev).push(out@.last()@));
                    assert(row_views(out@) =~= self@.take(i + 1).filter(pred));
                }
            } else {
                proof {
                    assert(!pred(self@[i as int]));
                    assert(row_views(out@) =~= self@.take(i + 1).filter(pred));
                }
            }
            i = i + 1;
        }
        proof {
            assert(self@.take(self.rows@.len() as int) =~= self@);
        }
        out
    }

    /// Every record that carries coordinates, once each, in load order.
    pub fn coordinate_candidates(&self) -> (r: Vec<Row>)
        ensures
            row_views(r@) == coord_candidates(self@),
    {
        let ghost pred = |rv: RowV| rv.coordinates.is_some();
        let mut out: Vec<Row> = Vec::new();
        let mut i: usize = 0;
        while i < self.rows.len()
            invariant
                i <= self.rows@.len(),
                pred == (|rv: RowV| rv.coordinates.is_some()),
                row_views(out@) == self@.take(i as int).filter(pred),
            decreases self.rows@.len() - i,
        {
            let ghost prev = out@;
            proof {
                assert(self@[i as int] == self.rows@[i as int]@);
                assert(self@.take(i + 1).drop_last() =~= self@.take(i as int));
                self@.take(i as int).lemma_filter_push(self@[i as int], pred);
                assert(self@.take(i as int).push(self@[i as int]) =~= self@.take(i + 1));
            }
            if self.rows[i].coordinates.is_some() {
                out.push(self.rows[i].clone());
                proof {
                    assert(pred(self@[i as int]));
                    assert(out@.last()@ == self@[i as int]);
                    assert(row_views(out@) =~= row_views(prev).push(out@.last()@));
                    assert(row_views(out@) =~= self@.take(i + 1).filter(pred));
                }
            } else {
                proof {
                    assert(!pred(self@[i as int]));
                    assert(row_views(out@) =~= self@.take(i + 1).filter(pred));
                }
            }
            i = i + 1;
        }
        proof {
            assert(self@.take(self.rows@.len() as int) =~= self@);
        }
        out
    }
}

/// Builds the index from the given chunk files, each file its lines with
/// the header first.
pub fn initialize_location_data(files: &Vec<Vec<String>>) -> (r: LocationData)
    ensures
        r@ == parsed_all(file_views(files@)),
{
    let mut data = LocationData::new();
    data.load_all(files);
    data
}

/// Loading the same chunk files twice yields indexes with equal
/// contents, so the postal, street and coordinate lookups all answer
/// alike: index loading is idempotent.
pub proof fn lemma_load_idempotent(a: Seq<RowV>, b: Seq<RowV>, files: Seq<Seq<Seq<char>>>)
    requires
        a == parsed_all(files),
        b == parsed_all(files),
    ensures
        a == b,
        forall|code: Seq<char>| postal_exact(a, code) == postal_exact(b, code),
        forall|q: Seq<char>| street_matches(a, q) == street_matches(b, q),
        coord_candidates(a) == coord_candidates(b),
{
}

} // verus!
