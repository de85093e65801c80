//! The address record: the atomic entity the index and the queries work
//! on, together with the verified parser that reads one record from a
//! normalized CSV line.
//!
//! Coordinates are kept in microdegrees (degrees scaled by one million),
//! a fixed-point form that the parser fills from the optional decimal
//! latitude and longitude fields of a line.

use vstd::prelude::*;
use crate::strutil::{
    all_digits, digits_value, spec_split, split_char, str_all_digits, views,
    lemma_digits_value_take_le,
};

verus! {

/// Geographic position in microdegrees.
#[derive(Clone, Copy, PartialEq, Eq, Structural, Debug)]
pub struct Coordinates {
    pub latitude_udeg: i64,
    pub longitude_udeg: i64,
}

/// One address record. Immutable once created.
#[derive(Debug, PartialEq, Eq)]
pub struct Row {
    pub postal_code: String,
    pub street: String,
    pub house_number: String,
    pub city: String,
    pub area: String,
    pub neighborhood: String,
    pub municipality: String,
    pub province: String,
    pub coordinates: Option<Coordinates>,
}

/// The mathematical value of a record.
pub struct RowV {
    pub postal_code: Seq<char>,
    pub street: Seq<char>,
    pub house_number: Seq<char>,
    pub city: Seq<char>,
    pub area: Seq<char>,
    pub neighborhood: Seq<char>,
    pub municipality: Seq<char>,
    pub province: Seq<char>,
    pub coordinates: Option<Coordinates>,
}

impl View for Row {
    type V = RowV;

    open spec fn view(&self) -> RowV {
        RowV {
            postal_code: self.postal_code@,
            street: self.street@,
            house_number: self.house_number@,
            city: self.city@,
            area: self.area@,
            neighborhood: self.neighborhood@,
            municipality: self.municipality@,
            province: self.province@,
            coordinates: self.coordinates,
        }
    }
}

impl Clone for Row {
    fn clone(&self) -> (r: Self)
        ensures
            r == *self,
    {
        Row {
            postal_code: self.postal_code.clone(),
            street: self.street.clone(),
            house_number: self.house_number.clone(),
            city: self.city.clone(),
            area: self.area.clone(),
            neighborhood: self.neighborhood.clone(),
            municipality: self.municipality.clone(),
            province: self.province.clone(),
            coordinates: self.coordinates,
        }
    }
}

/// The views of all records in a sequence.
pub open spec fn row_views(s: Seq<Row>) -> Seq<RowV> {
    s.map_values(|r: Row| r@)
}

/// Powers of ten.
pub open spec fn pow10(k: nat) -> int
    decreases k,
{
    if k == 0 {
        1
    } else {
        10 * pow10((k - 1) as nat)
    }
}

pub proof fn lemma_digits_value_bound(s: Seq<char>)
    requires
        all_digits(s),
    ensures
        0 <= digits_value(s) < pow10(s.len()),
    decreases s.len(),
{
    if s.len() > 0 {
        assert(all_digits(s.drop_last()));
        lemma_digits_value_bound(s.drop_last());
    }
}

/// The sign a coordinate string carries.
pub open spec fn coord_sign(s: Seq<char>) -> int {
    if s.len() > 0 && s[0] == '-' {
        -1
    } else {
        1
    }
}

/// The digits of a coordinate string, the sign stripped.
pub open spec fn coord_body(s: Seq<char>) -> Seq<char> {
    if s.len() > 0 && (s[0] == '-' || s[0] == '+') {
        s.drop_first()
    } else {
        s
    }
}

/// The value of a fraction field in microdegrees: its first six digits,
/// padded with zeros on the right when it is shorter.
pub open spec fn frac_udeg(fr: Seq<char>) -> int {
    if fr.len() >= 6 {
        digits_value(fr.take(6))
    } else {
        digits_value(fr) * pow10((6 - fr.len()) as nat)
    }
}

/// A decimal coordinate this library accepts: an optional sign, then
/// digits with at most one decimal point and at least one digit in all,
/// the whole part at most six digits' worth.
pub open spec fn valid_coord(s: Seq<char>) -> bool {
    let ps = spec_split(coord_body(s), '.');
    if ps.len() == 1 {
        ps[0].len() >= 1 && all_digits(ps[0]) && digits_value(ps[0]) <= 999_999
    } else if ps.len() == 2 {
        ps[0].len() + ps[1].len() >= 1 && all_digits(ps[0]) && all_digits(ps[1]) && digits_value(
            ps[0],
        ) <= 999_999
    } else {
        false
    }
}

/// The microdegree value of a valid coordinate string.
pub open spec fn coord_udeg(s: Seq<char>) -> int {
    let ps = spec_split(coord_body(s), '.');
    let whole = digits_value(ps[0]);
    let frac = if ps.len() >= 2 {
        frac_udeg(ps[1])
    } else {
        0
    };
    coord_sign(s) * (whole * 1_000_000 + frac)
}

pub open spec fn spec_parse_coord(s: Seq<char>) -> Option<i64> {
    if valid_coord(s) {
        Some(coord_udeg(s) as i64)
    } else {
        None
    }
}

/// Parses a plain digit string, succeeding exactly when it is nonempty,
/// all digits, and its value is at most `max`.
fn parse_digits_max(s: &str, max: u64) -> (r: Option<u64>)
    ensures
        r.is_some() <==> (s@.len() >= 1 && all_digits(s@) && digits_value(s@) <= max as int),
        r.is_some() ==> r.unwrap() == digits_value(s@),
{
    let n: usize = s.unicode_len();
    if n == 0 {
        return None;
    }
    if !str_all_digits(s) {
        return None;
    }
    let mut acc: u64 = 0;
    let mut i: usize = 0;
    while i < n
        invariant
            i <= n,
            n == s@.len(),
            all_digits(s@),
            max <= u64::MAX,
            acc == digits_value(s@.take(i as int)),
            acc <= max,
        decreases n - i,
    {
        let c = s.get_char(i);
        proof {
            assert(crate::strutil::is_digit(s@[i as int]));
            assert(s@.take(i + 1).drop_last() =~= s@.take(i as int));
            assert(s@.take(i + 1).last() == s@[i as int]);
        }
        let d: u64 = (c as u32 - 48) as u64;
        let wide: u128 = acc as u128 * 10 + d as u128;
        if wide > max as u128 {
            proof {
                assert(digits_value(s@.take(i + 1)) == wide);
                lemma_digits_value_take_le(s@, i + 1);
            }
            return None;
        }
        acc = wide as u64;
        i = i + 1;
    }
    proof {
        assert(s@.take(n as int) =~= s@);
    }
    Some(acc)
}

fn pow10_exec(k: u64) -> (r: u64)
    requires
        k <= 6,
    ensures
        r == pow10(k as nat),
{
    proof {
        lemma_pow10_6();
        assert(pow10(0) == 1);
        assert(pow10(1) == 10);
        assert(pow10(2) == 100);
        assert(pow10(3) == 1_000);
        assert(pow10(4) == 10_000);
        assert(pow10(5) == 100_000);
    }
    if k == 0 {
        1
    } else if k == 1 {
        10
    } else if k == 2 {
        100
    } else if k == 3 {
        1_000
    } else if k == 4 {
        10_000
    } else if k == 5 {
        100_000
    } else {
        1_000_000
    }
}

/// Parses a decimal coordinate into microdegrees.
pub fn parse_coord(s: &str) -> (r: Option<i64>)
    ensures
        r == spec_parse_coord(s@),
{
    let n: usize = s.unicode_len();
    let mut neg: bool = false;
    let mut bi: usize = 0;
    if n > 0 {
        let c0 = s.get_char(0);
        if c0 == '-' {
            neg = true;
            bi = 1;
        } else if c0 == '+' {
            bi = 1;
        }
    }
    let body = s.substring_char(bi, n);
    proof {
        assert(body@ =~= coord_body(s@));
        assert(neg == (coord_sign(s@) == -1));
    }
    let ps = split_char(body, '.');
    proof {
        assert(views(ps@) == spec_split(coord_body(s@), '.'));
        crate::strutil::lemma_split_no_sep(coord_body(s@), '.');
        assert(ps@.len() == views(ps@).len());
    }
    if ps.len() > 2 {
        return None;
    }
    let whole_str: &str = ps[0].as_str();
    proof {
        assert(whole_str@ == views(ps@)[0]);
    }
    let wl: usize = whole_str.unicode_len();
    let whole: u64 = if wl == 0 {
        if ps.len() == 1 {
            // a coordinate with no digits at all
            return None;
        }
        0
    } else {
        match parse_digits_max(whole_str, 999_999) {
            None => {
                return None;
            },
            Some(v) => v,
        }
    };
    let frac: u64 = if ps.len() == 2 {
        let frac_str: &str = ps[1].as_str();
        proof {
            assert(frac_str@ == views(ps@)[1]);
        }
        let fl: usize = frac_str.unicode_len();
        if wl == 0 && fl == 0 {
            return None;
        }
        if !str_all_digits(frac_str) {
            return None;
        }
        let keep: usize = if fl < 6 {
            fl
        } else {
            6
        };
        let head: &str = frac_str.substring_char(0, keep);
        proof {
            assert(head@ =~= frac_str@.take(keep as int));
            assert(all_digits(head@));
            lemma_digits_value_bound(head@);
            if fl >= 6 {
                lemma_pow10_6();
            } else {
                assert(frac_str@.take(keep as int) =~= frac_str@);
            }
        }
        let hv = match parse_digits_max(head, 999_999) {
            None => {
                // only an empty fraction reaches this arm: a head of at
                // most six digits always has a value that fits
                proof {
                    if keep >= 1 {
                        lemma_pow10_le(head@.len(), 6);
                        lemma_pow10_6();
                        assert(false);
                    }
                }
                0
            },
            Some(v) => v,
        };
        if fl >= 6 {
            hv
        } else {
            let mult = pow10_exec((6 - fl) as u64);
            proof {
                lemma_pow10_le((6 - fl) as nat, 6);
                lemma_pow10_6();
                lemma_digits_value_bound(frac_str@);
                lemma_pow10_pos((6 - fl) as nat);
                lemma_mul_bound_pow10(hv as int, frac_str@.len() as nat, (6 - fl) as nat);
            }
            hv * mult
        }
    } else {
        0
    };
    proof {
        assert(valid_coord(s@));
        assert(frac == (if views(ps@).len() >= 2 {
            frac_udeg(views(ps@)[1])
        } else {
            0
        }));
    }
    let mag: u64 = whole * 1_000_000 + frac;
    let val: i64 = if neg {
        -(mag as i64)
    } else {
        mag as i64
    };
    proof {
        assert(val == coord_udeg(s@));
    }
    Some(val)
}

proof fn lemma_pow10_le(a: nat, b: nat)
    requires
        a <= b,
    ensures
        pow10(a) <= pow10(b),
        pow10(a) >= 1,
    decreases b - a,
{
    lemma_pow10_pos(a);
    if a < b {
        lemma_pow10_le(a, (b - 1) as nat);
        lemma_pow10_pos((b - 1) as nat);
        assert(pow10(b) == 10 * pow10((b - 1) as nat));
    }
}

proof fn lemma_pow10_6()
    ensures
        pow10(6) == 1_000_000,
{
    assert(pow10(0) == 1);
    assert(pow10(1) == 10);
    assert(pow10(2) == 100);
    assert(pow10(3) == 1_000);
    assert(pow10(4) == 10_000);
    assert(pow10(5) == 100_000);
    assert(pow10(6) == 1_000_000);
}

proof fn lemma_pow10_pos(k: nat)
    ensures
        pow10(k) >= 1,
    decreases k,
{
    if k > 0 {
        lemma_pow10_pos((k - 1) as nat);
    }
}

/// `v < pow10(a)` gives `v * pow10(c) < pow10(a + c)`.
proof fn lemma_mul_bound_pow10(v: int, a: nat, c: nat)
    requires
        0 <= v < pow10(a),
    ensures
        v * pow10(c) <= pow10(a + c) - pow10(c),
    decreases c,
{
    if c == 0 {
        assert(pow10(a + 0) == pow10(a));
        assert(v * 1 == v);
    } else {
        lemma_mul_bound_pow10(v, a, (c - 1) as nat);
        let p1 = pow10((c - 1) as nat);
        let pac1 = pow10((a + c - 1) as nat);
        assert(pow10(c) == 10 * p1);
        assert(pow10(a + c) == 10 * pac1) by {
            assert((a + c - 1) as nat + 1 == a + c);
        }
        assert(v * (10 * p1) == 10 * (v * p1)) by (nonlinear_arith);
        assert(10 * (v * p1) <= 10 * (pac1 - p1));
    }
}

/// What one normalized line parses to: eight fields give a record with no
/// coordinates, ten fields one whose last two fields must both be valid
/// decimal coordinates; any other shape is rejected.
pub open spec fn spec_parse_row(line: Seq<char>) -> Option<RowV> {
    let ps = spec_split(line, ',');
    if ps.len() == 8 {
        Some(
            RowV {
                postal_code: ps[0],
                street: ps[1],
                house_number: ps[2],
                city: ps[3],
                area: ps[4],
                neighborhood: ps[5],
                municipality: ps[6],
                province: ps[7],
                coordinates: None,
            },
        )
    } else if ps.len() == 10 {
        match (spec_parse_coord(ps[8]), spec_parse_coord(ps[9])) {
            (Some(la), Some(lo)) => Some(
                RowV {
                    postal_code: ps[0],
                    street: ps[1],
                    house_number: ps[2],
                    city: ps[3],
                    area: ps[4],
                    neighborhood: ps[5],
                    municipality: ps[6],
                    province: ps[7],
                    coordinates: Some(Coordinates { latitude_udeg: la, longitude_udeg: lo }),
                },
            ),
            _ => None,
        }
    } else {
        None
    }
}

/// Parses one normalized line into a record.
pub fn parse_row(line: &str) -> (r: Option<Row>)
    ensures
        r.is_some() == spec_parse_row(line@).is_some(),
        r.is_some() ==> r.unwrap()@ == spec_parse_row(line@).unwrap(),
{
    let ps = split_char(line, ',');
    proof {
        assert(views(ps@) == spec_split(line@, ','));
    }
    if ps.len() == 8 {
        let row = Row {
            postal_code: ps[0].clone(),
            street: ps[1].clone(),
            house_number: ps[2].clone(),
            city: ps[3].clone(),
            area: ps[4].clone(),
            neighborhood: ps[5].clone(),
            municipality: ps[6].clone(),
            province: ps[7].clone(),
            coordinates: None,
        };
        proof {
            assert(forall|i: int| 0 <= i < 8 ==> views(ps@)[i] == (#[trigger] ps@[i])@);
        }
        Some(row)
    } else if ps.len() == 10 {
        let la = parse_coord(ps[8].as_str());
        let lo = parse_coord(ps[9].as_str());
        proof {
            assert(ps[8 as int]@ == views(ps@)[8]);
            assert(ps[9 as int]@ == views(ps@)[9]);
        }
        match (la, lo) {
            (Some(lat), Some(lon)) => {
                let row = Row {
                    postal_code: ps[0].clone(),
                    street: ps[1].clone(),
                    house_number: ps[2].clone(),
                    city: ps[3].clone(),
                    area: ps[4].clone(),
                    neighborhood: ps[5].clone(),
                    municipality: ps[6].clone(),
                    province: ps[7].clone(),
                    coordinates: Some(
                        Coordinates { latitude_udeg: lat, longitude_udeg: lon },
                    ),
                };
                proof {
                    assert(forall|i: int| 0 <= i < 10 ==> views(ps@)[i] == (#[trigger] ps@[i])@);
                }
                Some(row)
            },
            _ => None,
        }
    } else {
        None
    }
}

} // verus!
