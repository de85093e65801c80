//! Range Expander: a raw CSV row whose third field encodes a house-number
//! range `"<start> t/m <end>"` is expanded into one row per house number;
//! a row with no range marker passes through unchanged, and a row with
//! fewer than three fields is dropped.

use vstd::prelude::*;
use crate::strutil::{
    all_digits, dec_digits, find_sub, is_uint_str, spec_join, spec_split, spec_trim,
    uint_str_value, views, find_str, join_char, parse_u32, split_char, trim, u32_to_string,
    lemma_dec_digits_are_digits, lemma_split_no_sep,
};

verus! {

/// The range marker of the house-number field, Dutch "tot en met"
/// (through).
pub open spec fn marker() -> Seq<char> {
    seq![' ', 't', '/', 'm', ' ']
}

/// The rows a well-formed range `[a, b]` expands to: the original fields
/// with the house-number field replaced by each decimal string in turn,
/// re-joined with commas.
pub open spec fn spec_expand_range(parts: Seq<Seq<char>>, st: Seq<char>, en: Seq<char>) -> Seq<
    Seq<char>,
> {
    if is_uint_str(st) && uint_str_value(st) <= u32::MAX && is_uint_str(en) && uint_str_value(en)
        <= u32::MAX {
        let a = uint_str_value(st);
        let b = uint_str_value(en);
        if a <= b {
            Seq::new(
                (b - a + 1) as nat,
                |k: int| spec_join(parts.update(2, dec_digits((a + k) as nat)), ','),
            )
        } else {
            Seq::<Seq<char>>::empty()
        }
    } else {
        Seq::<Seq<char>>::empty()
    }
}

/// What expanding one raw row yields.
pub open spec fn spec_enumerate(line: Seq<char>) -> Seq<Seq<char>> {
    let parts = spec_split(line, ',');
    if parts.len() < 3 {
        Seq::<Seq<char>>::empty()
    } else {
        match find_sub(parts[2], marker()) {
            None => seq![line],
            Some(p) => spec_expand_range(
                parts,
                spec_trim(parts[2].take(p)),
                spec_trim(parts[2].skip(p + 5)),
            ),
        }
    }
}

/// Splitting a separator-free string yields that one field.
proof fn lemma_split_single(s: Seq<char>, sep: char)
    requires
        !s.contains(sep),
    ensures
        spec_split(s, sep) == seq![s],
    decreases s.len(),
{
    if s.len() == 0 {
        assert(spec_split(s, sep) =~~= seq![s]);
    } else {
        assert(s.contains(sep) <==> exists|t: int| 0 <= t < s.len() && s[t] == sep);
        assert(s.last() != sep);
        assert(!s.drop_last().contains(sep)) by {
            if s.drop_last().contains(sep) {
                let t = choose|t: int| 0 <= t < s.drop_last().len() && s.drop_last()[t] == sep;
                assert(s[t] == sep);
            }
        }
        lemma_split_single(s.drop_last(), sep);
        assert(spec_split(s, sep) =~~= seq![s]);
    }
}

/// Splitting `x + sep + y` for separator-free `y` splits `x` and appends
/// `y` as one further field.
proof fn lemma_split_append(x: Seq<char>, y: Seq<char>, sep: char)
    requires
        !y.contains(sep),
    ensures
        spec_split(x + seq![sep] + y, sep) == spec_split(x, sep).push(y),
    decreases y.len(),
{
    if y.len() == 0 {
        let s = x + seq![sep] + y;
        assert(s.last() == sep);
        assert(s.drop_last() =~= x);
        assert(spec_split(s, sep) =~~= spec_split(x, sep).push(y));
    } else {
        assert(y.contains(sep) <==> exists|t: int| 0 <= t < y.len() && y[t] == sep);
        assert(y.last() != sep);
        assert(!y.drop_last().contains(sep)) by {
            if y.drop_last().contains(sep) {
                let t = choose|t: int| 0 <= t < y.drop_last().len() && y.drop_last()[t] == sep;
                assert(y[t] == sep);
            }
        }
        lemma_split_append(x, y.drop_last(), sep);
        let s = x + seq![sep] + y;
        assert(s.last() == y.last());
        assert(s.last() != sep);
        assert(s.drop_last() =~= x + seq![sep] + y.drop_last());
        let rest = spec_split(s.drop_last(), sep);
        assert(rest == spec_split(x, sep).push(y.drop_last()));
        assert(rest.last() == y.drop_last());
        assert(spec_split(s, sep) == rest.update(rest.len() - 1, rest.last().push(y.last())));
        assert(y.drop_last().push(y.last()) =~= y);
        assert(rest.update(rest.len() - 1, y) =~~= spec_split(x, sep).push(y));
    }
}

/// Joining fields that are free of the separator and splitting again
/// gives the fields back.
pub proof fn lemma_join_split_inverse(parts: Seq<Seq<char>>, sep: char)
    requires
        parts.len() >= 1,
        forall|i: int| 0 <= i < parts.len() ==> !(#[trigger] parts[i]).contains(sep),
    ensures
        spec_split(spec_join(parts, sep), sep) == parts,
    decreases parts.len(),
{
    if parts.len() == 1 {
        lemma_split_single(parts[0], sep);
        assert(spec_split(spec_join(parts, sep), sep) =~~= parts);
    } else {
        lemma_join_split_inverse(parts.drop_last(), sep);
        lemma_split_append(spec_join(parts.drop_last(), sep), parts.last(), sep);
        assert(spec_join(parts, sep)
            =~= spec_join(parts.drop_last(), sep) + seq![sep] + parts.last());
        assert(spec_split(spec_join(parts, sep), sep)
            =~~= parts.drop_last().push(parts.last()));
        assert(parts.drop_last().push(parts.last()) =~~= parts);
    }
}

/// Expands one raw row: a well-formed range becomes one row per house
/// number, a missing range marker passes the row through, and a row with
/// fewer than three fields is dropped.
pub fn enumerate_house_numbers(line: &str) -> (r: Vec<String>)
    ensures
        views(r@) == spec_enumerate(line@),
{
    let parts = split_char(line, ',');
    let ghost partsv = views(parts@);
    if parts.len() < 3 {
        let out: Vec<String> = Vec::new();
        proof {
            assert(views(out@) =~~= spec_enumerate(line@));
        }
        return out;
    }
    let hn: &str = parts[2].as_str();
    proof {
        reveal_strlit(" t/m ");
        assert(" t/m "@ =~= marker());
    }
    let found = find_str(hn, " t/m ");
    match found {
        None => {
            proof {
                assert(find_sub(partsv[2], marker()) is None);
            }
            let mut out: Vec<String> = Vec::new();
            out.push(line.to_owned());
            proof {
                assert(views(out@) =~~= spec_enumerate(line@));
            }
            out
        },
        Some(p) => {
            proof {
                crate::strutil::lemma_find_sub_spec(hn@, marker());
                assert(p + marker().len() <= hn@.len());
            }
            let hl: usize = hn.unicode_len();
            let st = trim(hn.substring_char(0, p));
            let en = trim(hn.substring_char(p + 5, hl));
            proof {
                assert(hn@.subrange(0, p as int) =~= hn@.take(p as int));
                assert(hn@.subrange(p + 5, hl as int) =~= hn@.skip(p + 5));
            }
            let sv = parse_u32(st.as_str());
            let ev = parse_u32(en.as_str());
            let ghost target = spec_enumerate(line@);
            if sv.is_none() || ev.is_none() {
                let out: Vec<String> = Vec::new();
                proof {
                    assert(views(out@) =~~= target);
                }
                return out;
            }
            let a = sv.unwrap();
            let b = ev.unwrap();
            if a > b {
                let out: Vec<String> = Vec::new();
                proof {
                    assert(views(out@) =~~= target);
                }
                return out;
            }
            let count: u64 = b as u64 - a as u64 + 1;
            proof {
                assert(partsv[2] == parts@[2]@);
                assert(target.len() == count);
                assert(forall|t: int|
                    0 <= t < count ==> target[t] == spec_join(
                        partsv.update(2, dec_digits((a + t) as nat)),
                        ',',
                    ));
            }
            let mut out: Vec<String> = Vec::new();
            let mut k: u64 = 0;
            while k < count
                invariant
                    k <= count,
                    count == b - a + 1,
                    a <= b,
                    partsv == views(parts@),
                    partsv.len() >= 3,
                    target.len() == count,
                    forall|t: int|
                        0 <= t < count ==> target[t] == spec_join(
                            partsv.update(2, dec_digits((a + t) as nat)),
                            ',',
                        ),
                    views(out@) == target.take(k as int),
                decreases count - k,
            {
                let num: u32 = (a as u64 + k) as u32;
                let ns = u32_to_string(num);
                let mut fields: Vec<String> = Vec::new();
                let mut j: usize = 0;
                while j < parts.len()
                    invariant
                        j <= parts@.len(),
                        partsv == views(parts@),
                        partsv.len() >= 3,
                        ns@ == dec_digits(num as nat),
                        fields@.len() == j,
                        forall|t: int|
                            0 <= t < j ==> (#[trigger] fields@[t])@ == (if t == 2 {
                                dec_digits(num as nat)
                            } else {
                                partsv[t]
                            }),
                    decreases parts@.len() - j,
                {
                    let ghost before = fields@;
                    if j == 2 {
                        fields.push(ns.clone());
                    } else {
                        fields.push(parts[j].clone());
                    }
                    proof {
                        assert(partsv[j as int] == parts@[j as int]@);
                        assert(forall|t: int|
                            0 <= t < j ==> #[trigger] fields@[t] == before[t]);
                    }
                    j = j + 1;
                }
                proof {
                    let updated = partsv.update(2, dec_digits(num as nat));
                    assert forall|t: int| 0 <= t < updated.len() implies views(fields@)[t]
                        == updated[t] by {
                        assert(views(fields@)[t] == fields@[t]@);
                    }
                    assert(views(fields@) =~~= updated);
                }
                let row = join_char(&fields, ',');
                let ghost prev_out = out@;
                out.push(row);
                proof {
                    assert(num == a + k);
                    assert(row@ == target[k as int]);
                    assert(views(out@) =~= views(prev_out).push(row@));
                    assert(target.take(k + 1) =~= target.take(k as int).push(target[k as int]));
                    assert(views(out@) =~~= target.take(k + 1));
                }
                k = k + 1;
            }
            proof {
                assert(target.take(count as int) =~= target);
            }
            out
        },
    }
}

/// A house-number range `"<a> t/m <b>"` with numeric endpoints and
/// `a <= b` expands to exactly `b - a + 1` rows whose house-number fields
/// read back as the numbers `a, a + 1, …, b` in that order, all other
/// fields unchanged.
pub proof fn lemma_range_expansion(line: Seq<char>, p: int)
    requires
        spec_split(line, ',').len() >= 3,
        find_sub(spec_split(line, ',')[2], marker()) == Some(p),
        is_uint_str(spec_trim(spec_split(line, ',')[2].take(p))),
        uint_str_value(spec_trim(spec_split(line, ',')[2].take(p))) <= u32::MAX,
        is_uint_str(spec_trim(spec_split(line, ',')[2].skip(p + 5))),
        uint_str_value(spec_trim(spec_split(line, ',')[2].skip(p + 5))) <= u32::MAX,
        uint_str_value(spec_trim(spec_split(line, ',')[2].take(p))) <= uint_str_value(
            spec_trim(spec_split(line, ',')[2].skip(p + 5)),
        ),
    ensures
        ({
            let a = uint_str_value(spec_trim(spec_split(line, ',')[2].take(p)));
            let b = uint_str_value(spec_trim(spec_split(line, ',')[2].skip(p + 5)));
            &&& spec_enumerate(line).len() == b - a + 1
            &&& forall|k: int|
                0 <= k <= b - a ==> spec_split(#[trigger] spec_enumerate(line)[k], ',')
                    == spec_split(line, ',').update(2, dec_digits((a + k) as nat))
            &&& forall|k: int|
                0 <= k <= b - a ==> crate::strutil::digits_value(
                    spec_split(#[trigger] spec_enumerate(line)[k], ',')[2],
                ) == a + k
        }),
{
    let parts = spec_split(line, ',');
    let a = uint_str_value(spec_trim(parts[2].take(p)));
    let b = uint_str_value(spec_trim(parts[2].skip(p + 5)));
    lemma_split_no_sep(line, ',');
    assert forall|k: int| 0 <= k <= b - a implies spec_split(
        #[trigger] spec_enumerate(line)[k],
        ',',
    ) == parts.update(2, dec_digits((a + k) as nat)) by {
        let updated = parts.update(2, dec_digits((a + k) as nat));
        lemma_dec_digits_are_digits((a + k) as nat);
        assert(!dec_digits((a + k) as nat).contains(',')) by {
            let dd = dec_digits((a + k) as nat);
            if dd.contains(',') {
                let t = choose|t: int| 0 <= t < dd.len() && #[trigger] dd[t] == ',';
                assert(crate::strutil::is_digit(dd[t]));
            }
        }
        assert forall|i: int| 0 <= i < updated.len() implies !(#[trigger] updated[i]).contains(
            ',',
        ) by {
            if i != 2 {
                assert(updated[i] == parts[i]);
            }
        }
        lemma_join_split_inverse(updated, ',');
    }
    assert forall|k: int| 0 <= k <= b - a implies crate::strutil::digits_value(
        spec_split(#[trigger] spec_enumerate(line)[k], ',')[2],
    ) == a + k by {
        assert(spec_split(spec_enumerate(line)[k], ',') == parts.update(
            2,
            dec_digits((a + k) as nat),
        ));
        crate::strutil::lemma_dec_digits_value((a + k) as nat);
        crate::strutil::lemma_digits_value_nonneg(
            crate::strutil::strip_plus(spec_trim(parts[2].take(p))),
        );
    }
}

/// A range whose endpoints do not both parse as numbers that fit, or that
/// runs backwards (`a > b`), expands to no rows at all.
pub proof fn lemma_range_rejected(line: Seq<char>, p: int)
    requires
        spec_split(line, ',').len() >= 3,
        find_sub(spec_split(line, ',')[2], marker()) == Some(p),
        ({
            let st = spec_trim(spec_split(line, ',')[2].take(p));
            let en = spec_trim(spec_split(line, ',')[2].skip(p + 5));
            ||| !(is_uint_str(st) && uint_str_value(st) <= u32::MAX)
            ||| !(is_uint_str(en) && uint_str_value(en) <= u32::MAX)
            ||| uint_str_value(st) > uint_str_value(en)
        }),
    ensures
        spec_enumerate(line).len() == 0,
{
}

} // verus!
