//! Verified string utilities: splitting and joining on a separator
//! character, character-level equality, and the one trusted helper that
//! appends a character to a `String`.
//!
//! Lines of the CSV-shaped data this library works on are modelled as
//! `Seq<char>`; every executable function here is specified against that
//! model.

use vstd::prelude::*;

verus! {

/// The view of every string in a sequence of strings.
pub open spec fn views(s: Seq<String>) -> Seq<Seq<char>> {
    s.map_values(|x: String| x@)
}

/// Splitting on a separator, defined by recursion on the last character.
/// An empty input yields one empty field, so the result always holds at
/// least one field, matching how `str::split` behaves.
pub open spec fn spec_split(s: Seq<char>, sep: char) -> Seq<Seq<char>>
    decreases s.len(),
{
    if s.len() == 0 {
        seq![Seq::<char>::empty()]
    } else if s.last() == sep {
        spec_split(s.drop_last(), sep).push(Seq::<char>::empty())
    } else {
        let rest = spec_split(s.drop_last(), sep);
        rest.update(rest.len() - 1, rest.last().push(s.last()))
    }
}

/// Joining fields with a separator, the inverse of `spec_split` for
/// fields that do not contain the separator.
pub open spec fn spec_join(parts: Seq<Seq<char>>, sep: char) -> Seq<char>
    decreases parts.len(),
{
    if parts.len() == 0 {
        Seq::<char>::empty()
    } else if parts.len() == 1 {
        parts[0]
    } else {
        spec_join(parts.drop_last(), sep) + seq![sep] + parts.last()
    }
}

/// Relies on String::push: appends the given character to the end of the
/// string.
#[verifier::external_body]
pub(crate) fn push_char(s: &mut String, c: char)
    ensures
        final(s)@ == old(s)@.push(c),
{
    s.push(c);
}

/// Splits a line into its fields at every occurrence of `sep`.
pub fn split_char(s: &str, sep: char) -> (r: Vec<String>)
    ensures
        views(r@) == spec_split(s@, sep),
{
    let n: usize = s.unicode_len();
    let mut fields: Vec<String> = Vec::new();
    let mut cur: String = String::new();
    let mut i: usize = 0;
    while i < n
        invariant
            i <= n,
            n == s@.len(),
            views(fields@).push(cur@) == spec_split(s@.take(i as int), sep),
        decreases n - i,
    {
        let c = s.get_char(i);
        proof {
            assert(s@.take(i + 1).drop_last() =~= s@.take(i as int));
            assert(s@.take(i + 1).last() == s@[i as int]);
        }
        let ghost prev_fields = fields@;
        let ghost prev_cur = cur@;
        if c == sep {
            fields.push(cur);
            cur = String::new();
            proof {
                assert(views(fields@) =~= views(prev_fields).push(prev_cur));
                assert(views(fields@).push(cur@)
                    =~= spec_split(s@.take(i + 1), sep));
            }
        } else {
            push_char(&mut cur, c);
            proof {
                let rest = spec_split(s@.take(i as int), sep);
                assert(views(fields@).push(cur@)
                    =~= rest.update(rest.len() - 1, rest.last().push(s@[i as int])));
            }
        }
        i = i + 1;
    }
    proof {
        assert(s@.take(n as int) =~= s@);
    }
    fields.push(cur);
    proof {
        assert(views(fields@) =~= spec_split(s@, sep));
    }
    fields
}

/// Joins the fields with the separator character.
pub fn join_char(parts: &Vec<String>, sep: char) -> (r: String)
    ensures
        r@ == spec_join(views(parts@), sep),
{
    let mut out: String = String::new();
    let mut i: usize = 0;
    while i < parts.len()
        invariant
            i <= parts@.len(),
            out@ == spec_join(views(parts@).take(i as int), sep),
        decreases parts@.len() - i,
    {
        if i > 0 {
            push_char(&mut out, sep);
        }
        out.append(parts[i].as_str());
        proof {
            let vs = views(parts@);
            assert(vs.take(i + 1).drop_last() =~= vs.take(i as int));
            assert(vs.take(i + 1).last() == parts@[i as int]@);
            if i == 0 {
                assert(out@ =~= vs.take(1)[0]);
            }
        }
        i = i + 1;
    }
    proof {
        assert(views(parts@).take(parts@.len() as int) =~= views(parts@));
    }
    out
}

/// First-seen deduplication of the row stream by full row text.
pub open spec fn dedup_lines(s: Seq<Seq<char>>) -> Seq<Seq<char>>
    decreases s.len(),
{
    if s.len() == 0 {
        s
    } else {
        let p = dedup_lines(s.drop_last());
        if s.drop_last().contains(s.last()) {
            p
        } else {
            p.push(s.last())
        }
    }
}

/// Deduplication keeps exactly the values of the stream, each once.
pub proof fn lemma_dedup_lines_props(s: Seq<Seq<char>>)
    ensures
        forall|x: Seq<char>| dedup_lines(s).contains(x) <==> s.contains(x),
        dedup_lines(s).no_duplicates(),
        dedup_lines(s).len() <= s.len(),
    decreases s.len(),
{
    if s.len() > 0 {
        lemma_dedup_lines_props(s.drop_last());
        let u = s.drop_last();
        let p = dedup_lines(u);
        let x0 = s.last();
        assert forall|x: Seq<char>| s.contains(x) implies (u.contains(x) || x == x0) by {
            let t = choose|t: int| 0 <= t < s.len() && s[t] == x;
            if t < s.len() - 1 {
                assert(u[t] == x);
            }
        }
        assert forall|x: Seq<char>| u.contains(x) implies s.contains(x) by {
            let t = choose|t: int| 0 <= t < u.len() && u[t] == x;
            assert(s[t] == x);
        }
        assert(s.contains(x0)) by {
            assert(s[s.len() - 1] == x0);
        }
        if u.contains(x0) {
        } else {
            let q = p.push(x0);
            assert forall|x: Seq<char>| q.contains(x) implies s.contains(x) by {
                let t = choose|t: int| 0 <= t < q.len() && q[t] == x;
                if t < q.len() - 1 {
                    assert(p[t] == x);
                }
            }
            assert forall|x: Seq<char>| s.contains(x) implies q.contains(x) by {
                if x == x0 {
                    assert(q[q.len() - 1] == x);
                } else {
                    assert(u.contains(x));
                    let t = choose|t: int| 0 <= t < p.len() && p[t] == x;
                    assert(q[t] == x);
                }
            }
            assert(q.no_duplicates()) by {
                assert(!p.contains(x0));
                assert forall|i: int, j: int|
                    0 <= i < q.len() && 0 <= j < q.len() && i != j implies q[i] != q[j] by {
                    if i < q.len() - 1 && j < q.len() - 1 {
                        assert(q[i] == p[i] && q[j] == p[j]);
                    } else if i == q.len() - 1 && j < q.len() - 1 {
                        assert(q[j] == p[j]);
                        if q[i] == q[j] {
                            assert(p.contains(p[j]));
                        }
                    } else if j == q.len() - 1 && i < q.len() - 1 {
                        assert(q[i] == p[i]);
                        if q[i] == q[j] {
                            assert(p.contains(p[i]));
                        }
                    }
                }
            }
        }
    }
}

/// A longer stream deduplicates to a sequence the shorter one's
/// deduplication is a prefix of: first seen stays first.
pub proof fn lemma_dedup_lines_prefix(s1: Seq<Seq<char>>, s2: Seq<Seq<char>>)
    requires
        s1.is_prefix_of(s2),
    ensures
        dedup_lines(s1).is_prefix_of(dedup_lines(s2)),
    decreases s2.len(),
{
    if s1.len() == s2.len() {
        assert(s1 =~= s2);
    } else {
        assert(s1.is_prefix_of(s2.drop_last())) by {
            assert(s1 =~= s2.drop_last().subrange(0, s1.len() as int));
        }
        lemma_dedup_lines_prefix(s1, s2.drop_last());
        let p = dedup_lines(s2.drop_last());
        if s2.drop_last().contains(s2.last()) {
        } else {
            assert(dedup_lines(s1) =~= p.push(s2.last()).subrange(0, dedup_lines(s1).len() as int));
        }
    }
}


/// Keeps the first occurrence of each string, in order.
pub fn dedup_strings(v: &Vec<String>) -> (r: Vec<String>)
    ensures
        views(r@) == dedup_lines(views(v@)),
{
    let mut out: Vec<String> = Vec::new();
    proof {
        assert(views(v@).take(0) =~= Seq::<Seq<char>>::empty());
        assert(views(out@) =~= dedup_lines(views(v@).take(0)));
    }
    let mut i: usize = 0;
    while i < v.len()
        invariant
            i <= v@.len(),
            views(out@) == dedup_lines(views(v@).take(i as int)),
        decreases v@.len() - i,
    {
        let ghost pre = views(v@).take(i as int);
        let ghost x = views(v@)[i as int];
        proof {
            assert(v@[i as int]@ == x);
            assert(views(v@).take(i + 1) =~= pre.push(x));
            assert(pre.push(x).drop_last() =~= pre);
            lemma_dedup_lines_props(pre);
        }
        if contains_string(&out, v[i].as_str()) {
            proof {
                assert(dedup_lines(pre).contains(x));
                assert(pre.contains(x));
                assert(views(out@) =~= dedup_lines(views(v@).take(i + 1)));
            }
        } else {
            let ghost prev = out@;
            out.push(v[i].clone());
            proof {
                assert(!pre.contains(x));
                assert(views(out@) =~= views(prev).push(x));
                assert(views(out@) =~= dedup_lines(views(v@).take(i + 1)));
            }
        }
        i = i + 1;
    }
    proof {
        assert(views(v@).take(v@.len() as int) =~= views(v@));
    }
    out
}

/// The whitespace characters recognized when trimming range endpoints and
/// when splitting a street query into tokens.
pub open spec fn is_space(c: char) -> bool {
    c == ' ' || c == '\t' || c == '\r' || c == '\n'
}

/// An ASCII decimal digit.
pub open spec fn is_digit(c: char) -> bool {
    48 <= c as int && c as int <= 57
}

/// The numeric value of a digit character.
pub open spec fn digit_val(c: char) -> int {
    c as int - 48
}

pub open spec fn all_digits(s: Seq<char>) -> bool {
    forall|i: int| 0 <= i < s.len() ==> is_digit(#[trigger] s[i])
}

/// The value of a digit string, most significant digit first.
pub open spec fn digits_value(s: Seq<char>) -> int
    decreases s.len(),
{
    if s.len() == 0 {
        0
    } else {
        digits_value(s.drop_last()) * 10 + digit_val(s.last())
    }
}

/// An unsigned decimal integer as `str::parse` accepts it: an optional
/// leading plus sign followed by at least one digit.
pub open spec fn strip_plus(s: Seq<char>) -> Seq<char> {
    if s.len() > 0 && s[0] == '+' {
        s.drop_first()
    } else {
        s
    }
}

pub open spec fn is_uint_str(s: Seq<char>) -> bool {
    strip_plus(s).len() > 0 && all_digits(strip_plus(s))
}

pub open spec fn uint_str_value(s: Seq<char>) -> int {
    digits_value(strip_plus(s))
}

pub proof fn lemma_digits_value_nonneg(s: Seq<char>)
    requires
        all_digits(s),
    ensures
        digits_value(s) >= 0,
    decreases s.len(),
{
    if s.len() > 0 {
        assert(all_digits(s.drop_last()));
        lemma_digits_value_nonneg(s.drop_last());
    }
}

/// The value of a digit string is at least the value of any of its
/// prefixes: appending a digit can only grow the value.
pub proof fn lemma_digits_value_take_le(s: Seq<char>, k: int)
    requires
        all_digits(s),
        0 <= k <= s.len(),
    ensures
        digits_value(s.take(k)) <= digits_value(s),
    decreases s.len() - k,
{
    if k < s.len() {
        assert(all_digits(s.take(k + 1)));
        assert(s.take(k + 1).drop_last() =~= s.take(k));
        lemma_digits_value_nonneg(s.take(k));
        assert(digits_value(s.take(k)) <= digits_value(s.take(k + 1)));
        lemma_digits_value_take_le(s, k + 1);
        assert(s.take(s.len() as int) =~= s);
    } else {
        assert(s.take(k) =~= s);
    }
}

/// Parses an unsigned decimal integer, returning its value exactly when
/// the string is well formed and the value fits in a `u64`.
pub fn parse_u64(s: &str) -> (r: Option<u64>)
    ensures
        r.is_some() <==> is_uint_str(s@) && uint_str_value(s@) <= u64::MAX,
        r.is_some() ==> r.unwrap() == uint_str_value(s@),
{
    let n: usize = s.unicode_len();
    let start: usize = if n > 0 && s.get_char(0) == '+' {
        1
    } else {
        0
    };
    proof {
        assert(strip_plus(s@) =~= s@.skip(start as int));
    }
    if n == start {
        return None;
    }
    let ghost body = s@.skip(start as int);
    let mut j: usize = start;
    while j < n
        invariant
            start <= j <= n,
            n == s@.len(),
            body == s@.skip(start as int),
            strip_plus(s@) == body,
            forall|k: int| 0 <= k < j - start ==> is_digit(#[trigger] body[k]),
        decreases n - j,
    {
        let c = s.get_char(j);
        let u: u32 = c as u32;
        if u < 48 || u > 57 {
            proof {
                assert(body[j - start] == s@[j as int]);
                assert(!is_digit(body[j - start]));
            }
            return None;
        }
        proof {
            assert(body[j - start] == s@[j as int]);
        }
        j = j + 1;
    }
    proof {
        assert(all_digits(body));
    }
    let mut acc: u64 = 0;
    let mut i: usize = start;
    while i < n
        invariant
            start <= i <= n,
            n == s@.len(),
            body == s@.skip(start as int),
            strip_plus(s@) == body,
            all_digits(body),
            acc == digits_value(body.take(i - start)),
        decreases n - i,
    {
        let c = s.get_char(i);
        proof {
            assert(body[i - start] == s@[i as int]);
            assert(is_digit(body[i - start]));
            assert(body.take(i - start + 1).drop_last() =~= body.take(i - start));
            assert(body.take(i - start + 1).last() == body[i - start]);
        }
        let d: u64 = (c as u32 - 48) as u64;
        let wide: u128 = acc as u128 * 10 + d as u128;
        if wide > u64::MAX as u128 {
            proof {
                assert(digits_value(body.take(i - start + 1)) == wide);
                lemma_digits_value_take_le(body, i - start + 1);
            }
            return None;
        }
        acc = wide as u64;
        i = i + 1;
    }
    proof {
        assert(body.take((n - start) as int) =~= body);
    }
    Some(acc)
}

/// Parses an unsigned decimal integer that must fit in a `u32`, the form
/// house-number range endpoints take.
pub fn parse_u32(s: &str) -> (r: Option<u32>)
    ensures
        r.is_some() <==> is_uint_str(s@) && uint_str_value(s@) <= u32::MAX,
        r.is_some() ==> r.unwrap() == uint_str_value(s@),
{
    match parse_u64(s) {
        None => None,
        Some(v) => {
            if v <= u32::MAX as u64 {
                Some(v as u32)
            } else {
                None
            }
        },
    }
}

/// Whether every character of the string is a decimal digit.
pub fn str_all_digits(s: &str) -> (r: bool)
    ensures
        r == all_digits(s@),
{
    let n: usize = s.unicode_len();
    let mut i: usize = 0;
    while i < n
        invariant
            i <= n,
            n == s@.len(),
            forall|j: int| 0 <= j < i ==> is_digit(#[trigger] s@[j]),
        decreases n - i,
    {
        let u: u32 = s.get_char(i) as u32;
        if u < 48 || u > 57 {
            proof {
                assert(!is_digit(s@[i as int]));
            }
            return false;
        }
        i = i + 1;
    }
    true
}

/// Reading back the decimal representation gives the number itself.
pub proof fn lemma_dec_digits_value(n: nat)
    ensures
        digits_value(dec_digits(n)) == n,
    decreases n,
{
    assert(digits_value(Seq::<char>::empty()) == 0);
    if n < 10 {
        assert(dec_digits(n).drop_last() =~= Seq::<char>::empty());
        assert(dec_digits(n).last() == digit_char(n as int));
        assert(digit_val(digit_char(n as int)) == n);
    } else {
        lemma_dec_digits_value(n / 10);
        assert(dec_digits(n).drop_last() =~= dec_digits(n / 10));
        assert(dec_digits(n).last() == digit_char((n % 10) as int));
        assert(digit_val(digit_char((n % 10) as int)) == n % 10);
    }
}

/// The character for a single decimal digit.
pub open spec fn digit_char(d: int) -> char {
    if d == 0 {
        '0'
    } else if d == 1 {
        '1'
    } else if d == 2 {
        '2'
    } else if d == 3 {
        '3'
    } else if d == 4 {
        '4'
    } else if d == 5 {
        '5'
    } else if d == 6 {
        '6'
    } else if d == 7 {
        '7'
    } else if d == 8 {
        '8'
    } else {
        '9'
    }
}

/// The decimal representation of a natural number, without sign or
/// leading zeros.
pub open spec fn dec_digits(n: nat) -> Seq<char>
    decreases n,
{
    if n < 10 {
        seq![digit_char(n as int)]
    } else {
        dec_digits(n / 10).push(digit_char((n % 10) as int))
    }
}

pub proof fn lemma_dec_digits_are_digits(n: nat)
    ensures
        dec_digits(n).len() >= 1,
        all_digits(dec_digits(n)),
    decreases n,
{
    if n >= 10 {
        lemma_dec_digits_are_digits(n / 10);
        assert forall|i: int| 0 <= i < dec_digits(n).len() implies is_digit(
            #[trigger] dec_digits(n)[i],
        ) by {
            if i < dec_digits(n / 10).len() {
                assert(dec_digits(n)[i] == dec_digits(n / 10)[i]);
            }
        }
    }
}

fn digit_to_char(d: u32) -> (c: char)
    requires
        d < 10,
    ensures
        c == digit_char(d as int),
{
    if d == 0 {
        '0'
    } else if d == 1 {
        '1'
    } else if d == 2 {
        '2'
    } else if d == 3 {
        '3'
    } else if d == 4 {
        '4'
    } else if d == 5 {
        '5'
    } else if d == 6 {
        '6'
    } else if d == 7 {
        '7'
    } else if d == 8 {
        '8'
    } else {
        '9'
    }
}

/// Formats a number as its decimal string.
pub fn u32_to_string(n: u32) -> (r: String)
    ensures
        r@ == dec_digits(n as nat),
    decreases n,
{
    if n < 10 {
        let mut s = String::new();
        push_char(&mut s, digit_to_char(n));
        s
    } else {
        let mut s = u32_to_string(n / 10);
        push_char(&mut s, digit_to_char(n % 10));
        s
    }
}

/// Leading whitespace removed.
pub open spec fn spec_trim_start(s: Seq<char>) -> Seq<char>
    decreases s.len(),
{
    if s.len() > 0 && is_space(s[0]) {
        spec_trim_start(s.drop_first())
    } else {
        s
    }
}

/// Trailing whitespace removed.
pub open spec fn spec_trim_end(s: Seq<char>) -> Seq<char>
    decreases s.len(),
{
    if s.len() > 0 && is_space(s.last()) {
        spec_trim_end(s.drop_last())
    } else {
        s
    }
}

/// Leading and trailing whitespace removed.
pub open spec fn spec_trim(s: Seq<char>) -> Seq<char> {
    spec_trim_end(spec_trim_start(s))
}

proof fn lemma_trim_start_skip(s: Seq<char>, lo: int)
    requires
        0 <= lo <= s.len(),
        forall|j: int| 0 <= j < lo ==> is_space(#[trigger] s[j]),
        lo == s.len() || !is_space(s[lo]),
    ensures
        spec_trim_start(s) == s.skip(lo),
    decreases lo,
{
    if lo == 0 {
        assert(s.skip(0) =~= s);
    } else {
        assert(is_space(s[0]));
        lemma_trim_start_skip(s.drop_first(), lo - 1);
        assert(s.drop_first().skip(lo - 1) =~= s.skip(lo));
    }
}

proof fn lemma_trim_end_take(s: Seq<char>, hi: int)
    requires
        0 <= hi <= s.len(),
        forall|j: int| hi <= j < s.len() ==> is_space(#[trigger] s[j]),
        hi == 0 || !is_space(s[hi - 1]),
    ensures
        spec_trim_end(s) == s.take(hi),
    decreases s.len() - hi,
{
    if hi == s.len() {
        assert(s.take(hi) =~= s);
    } else {
        assert(is_space(s.last()));
        lemma_trim_end_take(s.drop_last(), hi);
        assert(s.drop_last().take(hi) =~= s.take(hi));
    }
}

/// Removes leading and trailing whitespace.
pub fn trim(s: &str) -> (r: String)
    ensures
        r@ == spec_trim(s@),
{
    let n: usize = s.unicode_len();
    let mut lo: usize = 0;
    while lo < n && is_space_char(s.get_char(lo))
        invariant
            lo <= n,
            n == s@.len(),
            forall|j: int| 0 <= j < lo ==> is_space(#[trigger] s@[j]),
        decreases n - lo,
    {
        lo = lo + 1;
    }
    proof {
        lemma_trim_start_skip(s@, lo as int);
    }
    if lo == n {
        proof {
            assert(s@.skip(lo as int) =~= Seq::<char>::empty());
        }
        return String::new();
    }
    let mut hi: usize = n;
    while hi > lo + 1 && is_space_char(s.get_char(hi - 1))
        invariant
            lo < hi <= n,
            n == s@.len(),
            forall|j: int| hi <= j < n ==> is_space(#[trigger] s@[j]),
        decreases hi,
    {
        hi = hi - 1;
    }
    if is_space_char(s.get_char(hi - 1)) {
        // only possible when hi == lo + 1, and s[lo] is not a space
        proof {
            assert(s@[lo as int] == s@.skip(lo as int)[0]);
            assert(false);
        }
    }
    proof {
        let body = s@.skip(lo as int);
        assert(forall|j: int|
            hi - lo <= j < body.len() ==> is_space(#[trigger] body[j]));
        assert(body[hi - lo - 1] == s@[hi - 1]);
        lemma_trim_end_take(body, hi - lo);
        assert(body.take(hi - lo) =~= s@.subrange(lo as int, hi as int));
    }
    let piece = s.substring_char(lo, hi);
    piece.to_owned()
}

fn is_space_char(c: char) -> (r: bool)
    ensures
        r == is_space(c),
{
    c == ' ' || c == '\t' || c == '\r' || c == '\n'
}

/// Splitting always yields at least one field and none of the fields
/// contains the separator.
pub proof fn lemma_split_no_sep(s: Seq<char>, sep: char)
    ensures
        spec_split(s, sep).len() >= 1,
        forall|i: int|
            0 <= i < spec_split(s, sep).len() ==> !(#[trigger] spec_split(s, sep)[i]).contains(sep),
    decreases s.len(),
{
    if s.len() == 0 {
        assert(forall|j: int|
            0 <= j < Seq::<char>::empty().len() ==> Seq::<char>::empty()[j] != sep);
        assert(!Seq::<char>::empty().contains(sep));
    } else {
        lemma_split_no_sep(s.drop_last(), sep);
        let rest = spec_split(s.drop_last(), sep);
        if s.last() == sep {
            assert(!Seq::<char>::empty().contains(sep));
        } else {
            let grown = rest.last().push(s.last());
            assert(!grown.contains(sep)) by {
                assert(!rest.last().contains(sep));
                assert forall|j: int| 0 <= j < grown.len() implies grown[j] != sep by {
                    if j < grown.len() - 1 {
                        assert(grown[j] == rest.last()[j]);
                        assert(rest.last().contains(sep) <==> exists|t: int|
                            0 <= t < rest.last().len() && rest.last()[t] == sep);
                    }
                }
            }
        }
    }
}

/// The needle occurs in the haystack at position `i`.
pub open spec fn contains_at(h: Seq<char>, n: Seq<char>, i: int) -> bool {
    0 <= i && i + n.len() <= h.len() && h.subrange(i, i + n.len() as int) == n
}

/// The needle occurs somewhere in the haystack.
pub open spec fn spec_contains(h: Seq<char>, n: Seq<char>) -> bool {
    exists|i: int| contains_at(h, n, i)
}

/// The position of the first occurrence of the needle, if any.
pub open spec fn find_sub(h: Seq<char>, n: Seq<char>) -> Option<int>
    decreases h.len(),
{
    if n.len() == 0 {
        Some(0)
    } else if h.len() < n.len() {
        None
    } else if h.take(n.len() as int) == n {
        Some(0)
    } else {
        match find_sub(h.drop_first(), n) {
            None => None,
            Some(i) => Some(i + 1),
        }
    }
}

/// `find_sub` returns the first occurrence and nothing else: a found
/// position holds the needle and no earlier position does, and a miss
/// means the needle occurs nowhere.
pub proof fn lemma_find_sub_spec(h: Seq<char>, n: Seq<char>)
    ensures
        match find_sub(h, n) {
            Some(i) => contains_at(h, n, i) && (forall|j: int|
                0 <= j < i ==> !contains_at(h, n, j)),
            None => !spec_contains(h, n),
        },
    decreases h.len(),
{
    if n.len() == 0 {
        assert(h.subrange(0, 0) =~= n);
    } else if h.len() < n.len() {
        assert(forall|i: int| !contains_at(h, n, i));
    } else if h.take(n.len() as int) == n {
        assert(h.subrange(0, n.len() as int) =~= h.take(n.len() as int));
    } else {
        lemma_find_sub_spec(h.drop_first(), n);
        assert(h.subrange(0, n.len() as int) =~= h.take(n.len() as int));
        assert(!contains_at(h, n, 0));
        assert forall|j: int| 0 <= j implies contains_at(h, n, j + 1)
            == contains_at(h.drop_first(), n, j) by {
            if j + 1 + n.len() <= h.len() {
                assert(h.subrange(j + 1, j + 1 + n.len() as int)
                    =~= h.drop_first().subrange(j, j + n.len() as int));
            }
        }
        match find_sub(h.drop_first(), n) {
            None => {
                assert forall|i: int| !contains_at(h, n, i) by {
                    if i >= 1 {
                        assert(!contains_at(h.drop_first(), n, i - 1));
                    }
                }
            },
            Some(i) => {
                assert(contains_at(h, n, i + 1));
                assert forall|j: int| 0 <= j < i + 1 implies !contains_at(h, n, j) by {
                    if j >= 1 {
                        assert(!contains_at(h.drop_first(), n, j - 1));
                    }
                }
            },
        }
    }
}

/// Whether the needle occurs at the given position.
fn match_at(h: &str, n: &str, i: usize) -> (r: bool)
    requires
        i + n@.len() <= h@.len(),
    ensures
        r == contains_at(h@, n@, i as int),
{
    let hl: usize = h.unicode_len();
    let ln: usize = n.unicode_len();
    let mut k: usize = 0;
    while k < ln
        invariant
            k <= ln,
            ln == n@.len(),
            hl == h@.len(),
            i + ln <= hl,
            forall|t: int| 0 <= t < k ==> h@[i + t] == n@[t],
        decreases ln - k,
    {
        if h.get_char(i + k) != n.get_char(k) {
            proof {
                assert(h@.subrange(i as int, i + ln) != n@) by {
                    if h@.subrange(i as int, i + ln) == n@ {
                        assert(h@.subrange(i as int, i + ln)[k as int] == h@[i + k]);
                    }
                }
            }
            return false;
        }
        k = k + 1;
    }
    proof {
        assert(h@.subrange(i as int, i + ln) =~= n@);
    }
    true
}

/// Finds the first occurrence of the needle in the haystack.
pub fn find_str(h: &str, n: &str) -> (r: Option<usize>)
    ensures
        r.is_some() <==> find_sub(h@, n@).is_some(),
        r.is_some() ==> find_sub(h@, n@) == Some(r.unwrap() as int),
{
    let hl: usize = h.unicode_len();
    let nl: usize = n.unicode_len();
    if nl == 0 {
        return Some(0);
    }
    if hl < nl {
        return None;
    }
    let mut i: usize = 0;
    while i <= hl - nl
        invariant
            i <= hl - nl + 1,
            hl == h@.len(),
            nl == n@.len(),
            1 <= nl <= hl,
            forall|j: int| 0 <= j < i ==> !contains_at(h@, n@, j),
        decreases hl - nl + 1 - i,
    {
        if match_at(h, n, i) {
            proof {
                lemma_find_sub_spec(h@, n@);
                match find_sub(h@, n@) {
                    None => {
                        assert(spec_contains(h@, n@));
                    },
                    Some(i0) => {
                        assert(!(i0 < i));
                        assert(!(i0 > i)) by {
                            if i0 > i {
                                assert(!contains_at(h@, n@, i as int));
                            }
                        }
                    },
                }
            }
            return Some(i);
        }
        i = i + 1;
    }
    proof {
        lemma_find_sub_spec(h@, n@);
        if find_sub(h@, n@).is_some() {
            let i0 = find_sub(h@, n@).unwrap();
            assert(contains_at(h@, n@, i0));
            assert(!contains_at(h@, n@, i0));
        }
    }
    None
}

/// Whether the needle occurs anywhere in the haystack.
pub fn str_contains(h: &str, n: &str) -> (r: bool)
    ensures
        r == spec_contains(h@, n@),
{
    let f = find_str(h, n);
    proof {
        lemma_find_sub_spec(h@, n@);
    }
    f.is_some()
}

/// Whether the string starts with the given prefix.
pub fn str_starts_with(h: &str, p: &str) -> (r: bool)
    ensures
        r == p@.is_prefix_of(h@),
{
    let hl: usize = h.unicode_len();
    let pl: usize = p.unicode_len();
    if pl > hl {
        return false;
    }
    let r = match_at(h, p, 0);
    proof {
        assert(h@.subrange(0, pl as int) =~= h@.take(pl as int));
    }
    r
}

/// Whether the string ends with the given suffix.
pub fn str_ends_with(h: &str, sfx: &str) -> (r: bool)
    ensures
        r == sfx@.is_suffix_of(h@),
{
    let hl: usize = h.unicode_len();
    let sl: usize = sfx.unicode_len();
    if sl > hl {
        return false;
    }
    let r = match_at(h, sfx, hl - sl);
    r
}

/// Whether the string occurs in the list.
pub fn contains_string(v: &Vec<String>, s: &str) -> (r: bool)
    ensures
        r == views(v@).contains(s@),
{
    let mut i: usize = 0;
    while i < v.len()
        invariant
            i <= v@.len(),
            forall|j: int| 0 <= j < i ==> views(v@)[j] != s@,
        decreases v@.len() - i,
    {
        if str_eq(v[i].as_str(), s) {
            proof {
                assert(views(v@)[i as int] == s@);
            }
            return true;
        }
        proof {
            assert(views(v@)[i as int] == v@[i as int]@);
        }
        i = i + 1;
    }
    proof {
        if views(v@).contains(s@) {
            let j = choose|j: int| 0 <= j < views(v@).len() && views(v@)[j] == s@;
            assert(views(v@)[j] != s@);
        }
    }
    false
}

/// The longest run of non-whitespace characters at the end.
pub open spec fn tail_run(q: Seq<char>) -> Seq<char>
    decreases q.len(),
{
    if q.len() == 0 || is_space(q.last()) {
        Seq::<char>::empty()
    } else {
        tail_run(q.drop_last()).push(q.last())
    }
}

/// The last whitespace-separated token, or empty when there is none:
/// what `split_whitespace().last()` yields.
pub open spec fn last_token(q: Seq<char>) -> Seq<char>
    decreases q.len(),
{
    if q.len() == 0 {
        Seq::<char>::empty()
    } else if is_space(q.last()) {
        last_token(q.drop_last())
    } else {
        tail_run(q)
    }
}

proof fn lemma_last_token_strip(q: Seq<char>, e: int)
    requires
        0 <= e <= q.len(),
        forall|j: int| e <= j < q.len() ==> is_space(#[trigger] q[j]),
    ensures
        last_token(q) == last_token(q.take(e)),
    decreases q.len() - e,
{
    if e == q.len() {
        assert(q.take(e) =~= q);
    } else {
        assert(is_space(q.last()));
        lemma_last_token_strip(q.drop_last(), e);
        assert(q.drop_last().take(e) =~= q.take(e));
    }
}

proof fn lemma_tail_run_skip(q: Seq<char>, b: int)
    requires
        0 <= b <= q.len(),
        forall|j: int| b <= j < q.len() ==> !is_space(#[trigger] q[j]),
        b == 0 || is_space(q[b - 1]),
    ensures
        tail_run(q) == q.skip(b),
    decreases q.len() - b,
{
    if b == q.len() {
        assert(q.skip(b) =~= Seq::<char>::empty());
    } else {
        assert(!is_space(q.last()));
        lemma_tail_run_skip(q.drop_last(), b);
        assert(q.drop_last().skip(b).push(q.last()) =~= q.skip(b));
    }
}

/// The last whitespace-separated token of the query, or the empty string.
pub fn str_last_token(q: &str) -> (r: String)
    ensures
        r@ == last_token(q@),
{
    let n: usize = q.unicode_len();
    let mut e: usize = n;
    while e > 0 && is_space_char(q.get_char(e - 1))
        invariant
            e <= n,
            n == q@.len(),
            forall|j: int| e <= j < n ==> is_space(#[trigger] q@[j]),
        decreases e,
    {
        e = e - 1;
    }
    proof {
        lemma_last_token_strip(q@, e as int);
    }
    if e == 0 {
        return String::new();
    }
    let mut b: usize = e;
    while b > 0 && !is_space_char(q.get_char(b - 1))
        invariant
            b <= e <= n,
            n == q@.len(),
            forall|j: int| b <= j < e ==> !is_space(#[trigger] q@[j]),
        decreases b,
    {
        b = b - 1;
    }
    proof {
        let front = q@.take(e as int);
        assert(!is_space(front.last()));
        assert(forall|j: int| b <= j < front.len() ==> !is_space(#[trigger] front[j]));
        if b > 0 {
            assert(front[b - 1] == q@[b - 1]);
        }
        lemma_tail_run_skip(front, b as int);
        assert(front.skip(b as int) =~= q@.subrange(b as int, e as int));
    }
    let piece = q.substring_char(b, e);
    piece.to_owned()
}

/// What `str::to_lowercase` returns; the result depends on the characters
/// of the input alone.
pub uninterp spec fn lower_of(s: Seq<char>) -> Seq<char>;

/// Relies on str::to_lowercase: returns the lowercase equivalent of the
/// string, determined by the Unicode lowercase mapping of its characters;
/// an empty string stays empty.
#[verifier::external_body]
pub(crate) fn lowercase(s: &str) -> (r: String)
    ensures
        r@ == lower_of(s@),
        s@.len() == 0 ==> r@.len() == 0,
{
    s.to_lowercase()
}

/// Character-level string equality.
pub fn str_eq(a: &str, b: &str) -> (r: bool)
    ensures
        r == (a@ == b@),
{
    let na: usize = a.unicode_len();
    let nb: usize = b.unicode_len();
    if na != nb {
        return false;
    }
    let mut i: usize = 0;
    while i < na
        invariant
            i <= na,
            na == a@.len(),
            na == b@.len(),
            forall|j: int| 0 <= j < i ==> a@[j] == b@[j],
        decreases na - i,
    {
        if a.get_char(i) != b.get_char(i) {
            return false;
        }
        i = i + 1;
    }
    proof {
        assert(a@ =~= b@);
    }
    true
}

} // verus!
